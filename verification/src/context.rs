//! A loaded context: its text, its chunks and how to search and read them.
use vstd::prelude::*;
use vstd::string::*;
use vstd::utf8::*;

use crate::chunking;
use crate::chunking::Chunk;
use crate::decimal;
use crate::decimal::decimal_string;
use crate::matching;
use crate::matching::{count_occurrences, find_from, str_contains};
use crate::order;
use crate::pattern;
use crate::pattern::{compile_pattern, find_spans};
use crate::preview;
use crate::preview::{preview_match, write_opening};
use crate::ranking;
use crate::ranking::{build_index, keep_best_found, search_index, Bm25Index};
use crate::records;
use crate::records::{keep_best, ChunkData, ContextSummary, Score, SearchHit, SearchMode};
use crate::text;
use crate::text::{str_eq, take_chars};
use crate::unicode;
use crate::unicode::{to_lowercase, utf8_text};
use crate::white;

verus! {

/// The characters of a chunk that a hit shows, and the bytes around a match that it shows.
pub const PREVIEW_CHARS: usize = 200;

/// A loaded context. Immutable after construction.
#[derive(Debug)]
pub struct RlmContext {
    pub name: String,
    pub source: String,
    pub contents: Contents,
    pub chunks: Vec<Chunk>,
    pub total_chars: usize,
    pub total_tokens: usize,
}

/// The bytes of a context's text, and the relevance index over its chunks. Only
/// [`build_context`] makes one, and nothing changes it.
#[derive(Debug)]
pub struct Contents {
    blob: Vec<u8>,
    bm25: Option<Bm25Index>,
}

impl Contents {
    /// The bytes of the text.
    pub closed spec fn blob(&self) -> Seq<u8> {
        self.blob@
    }

    /// The relevance index.
    pub closed spec fn index(&self) -> Option<Bm25Index> {
        self.bm25
    }
}

// ---------------------------------------------------------------------------
// Model
// ---------------------------------------------------------------------------

/// The text of a chunk in a blob: what the bytes of its range encode. `None` if the range
/// does not lie within the blob or its bytes are not UTF-8.
pub open spec fn text_in(blob: Seq<u8>, chunk: chunking::ChunkView) -> Option<Seq<char>> {
    range_text(blob, chunk.start, chunk.end)
}

/// The text that the bytes of a range of a blob encode.
pub open spec fn range_text(blob: Seq<u8>, start: int, end: int) -> Option<Seq<char>> {
    if 0 <= start <= end <= blob.len() && valid_utf8(blob.subrange(start, end)) {
        Some(decode_utf8(blob.subrange(start, end)))
    } else {
        None
    }
}

/// The number of the first chunk from `from` on that has this identifier.
pub open spec fn first_with_id(
    chunks: Seq<chunking::ChunkView>,
    id: Seq<char>,
    from: int,
) -> Option<int>
    decreases chunks.len() - from,
{
    if from < 0 || from >= chunks.len() {
        None
    } else if chunks[from].id == id {
        Some(from)
    } else {
        first_with_id(chunks, id, from + 1)
    }
}

/// A text cut to at most `max_chars` characters, as data.
pub open spec fn capped(
    id: Seq<char>,
    text: Seq<char>,
    max_chars: int,
    section_path: Option<Seq<char>>,
    source_file: Option<Seq<char>>,
) -> records::DataView {
    records::DataView {
        chunk_id: id,
        text: text.take(text::min_int(max_chars, text.len() as int)),
        truncated: text.len() > max_chars,
        total_chars: text.len() as int,
        section_path,
        source_file,
    }
}

/// The data of a chunk with this text.
pub open spec fn chunk_data(
    chunk: chunking::ChunkView,
    text: Seq<char>,
    max_chars: int,
) -> records::DataView {
    capped(chunk.id, text, max_chars, chunk.section_path, chunk.source_file)
}

/// The identifier of a byte range of a context.
pub open spec fn range_id(name: Seq<char>, start: nat, end: nat) -> Seq<char> {
    name + ":bytes:"@ + decimal::decimal(start) + "-"@ + decimal::decimal(end)
}

/// The data of the chunks that `matching` marks, from chunk `from` on, with no more than
/// `budget` characters in all: a chunk that the rest of the budget does not hold is cut,
/// and the chunk that uses it up is the last.
pub open spec fn marked_data(
    blob: Seq<u8>,
    chunks: Seq<chunking::ChunkView>,
    matching: Seq<bool>,
    from: int,
    budget: int,
) -> Seq<records::DataView>
    decreases chunks.len() - from,
{
    if from < 0 || from >= chunks.len() {
        Seq::empty()
    } else {
        match text_in(blob, chunks[from]) {
            Some(text) if matching[from] => {
                let data = chunk_data(chunks[from], text, budget);
                let left = budget - data.text.len();
                if left == 0 {
                    seq![data]
                } else {
                    seq![data] + marked_data(blob, chunks, matching, from + 1, left)
                }
            },
            _ => marked_data(blob, chunks, matching, from + 1, budget),
        }
    }
}

/// Whether the heading of a chunk contains `section`, case aside.
pub open spec fn in_section(chunk: chunking::ChunkView, section: Seq<char>) -> bool {
    match chunk.section_path {
        Some(path) => matching::contains(unicode::lowercase(path), unicode::lowercase(section)),
        None => false,
    }
}

/// The chunks whose heading contains `section`, case aside.
pub open spec fn section_marks(
    chunks: Seq<chunking::ChunkView>,
    section: Seq<char>,
) -> Seq<bool> {
    Seq::new(chunks.len(), |i: int| in_section(chunks[i], section))
}

/// The hit for a chunk with this text.
pub open spec fn hit_for(
    chunk: chunking::ChunkView,
    score: Score,
    preview: Seq<char>,
) -> records::HitView {
    records::HitView {
        chunk_id: chunk.id,
        section_path: chunk.section_path,
        source_file: chunk.source_file,
        score,
        preview,
    }
}

/// The hit for chunk `idx` that shows how the chunk begins.
pub open spec fn plain_hit(
    blob: Seq<u8>,
    chunks: Seq<chunking::ChunkView>,
    idx: int,
    score: Score,
) -> Option<records::HitView> {
    if 0 <= idx < chunks.len() {
        match text_in(blob, chunks[idx]) {
            Some(text) => Some(
                hit_for(
                    chunks[idx],
                    score,
                    preview::opening(text, PREVIEW_CHARS as int),
                ),
            ),
            None => None,
        }
    } else {
        None
    }
}

/// The hits that there are among the first `n` of `f`.
pub open spec fn collected(
    n: nat,
    f: spec_fn(int) -> Option<records::HitView>,
) -> Seq<records::HitView>
    decreases n,
{
    if n == 0 {
        Seq::empty()
    } else {
        let before = collected((n - 1) as nat, f);
        match f(n - 1) {
            Some(hit) => before.push(hit),
            None => before,
        }
    }
}

/// The hit of a needle in chunk `idx`, given the chunk's text in lower case: the number of
/// occurrences there, with a preview around the place of the first.
pub open spec fn substring_hit(
    blob: Seq<u8>,
    chunks: Seq<chunking::ChunkView>,
    lowered: Seq<Seq<char>>,
    needle: Seq<char>,
    idx: int,
) -> Option<records::HitView> {
    let hay = encode_utf8(lowered[idx]);
    let pin = encode_utf8(needle);
    match text_in(blob, chunks[idx]) {
        Some(text) => match matching::first_occurrence(hay, pin, 0) {
            Some(pos) => Some(
                hit_for(
                    chunks[idx],
                    Score::Matches(matching::occurrences(hay, pin, 0) as usize),
                    preview::match_preview(text, pos, pin.len() as int, PREVIEW_CHARS as int),
                ),
            ),
            None => None,
        },
        None => None,
    }
}

/// The hits of a needle, given the chunks' texts in lower case: of the chunks that hold it,
/// the `k` best.
pub open spec fn substring_hits(
    blob: Seq<u8>,
    chunks: Seq<chunking::ChunkView>,
    lowered: Seq<Seq<char>>,
    needle: Seq<char>,
    k: int,
) -> Seq<records::HitView> {
    if needle.len() == 0 {
        Seq::empty()
    } else {
        records::best_hits(
            collected(chunks.len(), |i: int| substring_hit(blob, chunks, lowered, needle, i)),
            k,
        )
    }
}

/// The texts of chunks in lower case; nothing for a chunk without a text.
pub open spec fn lowered_texts(
    blob: Seq<u8>,
    chunks: Seq<chunking::ChunkView>,
) -> Seq<Seq<char>> {
    Seq::new(
        chunks.len(),
        |i: int|
            match text_in(blob, chunks[i]) {
                Some(text) => unicode::lowercase(text),
                None => Seq::empty(),
            },
    )
}

/// The hit of a regular expression in chunk `idx`, given the ranges of its matches there:
/// their number, with a preview around the first.
pub open spec fn span_hit(
    blob: Seq<u8>,
    chunks: Seq<chunking::ChunkView>,
    spans: Seq<Seq<(usize, usize)>>,
    idx: int,
) -> Option<records::HitView> {
    match text_in(blob, chunks[idx]) {
        Some(text) => if spans[idx].len() > 0 {
            let first = spans[idx][0];
            Some(
                hit_for(
                    chunks[idx],
                    Score::Matches(spans[idx].len() as usize),
                    preview::match_preview(
                        text,
                        first.0 as int,
                        first.1 - first.0,
                        PREVIEW_CHARS as int,
                    ),
                ),
            )
        } else {
            None
        },
        None => None,
    }
}

/// What lists of byte ranges hold.
pub open spec fn span_views(v: Seq<Vec<(usize, usize)>>) -> Seq<Seq<(usize, usize)>> {
    Seq::new(v.len(), |i: int| v[i]@)
}

/// Whether no byte range ends before it starts.
pub open spec fn ordered_spans(spans: Seq<(usize, usize)>) -> bool {
    forall|i: int| 0 <= i < spans.len() ==> (#[trigger] spans[i]).0 <= spans[i].1
}

/// The `k` best hits of a regular expression, given the ranges of its matches in each chunk.
pub open spec fn span_hits(
    blob: Seq<u8>,
    chunks: Seq<chunking::ChunkView>,
    spans: Seq<Seq<(usize, usize)>>,
    k: int,
) -> Seq<records::HitView> {
    records::best_hits(collected(chunks.len(), |i: int| span_hit(blob, chunks, spans, i)), k)
}

/// The ranges of the matches of a regular expression in each chunk; none in a chunk
/// without a text.
pub open spec fn all_spans(
    blob: Seq<u8>,
    chunks: Seq<chunking::ChunkView>,
    re: regex::Regex,
) -> Seq<Seq<(usize, usize)>> {
    Seq::new(
        chunks.len(),
        |i: int|
            match text_in(blob, chunks[i]) {
                Some(text) => pattern::regex_spans(re, text),
                None => Seq::empty(),
            },
    )
}

/// The hits of a relevance search, given what the index answered: the `k` best answers,
/// in order, as far as they name a chunk with a text.
pub open spec fn relevance_hits(
    blob: Seq<u8>,
    chunks: Seq<chunking::ChunkView>,
    found: Seq<(usize, u32)>,
    k: int,
) -> Seq<records::HitView> {
    let kept = ranking::best_found(found, k);
    collected(
        kept.len(),
        |i: int| plain_hit(blob, chunks, kept[i].0 as int, Score::Relevance(kept[i].1)),
    )
}

/// The texts of the chunks that have one, by number.
pub open spec fn chunk_documents(
    blob: Seq<u8>,
    chunks: Seq<chunking::ChunkView>,
) -> Map<usize, Seq<char>> {
    Map::new(
        |i: usize| i < chunks.len() && text_in(blob, chunks[i as int]) is Some,
        |i: usize| text_in(blob, chunks[i as int])->0,
    )
}

/// The number of tokens that chunks are counted as.
pub open spec fn token_sum(chunks: Seq<chunking::ChunkView>) -> int
    decreases chunks.len(),
{
    if chunks.len() == 0 {
        0
    } else {
        token_sum(chunks.drop_last()) + chunks.last().token_count
    }
}

/// What an [`RlmContext`] holds: its name and source, the bytes of its text, its chunks,
/// its sizes and its relevance index.
pub struct ContextView {
    pub name: Seq<char>,
    pub source: Seq<char>,
    pub blob: Seq<u8>,
    pub chunks: Seq<chunking::ChunkView>,
    pub total_chars: int,
    pub total_tokens: int,
    pub index: Option<Bm25Index>,
}

impl View for RlmContext {
    type V = ContextView;

    open spec fn view(&self) -> ContextView {
        ContextView {
            name: self.name@,
            source: self.source@,
            blob: self.contents.blob(),
            chunks: chunking::chunk_views(self.chunks@),
            total_chars: self.total_chars as int,
            total_tokens: self.total_tokens as int,
            index: self.contents.index(),
        }
    }
}

impl ContextView {
    /// What the context is summarised as.
    pub open spec fn summary(self) -> records::SummaryView {
        records::SummaryView {
            name: self.name,
            source: self.source,
            total_chars: self.total_chars,
            total_tokens: self.total_tokens,
            n_chunks: self.chunks.len() as int,
        }
    }

    /// The text of chunk `i`.
    pub open spec fn text_of(self, i: int) -> Option<Seq<char>> {
        if 0 <= i < self.chunks.len() {
            text_in(self.blob, self.chunks[i])
        } else {
            None
        }
    }

    /// The data of the chunk with this identifier.
    pub open spec fn data_by_id(self, id: Seq<char>, max_chars: int) -> Option<
        records::DataView,
    > {
        match first_with_id(self.chunks, id, 0) {
            Some(i) => match text_in(self.blob, self.chunks[i]) {
                Some(text) => Some(chunk_data(self.chunks[i], text, max_chars)),
                None => None,
            },
            None => None,
        }
    }

    /// The data of a byte range.
    pub open spec fn data_by_range(self, start: nat, end: nat, max_chars: int) -> Option<
        records::DataView,
    > {
        if start >= end {
            None
        } else {
            match range_text(self.blob, start as int, end as int) {
                Some(text) => Some(
                    capped(range_id(self.name, start, end), text, max_chars, None, None),
                ),
                None => None,
            }
        }
    }

    /// The data of the chunks under a heading that contains `section`.
    pub open spec fn data_by_section(self, section: Seq<char>, max_chars: int) -> Seq<
        records::DataView,
    > {
        marked_data(
            self.blob,
            self.chunks,
            section_marks(self.chunks, section),
            0,
            max_chars,
        )
    }

    /// The hits of a substring search.
    pub open spec fn hits_by_substring(self, query: Seq<char>, k: int) -> Seq<
        records::HitView,
    > {
        substring_hits(
            self.blob,
            self.chunks,
            lowered_texts(self.blob, self.chunks),
            unicode::lowercase(query),
            k,
        )
    }

    /// Whether the text of chunk `n` holds the query, case aside.
    pub open spec fn holds_query(self, query: Seq<char>, n: int) -> bool {
        &&& 0 <= n < self.chunks.len()
        &&& self.text_of(n) is Some
        &&& matching::contains(
            lowered_texts(self.blob, self.chunks)[n],
            unicode::lowercase(query),
        )
    }

    /// The hit for chunk `n` of a substring search.
    pub open spec fn query_hit(self, query: Seq<char>, n: int) -> Option<records::HitView> {
        substring_hit(
            self.blob,
            self.chunks,
            lowered_texts(self.blob, self.chunks),
            unicode::lowercase(query),
            n,
        )
    }

    /// Whether a hit is that for chunk `n`, whose text holds the query.
    pub open spec fn is_query_hit(
        self,
        query: Seq<char>,
        n: int,
        hit: records::HitView,
    ) -> bool {
        self.holds_query(query, n) && self.query_hit(query, n) == Some(hit)
    }

    /// Whether a hit is that for some chunk whose text holds the query.
    pub open spec fn is_some_query_hit(self, query: Seq<char>, hit: records::HitView) -> bool {
        exists|n: int| self.is_query_hit(query, n, hit)
    }

    /// The number of chunks whose text holds the query, case aside.
    pub open spec fn matching_chunks(self, query: Seq<char>) -> nat {
        let low = lowered_texts(self.blob, self.chunks);
        let needle = unicode::lowercase(query);
        collected(
            self.chunks.len(),
            |i: int| substring_hit(self.blob, self.chunks, low, needle, i),
        ).len()
    }

    /// The hits of a search for a regular expression; none if the pattern is not one.
    pub open spec fn hits_by_regex(self, pattern: Seq<char>, k: int) -> Seq<records::HitView> {
        match pattern::pattern_regex(pattern) {
            Some(re) => span_hits(
                self.blob,
                self.chunks,
                all_spans(self.blob, self.chunks, re),
                k,
            ),
            None => Seq::empty(),
        }
    }

    /// Whether chunk `n` has a text with a match, given the ranges of the matches.
    pub open spec fn has_match(self, spans: Seq<Seq<(usize, usize)>>, n: int) -> bool {
        &&& 0 <= n < self.chunks.len()
        &&& self.text_of(n) is Some
        &&& spans[n].len() > 0
    }

    /// Whether a hit is that for chunk `n`, which has a match.
    pub open spec fn is_span_hit(
        self,
        spans: Seq<Seq<(usize, usize)>>,
        n: int,
        hit: records::HitView,
    ) -> bool {
        self.has_match(spans, n) && span_hit(self.blob, self.chunks, spans, n) == Some(hit)
    }

    /// Whether a hit is that for some chunk that has a match.
    pub open spec fn is_some_span_hit(
        self,
        spans: Seq<Seq<(usize, usize)>>,
        hit: records::HitView,
    ) -> bool {
        exists|n: int| self.is_span_hit(spans, n, hit)
    }

    /// Whether hits are what a relevance search may give: the hits for an answer that the
    /// index may give, which is asked for `k` documents, or for one if `k` is 0; no hits if
    /// there is no index.
    pub open spec fn hits_by_relevance(
        self,
        query: Seq<char>,
        k: int,
        hits: Seq<records::HitView>,
    ) -> bool {
        match self.index {
            Some(index) => exists|found: Seq<(usize, u32)>|
                self.index_answers(index, query, k, found) && hits == #[trigger] relevance_hits(
                    self.blob,
                    self.chunks,
                    found,
                    k,
                ),
            None => hits.len() == 0,
        }
    }

    /// Whether the index may give this answer when it is asked for `k` documents, or for one
    /// if `k` is 0.
    pub open spec fn index_answers(
        self,
        index: Bm25Index,
        query: Seq<char>,
        k: int,
        found: Seq<(usize, u32)>,
    ) -> bool {
        let limit: nat = if k >= 1 {
            k as nat
        } else {
            1
        };
        &&& ranking::bm25_gives(index, query, limit, found)
        &&& ranking::bm25_answer(
            ranking::bm25_documents(index).dom(),
            ranking::bm25_relevant(index, query),
            limit,
            found,
        )
    }

    /// Whether a hit is the plain one for some relevant chunk.
    pub open spec fn is_relevant_hit(
        self,
        relevant: Set<usize>,
        hit: records::HitView,
    ) -> bool {
        exists|n: usize|
            relevant.contains(n) && n < self.chunks.len() && #[trigger] plain_hit(
                self.blob,
                self.chunks,
                n as int,
                hit.score,
            ) == Some(hit)
    }

    /// What is known of the texts that a substring search compares: the lower case of those
    /// that are ASCII.
    pub open spec fn texts_known(self, query: Seq<char>) -> bool {
        &&& unicode::case_known(query)
        &&& forall|i: int|
            0 <= i < self.chunks.len() ==> unicode::opt_case_known(#[trigger] self.text_of(i))
    }

    /// What is known of the headings that a section is sought in: the lower case of those
    /// that are ASCII.
    pub open spec fn headings_known(self, section: Seq<char>) -> bool {
        &&& unicode::case_known(section)
        &&& forall|i: int|
            0 <= i < self.chunks.len() ==> unicode::opt_case_known(
                (#[trigger] self.chunks[i]).section_path,
            )
    }

    /// What is known of the matches of a regular expression: they lie within the texts of
    /// the chunks.
    pub open spec fn matches_known(self, pattern: Seq<char>) -> bool {
        match pattern::pattern_regex(pattern) {
            Some(re) => forall|i: int|
                0 <= i < self.chunks.len() ==> match #[trigger] self.text_of(i) {
                    Some(text) => pattern::spans_within(
                        pattern::regex_spans(re, text),
                        encode_utf8(text).len(),
                    ),
                    None => true,
                },
            None => true,
        }
    }

    /// Whether hits are what a search may give.
    pub open spec fn answers(
        self,
        query: Seq<char>,
        k: int,
        mode: SearchMode,
        hits: Seq<records::HitView>,
    ) -> bool {
        match mode {
            SearchMode::Bm25 => self.hits_by_relevance(query, k, hits),
            SearchMode::Substring => hits == self.hits_by_substring(query, k) && self.texts_known(
                query,
            ),
            SearchMode::Regex => hits == self.hits_by_regex(query, k) && self.matches_known(query),
        }
    }
}

/// Whether a chunk is as loading makes it, as number `i` of a context: it carries its number
/// in its identifier, its range holds a text that is not blank and no longer than a target,
/// and its token count is that of the range.
pub open spec fn sound_chunk(
    name: Seq<char>,
    blob: Seq<u8>,
    c: chunking::ChunkView,
    i: int,
) -> bool {
    &&& c.id == chunking::chunk_id(name, i as nat)
    &&& c.end - c.start <= chunking::target_bytes()
    &&& c.token_count == chunking::tokens(c.end - c.start)
    &&& text_in(blob, c) matches Some(text) && !white::blank(text)
}

impl ContextView {
    /// Whether chunk `i` is as loading makes it.
    pub open spec fn chunk_sound(self, i: int) -> bool {
        sound_chunk(self.name, self.blob, self.chunks[i], i)
    }

    /// Whether the context is as loading makes it: its bytes are UTF-8, its chunks are
    /// sound, its sizes are those of its text and chunks, and its index, which it has
    /// exactly if it has chunks, holds their texts.
    pub open spec fn sound(self) -> bool {
        &&& valid_utf8(self.blob)
        &&& self.total_chars == decode_utf8(self.blob).len()
        &&& self.total_tokens == token_sum(self.chunks)
        &&& forall|i: int| 0 <= i < self.chunks.len() ==> #[trigger] self.chunk_sound(i)
        &&& match self.index {
            Some(index) => ranking::bm25_documents(index) == chunk_documents(
                self.blob,
                self.chunks,
            ),
            None => self.chunks.len() == 0,
        }
    }
}

// ---------------------------------------------------------------------------
// Laws
// ---------------------------------------------------------------------------

/// The identifier of every chunk of a loaded context leads back to that chunk.
pub proof fn law_chunk_id_round_trip(c: ContextView, i: int, max_chars: int)
    requires
        c.sound(),
        0 <= i < c.chunks.len(),
    ensures
        c.text_of(i) is Some,
        c.data_by_id(c.chunks[i].id, max_chars) == Some(
            chunk_data(c.chunks[i], c.text_of(i)->0, max_chars),
        ),
{
    let id = c.chunks[i].id;
    assert(c.chunk_sound(i));
    lemma_first_with_id(c.chunks, id, 0);
    match first_with_id(c.chunks, id, 0) {
        Some(j) => {
            assert(c.chunk_sound(j));
            chunking::law_chunk_ids_distinct(c.name, i as nat, j as nat);
        },
        None => {
            assert(c.chunks[i].id != id);
        },
    }
}

/// What is read of a chunk or of a byte range is a prefix of what stands there, has no more
/// characters than asked for, and is marked as cut exactly if something is missing.
pub proof fn law_data_is_capped(
    id: Seq<char>,
    text: Seq<char>,
    max_chars: int,
    section_path: Option<Seq<char>>,
    source_file: Option<Seq<char>>,
)
    requires
        0 <= max_chars,
    ensures
        ({
            let d = capped(id, text, max_chars, section_path, source_file);
            &&& d.text.len() <= max_chars
            &&& d.text == text.take(d.text.len() as int)
            &&& d.total_chars == text.len()
            &&& d.truncated <==> d.text != text
        }),
{
    let d = capped(id, text, max_chars, section_path, source_file);
    if !d.truncated {
        assert(d.text =~= text);
    }
}

/// The number of characters in data.
pub open spec fn chars_in(data: Seq<records::DataView>) -> int
    decreases data.len(),
{
    if data.len() == 0 {
        0
    } else {
        data[0].text.len() + chars_in(data.drop_first())
    }
}

/// What is read of marked chunks has no more characters in all than asked for.
pub proof fn law_marked_data_is_capped(
    blob: Seq<u8>,
    chunks: Seq<chunking::ChunkView>,
    matching: Seq<bool>,
    from: int,
    budget: int,
)
    requires
        0 <= budget,
    ensures
        chars_in(marked_data(blob, chunks, matching, from, budget)) <= budget,
    decreases chunks.len() - from,
{
    if 0 <= from < chunks.len() {
        match text_in(blob, chunks[from]) {
            Some(text) if matching[from] => {
                let data = chunk_data(chunks[from], text, budget);
                let left = budget - data.text.len();
                let rest = marked_data(blob, chunks, matching, from + 1, left);
                law_marked_data_is_capped(blob, chunks, matching, from + 1, left);
                assert((seq![data] + rest).drop_first() =~= rest);
                assert(seq![data].drop_first() =~= Seq::<records::DataView>::empty());
                assert(chars_in(seq![data].drop_first()) == 0);
            },
            _ => {
                law_marked_data_is_capped(blob, chunks, matching, from + 1, budget);
            },
        }
    }
}

/// A search for a substring or a regular expression gives at most `k` hits, the best first.
pub proof fn law_hits_are_few_and_ordered(c: ContextView, query: Seq<char>, k: int)
    requires
        0 <= k,
    ensures
        c.hits_by_substring(query, k).len() <= k,
        c.hits_by_regex(query, k).len() <= k,
        order::descending(c.hits_by_substring(query, k), records::hit_key()),
        order::descending(c.hits_by_regex(query, k), records::hit_key()),
{
    let low = lowered_texts(c.blob, c.chunks);
    let needle = unicode::lowercase(query);
    let all = collected(
        c.chunks.len(),
        |i: int| substring_hit(c.blob, c.chunks, low, needle, i),
    );
    order::law_best(all, records::hit_key(), k);
    match pattern::pattern_regex(query) {
        Some(re) => {
            let spans = all_spans(c.blob, c.chunks, re);
            let hits = collected(c.chunks.len(), |i: int| span_hit(c.blob, c.chunks, spans, i));
            order::law_best(hits, records::hit_key(), k);
        },
        None => {},
    }
}

/// The hits of a substring search are the top matches: as many chunks whose text holds the
/// query, case aside, as there are, up to `k`; each says how often its chunk holds it; and
/// no chunk that is left out holds it more often than one that is a hit.
pub proof fn law_substring_hits_hold_query(c: ContextView, query: Seq<char>, k: int)
    requires
        0 <= k,
        unicode::lowercase(query).len() > 0,
    ensures
        c.hits_by_substring(query, k).len() == text::min_int(k, c.matching_chunks(query) as int),
        forall|i: int|
            0 <= i < c.hits_by_substring(query, k).len() ==> c.is_some_query_hit(
                query,
                #[trigger] c.hits_by_substring(query, k)[i],
            ),
        forall|n: int| #[trigger]
            c.holds_query(query, n) ==> is_hit_or_no_better(
                c.query_hit(query, n)->0,
                c.hits_by_substring(query, k),
            ),
{
    let low = lowered_texts(c.blob, c.chunks);
    let needle = unicode::lowercase(query);
    let hits = c.hits_by_substring(query, k);
    let f = |i: int| substring_hit(c.blob, c.chunks, low, needle, i);
    let all = collected(c.chunks.len(), f);
    order::law_best(all, records::hit_key(), k);
    assert forall|i: int| 0 <= i < hits.len() implies c.is_some_query_hit(
        query,
        #[trigger] hits[i],
    ) by {
        let hit = hits[i];
        assert(all.contains(hit));
        let j = choose|j: int| 0 <= j < all.len() && all[j] == hit;
        let n = lemma_collected_from(c.chunks.len(), f, j);
        assert(f(n) == c.query_hit(query, n));
        assert(c.is_query_hit(query, n, hit));
    }
    assert forall|n: int| #[trigger] c.holds_query(query, n) implies is_hit_or_no_better(
        c.query_hit(query, n)->0,
        hits,
    ) by {
        assert(f(n) == c.query_hit(query, n));
        lemma_collected_contains(c.chunks.len(), f, n);
        lemma_hit_or_no_better(all, f(n)->0, k);
    }
}

/// Whether a hit is among hits, or scores no higher than any of them.
pub open spec fn is_hit_or_no_better(
    hit: records::HitView,
    hits: Seq<records::HitView>,
) -> bool {
    hits.contains(hit) || forall|i: int|
        0 <= i < hits.len() ==> records::rank(hit.score) <= records::rank(
            (#[trigger] hits[i]).score,
        )
}

proof fn lemma_hit_or_no_better(all: Seq<records::HitView>, hit: records::HitView, k: int)
    requires
        0 <= k,
        all.contains(hit),
    ensures
        is_hit_or_no_better(hit, records::best_hits(all, k)),
{
    order::law_best(all, records::hit_key(), k);
    let hits = records::best_hits(all, k);
    if !hits.contains(hit) {
        assert forall|i: int| 0 <= i < hits.len() implies records::rank(hit.score)
            <= records::rank((#[trigger] hits[i]).score) by {
            assert((records::hit_key())(hits[i]) >= (records::hit_key())(hit));
        }
    }
}

/// A substring search for an ASCII query goes by its letters, whatever their case: a chunk
/// whose text is ASCII and holds the query, both in lower case, is a hit unless `k` chunks
/// that hold it as often are.
pub proof fn law_ascii_case_does_not_matter(
    c: ContextView,
    query: Seq<char>,
    k: int,
    hits: Seq<records::HitView>,
    n: int,
)
    requires
        c.answers(query, k, SearchMode::Substring, hits),
        0 <= k,
        query.len() > 0,
        unicode::ascii(query),
        0 <= n < c.chunks.len(),
        c.text_of(n) matches Some(text) && unicode::ascii(text) && matching::contains(
            unicode::ascii_lowercase(text),
            unicode::ascii_lowercase(query),
        ),
    ensures
        ({
            let count = matching::occurrences(
                encode_utf8(unicode::ascii_lowercase(c.text_of(n)->0)),
                encode_utf8(unicode::ascii_lowercase(query)),
                0,
            ) as usize;
            ||| exists|i: int|
                0 <= i < hits.len() && (#[trigger] hits[i]).chunk_id == c.chunks[n].id
                    && hits[i].score == Score::Matches(count)
            ||| hits.len() == k && forall|i: int|
                0 <= i < hits.len() ==> records::rank((#[trigger] hits[i]).score) >= count
        }),
{
    let low = lowered_texts(c.blob, c.chunks);
    let needle = unicode::lowercase(query);
    assert(needle.len() == query.len());
    law_substring_hits_hold_query(c, query, k);
    assert(low[n] == unicode::ascii_lowercase(c.text_of(n)->0));
    let f = |i: int| substring_hit(c.blob, c.chunks, low, needle, i);
    let hit = substring_hit(c.blob, c.chunks, low, needle, n)->0;
    assert(f(n) == Some(hit));
    assert(c.holds_query(query, n));
    assert(hit == c.query_hit(query, n)->0);
    if hits.contains(hit) {
        let i = choose|i: int| 0 <= i < hits.len() && hits[i] == hit;
        assert(hits[i].chunk_id == c.chunks[n].id);
    } else if hits.len() < k {
        let all = collected(c.chunks.len(), f);
        lemma_collected_contains(c.chunks.len(), f, n);
        order::law_ranked(all, records::hit_key(), 0);
        order::law_ranked_contains(all, records::hit_key(), hit);
        assert(hits =~= order::ranked(all, records::hit_key()));
    }
}

/// The hits of a search for a regular expression, given the ranges of its matches in each
/// chunk, are the top matches: as many chunks in which it matches as there are, up to `k`;
/// each says how often; and in no chunk that is left out does it match more often than in
/// one that is a hit.
pub proof fn law_regex_hits_match(c: ContextView, spans: Seq<Seq<(usize, usize)>>, k: int)
    requires
        0 <= k,
        spans.len() == c.chunks.len(),
    ensures
        span_hits(c.blob, c.chunks, spans, k).len() == text::min_int(
            k,
            collected(c.chunks.len(), |i: int| span_hit(c.blob, c.chunks, spans, i)).len() as int,
        ),
        forall|i: int|
            0 <= i < span_hits(c.blob, c.chunks, spans, k).len() ==> c.is_some_span_hit(
                spans,
                #[trigger] span_hits(c.blob, c.chunks, spans, k)[i],
            ),
        forall|n: int| #[trigger]
            c.has_match(spans, n) ==> is_hit_or_no_better(
                span_hit(c.blob, c.chunks, spans, n)->0,
                span_hits(c.blob, c.chunks, spans, k),
            ),
{
    let hits = span_hits(c.blob, c.chunks, spans, k);
    let f = |i: int| span_hit(c.blob, c.chunks, spans, i);
    let all = collected(c.chunks.len(), f);
    assert(hits == records::best_hits(all, k));
    order::law_best(all, records::hit_key(), k);
    assert forall|i: int| 0 <= i < hits.len() implies c.is_some_span_hit(
        spans,
        #[trigger] hits[i],
    ) by {
        let hit = hits[i];
        assert(all.contains(hit));
        let j = choose|j: int| 0 <= j < all.len() && all[j] == hit;
        let n = lemma_collected_from(c.chunks.len(), f, j);
        assert(f(n) == span_hit(c.blob, c.chunks, spans, n));
        assert(c.is_span_hit(spans, n, hit));
    }
    assert forall|n: int| #[trigger] c.has_match(spans, n) implies is_hit_or_no_better(
        span_hit(c.blob, c.chunks, spans, n)->0,
        hits,
    ) by {
        assert(f(n) == span_hit(c.blob, c.chunks, spans, n));
        lemma_collected_contains(c.chunks.len(), f, n);
        lemma_hit_or_no_better(all, f(n)->0, k);
    }
}

/// The chunk that a hit is for, which the hit names.
proof fn lemma_hit_source(
    c: ContextView,
    query: Seq<char>,
    k: int,
    mode: SearchMode,
    hits: Seq<records::HitView>,
    i: int,
) -> (n: int)
    requires
        c.sound(),
        0 <= k,
        c.answers(query, k, mode, hits),
        0 <= i < hits.len(),
    ensures
        0 <= n < c.chunks.len(),
        hits[i].chunk_id == c.chunks[n].id,
        match mode {
            SearchMode::Bm25 => plain_hit(c.blob, c.chunks, n, hits[i].score) == Some(hits[i]),
            SearchMode::Substring => c.is_query_hit(query, n, hits[i]),
            SearchMode::Regex => pattern::pattern_regex(query) matches Some(re) && span_hit(
                c.blob,
                c.chunks,
                all_spans(c.blob, c.chunks, re),
                n,
            ) == Some(hits[i]),
        },
{
    match mode {
        SearchMode::Bm25 => {
            law_relevance_hits(c, query, k, hits);
            let relevant = ranking::bm25_relevant(c.index->0, query);
            assert(c.is_relevant_hit(relevant, hits[i]));
            let m = choose|m: usize|
                relevant.contains(m) && m < c.chunks.len() && #[trigger] plain_hit(
                    c.blob,
                    c.chunks,
                    m as int,
                    hits[i].score,
                ) == Some(hits[i]);
            m as int
        },
        SearchMode::Substring => {
            law_substring_hits_hold_query(c, query, k);
            assert(c.is_some_query_hit(query, hits[i]));
            choose|n: int| c.is_query_hit(query, n, hits[i])
        },
        SearchMode::Regex => {
            let spans = all_spans(c.blob, c.chunks, pattern::pattern_regex(query)->0);
            law_regex_hits_match(c, spans, k);
            assert(c.is_some_span_hit(spans, hits[i]));
            choose|n: int| c.is_span_hit(spans, n, hits[i])
        },
    }
}

/// No preview is the whole chunk: what a hit of a search of a loaded context shows, whatever
/// the mode, is not the text of the chunk that it names.
pub proof fn law_previews_are_not_chunks(
    c: ContextView,
    query: Seq<char>,
    k: int,
    mode: SearchMode,
    hits: Seq<records::HitView>,
    i: int,
    n: int,
)
    requires
        c.sound(),
        0 <= k,
        c.answers(query, k, mode, hits),
        0 <= i < hits.len(),
        0 <= n < c.chunks.len(),
        hits[i].chunk_id == c.chunks[n].id,
    ensures
        c.text_of(n) matches Some(text) && hits[i].preview != text,
{
    let m = lemma_hit_source(c, query, k, mode, hits, i);
    assert(c.chunk_sound(n) && c.chunk_sound(m));
    chunking::law_chunk_ids_distinct(c.name, n as nat, m as nat);
    let text = c.text_of(n)->0;
    match mode {
        SearchMode::Bm25 => {
            preview::law_opening(text, PREVIEW_CHARS as int);
        },
        SearchMode::Substring => {
            let hay = encode_utf8(lowered_texts(c.blob, c.chunks)[n]);
            let pin = encode_utf8(unicode::lowercase(query));
            matching::lemma_first_occurrence(hay, pin, 0);
            let pos = matching::first_occurrence(hay, pin, 0)->0;
            preview::law_match_preview(text, pos, pin.len() as int, PREVIEW_CHARS as int);
        },
        SearchMode::Regex => {
            let re = pattern::pattern_regex(query)->0;
            let span = pattern::regex_spans(re, text)[0];
            assert(pattern::spans_within(
                pattern::regex_spans(re, text),
                encode_utf8(text).len(),
            ));
            preview::law_match_preview(
                text,
                span.0 as int,
                span.1 - span.0,
                PREVIEW_CHARS as int,
            );
        },
    }
}

/// A hit of a search for a regular expression in a loaded context shows the first match in
/// the chunk that it names.
pub proof fn law_regex_previews_show_match(
    c: ContextView,
    query: Seq<char>,
    k: int,
    hits: Seq<records::HitView>,
    i: int,
    n: int,
)
    requires
        c.sound(),
        0 <= k,
        c.answers(query, k, SearchMode::Regex, hits),
        0 <= i < hits.len(),
        0 <= n < c.chunks.len(),
        hits[i].chunk_id == c.chunks[n].id,
    ensures
        ({
            let text = c.text_of(n)->0;
            let spans = pattern::regex_spans(pattern::pattern_regex(query)->0, text);
            &&& c.text_of(n) is Some
            &&& pattern::pattern_regex(query) is Some
            &&& spans.len() > 0
            &&& spans[0].0 <= spans[0].1 <= encode_utf8(text).len()
            &&& preview::stands_in(
                encode_utf8(text).subrange(spans[0].0 as int, spans[0].1 as int),
                encode_utf8(hits[i].preview),
            )
        }),
{
    let m = lemma_hit_source(c, query, k, SearchMode::Regex, hits, i);
    assert(c.chunk_sound(n) && c.chunk_sound(m));
    chunking::law_chunk_ids_distinct(c.name, n as nat, m as nat);
    let text = c.text_of(n)->0;
    let re = pattern::pattern_regex(query)->0;
    let span = pattern::regex_spans(re, text)[0];
    assert(pattern::spans_within(pattern::regex_spans(re, text), encode_utf8(text).len()));
    preview::law_match_preview(text, span.0 as int, span.1 - span.0, PREVIEW_CHARS as int);
}

/// No chunk of a loaded context occurs twice among the hits of a search, whatever the mode.
pub proof fn law_hits_are_distinct(
    c: ContextView,
    query: Seq<char>,
    k: int,
    mode: SearchMode,
    hits: Seq<records::HitView>,
)
    requires
        c.sound(),
        0 <= k,
        c.answers(query, k, mode, hits),
    ensures
        order::distinct(hits, hit_id()),
{
    match mode {
        SearchMode::Bm25 => {
            if c.index is Some {
                law_relevance_hits(c, query, k, hits);
            }
        },
        SearchMode::Substring => {
            let low = lowered_texts(c.blob, c.chunks);
            let needle = unicode::lowercase(query);
            let f = |i: int| substring_hit(c.blob, c.chunks, low, needle, i);
            lemma_collected_distinct(c, c.chunks.len(), f);
            order::law_best_distinct(
                collected(c.chunks.len(), f),
                records::hit_key(),
                hit_id(),
                k,
            );
        },
        SearchMode::Regex => {
            if pattern::pattern_regex(query) is Some {
                let spans = all_spans(c.blob, c.chunks, pattern::pattern_regex(query)->0);
                let f = |i: int| span_hit(c.blob, c.chunks, spans, i);
                lemma_collected_distinct(c, c.chunks.len(), f);
                order::law_best_distinct(
                    collected(c.chunks.len(), f),
                    records::hit_key(),
                    hit_id(),
                    k,
                );
            }
        },
    }
}

/// The chunk that a hit names, as a tag to tell hits apart by.
pub open spec fn hit_id() -> spec_fn(records::HitView) -> Seq<char> {
    |hit: records::HitView| hit.chunk_id
}

/// The text of a loaded context can be read whole: the range of all its bytes gives it back.
pub proof fn law_whole_text_by_range(c: ContextView, max_chars: int)
    requires
        c.sound(),
        c.blob.len() > 0,
        c.total_chars <= max_chars,
    ensures
        c.data_by_range(0, c.blob.len(), max_chars) matches Some(data) && data.text == decode_utf8(
            c.blob,
        ) && !data.truncated,
{
    assert(c.blob.subrange(0, c.blob.len() as int) =~= c.blob);
    let text = decode_utf8(c.blob);
    assert(text.take(text.len() as int) =~= text);
}

/// Every hit of a search of a loaded context, whatever the mode, names a chunk that can be
/// fetched by that name.
pub proof fn law_hits_can_be_fetched(
    c: ContextView,
    query: Seq<char>,
    k: int,
    mode: SearchMode,
    hits: Seq<records::HitView>,
    i: int,
    max_chars: int,
)
    requires
        c.sound(),
        0 <= k,
        c.answers(query, k, mode, hits),
        0 <= i < hits.len(),
    ensures
        exists|n: int|
            0 <= n < c.chunks.len() && hits[i].chunk_id == (#[trigger] c.chunks[n]).id
                && c.data_by_id(hits[i].chunk_id, max_chars) == Some(
                chunk_data(c.chunks[n], c.text_of(n)->0, max_chars),
            ),
{
    let n = lemma_hit_source(c, query, k, mode, hits, i);
    law_chunk_id_round_trip(c, n, max_chars);
    assert(hits[i].chunk_id == c.chunks[n].id);
}

/// A relevance search of a loaded context that has chunks gives one hit for each relevant
/// chunk, up to `k`: no chunk twice, the best first, each with the beginning of its text.
pub proof fn law_relevance_hits(
    c: ContextView,
    query: Seq<char>,
    k: int,
    hits: Seq<records::HitView>,
)
    requires
        c.sound(),
        c.index is Some,
        0 <= k,
        c.hits_by_relevance(query, k, hits),
    ensures
        ({
            let relevant = ranking::bm25_relevant(c.index->0, query);
            &&& hits.len() == text::min_int(k, relevant.len() as int)
            &&& order::descending(hits, records::hit_key())
            &&& forall|i: int|
                0 <= i < hits.len() ==> (#[trigger] hits[i]).preview.len() <= PREVIEW_CHARS
            &&& forall|i: int, j: int|
                0 <= i < j < hits.len() ==> (#[trigger] hits[i]).chunk_id != (
                #[trigger] hits[j]).chunk_id
            &&& forall|i: int|
                0 <= i < hits.len() ==> c.is_relevant_hit(relevant, #[trigger] hits[i])
        }),
{
    let index = c.index->0;
    let relevant = ranking::bm25_relevant(index, query);
    let found = choose|found: Seq<(usize, u32)>|
        c.index_answers(index, query, k, found) && hits == #[trigger] relevance_hits(
            c.blob,
            c.chunks,
            found,
            k,
        );
    // The answer is in order already, so ranking leaves it as it is.
    assert(order::descending(found, ranking::found_key()));
    order::law_ranked_idempotent(found, ranking::found_key());
    let kept = ranking::best_found(found, k);
    let m = text::min_int(k, found.len() as int);
    assert(kept == found.take(m));
    let f = |i: int|
        plain_hit(c.blob, c.chunks, kept[i].0 as int, Score::Relevance(kept[i].1));
    assert forall|i: int| 0 <= i < kept.len() implies (#[trigger] f(i)) is Some by {
        assert(kept[i] == found[i]);
        assert(relevant.contains(found[i].0));
        assert(ranking::bm25_documents(index).dom().contains(found[i].0));
        assert(chunk_documents(c.blob, c.chunks).dom().contains(found[i].0));
    }
    lemma_collected_all(kept.len(), f);
    assert(hits == collected(kept.len(), f));
    assert forall|i: int| 0 <= i < hits.len() implies ({
        let n = (#[trigger] hits[i], kept[i].0).1;
        &&& relevant.contains(n)
        &&& n < c.chunks.len()
        &&& hits[i].chunk_id == c.chunks[n as int].id
        &&& hits[i].preview.len() <= PREVIEW_CHARS
        &&& hits[i].score == Score::Relevance(kept[i].1)
        &&& plain_hit(c.blob, c.chunks, n as int, hits[i].score) == Some(hits[i])
    }) by {
        assert(Some(hits[i]) == f(i));
        preview::law_opening(c.text_of(kept[i].0 as int)->0, PREVIEW_CHARS as int);
        assert(kept[i] == found[i]);
        assert(relevant.contains(found[i].0));
        assert(ranking::bm25_documents(index).dom().contains(found[i].0));
        assert(chunk_documents(c.blob, c.chunks).dom().contains(found[i].0));
    }
    assert forall|i: int, j: int| 0 <= i < j < hits.len() implies (#[trigger] hits[i]).chunk_id
        != (#[trigger] hits[j]).chunk_id by {
        let a = kept[i].0 as int;
        let b = kept[j].0 as int;
        assert(kept[i] == found[i] && kept[j] == found[j]);
        assert(c.chunk_sound(a) && c.chunk_sound(b));
        if hits[i].chunk_id == hits[j].chunk_id {
            chunking::law_chunk_ids_distinct(c.name, a as nat, b as nat);
        }
    }
    assert forall|i: int, j: int| 0 <= i < j < hits.len() implies (records::hit_key())(
        #[trigger] hits[i],
    ) >= (records::hit_key())(#[trigger] hits[j]) by {
        assert(kept[i] == found[i] && kept[j] == found[j]);
    }
    assert forall|i: int| 0 <= i < hits.len() implies c.is_relevant_hit(
        relevant,
        #[trigger] hits[i],
    ) by {
        let n = kept[i].0;
        assert(plain_hit(c.blob, c.chunks, n as int, hits[i].score) == Some(hits[i]));
    }
}

// ---------------------------------------------------------------------------
// Lemmas
// ---------------------------------------------------------------------------

/// What [`first_with_id`] is: the first of the chunks from `from` on with the identifier,
/// and nothing only if there is none.
pub proof fn lemma_first_with_id(chunks: Seq<chunking::ChunkView>, id: Seq<char>, from: int)
    requires
        0 <= from,
    ensures
        match first_with_id(chunks, id, from) {
            Some(i) => from <= i < chunks.len() && chunks[i].id == id && forall|j: int|
                from <= j < i ==> (#[trigger] chunks[j]).id != id,
            None => forall|j: int| from <= j < chunks.len() ==> (#[trigger] chunks[j]).id != id,
        },
    decreases chunks.len() - from,
{
    if from < chunks.len() && chunks[from].id != id {
        lemma_first_with_id(chunks, id, from + 1);
    }
}

/// The first chunks count for no more tokens than all.
proof fn lemma_token_sum_prefix(chunks: Seq<chunking::ChunkView>, i: int)
    requires
        0 <= i <= chunks.len(),
        forall|j: int| 0 <= j < chunks.len() ==> 0 <= (#[trigger] chunks[j]).token_count,
    ensures
        token_sum(chunks.take(i)) <= token_sum(chunks),
    decreases chunks.len(),
{
    if i == chunks.len() {
        assert(chunks.take(i) =~= chunks);
    } else {
        let shorter = chunks.drop_last();
        assert forall|j: int| 0 <= j < shorter.len() implies 0 <= (
        #[trigger] shorter[j]).token_count by {
            assert(shorter[j] == chunks[j]);
        }
        lemma_token_sum_prefix(shorter, i);
        assert(shorter.take(i) =~= chunks.take(i));
        assert(0 <= chunks[chunks.len() - 1].token_count);
    }
}

/// What is collected from chunks of a loaded context names no chunk twice, if each hit names
/// the chunk that it is for.
proof fn lemma_collected_distinct(
    c: ContextView,
    n: nat,
    f: spec_fn(int) -> Option<records::HitView>,
)
    requires
        c.sound(),
        n <= c.chunks.len(),
        forall|i: int|
            0 <= i < c.chunks.len() ==> match #[trigger] f(i) {
                Some(hit) => hit.chunk_id == c.chunks[i].id,
                None => true,
            },
    ensures
        order::distinct(collected(n, f), hit_id()),
    decreases n,
{
    if n > 0 {
        let before = collected((n - 1) as nat, f);
        let all = collected(n, f);
        lemma_collected_distinct(c, (n - 1) as nat, f);
        match f(n - 1) {
            Some(hit) => {
                assert forall|i: int, j: int| 0 <= i < j < all.len() implies (hit_id())(
                    #[trigger] all[i],
                ) != (hit_id())(#[trigger] all[j]) by {
                    assert(all[i] == before[i]);
                    if j < before.len() {
                        assert(all[j] == before[j]);
                    } else {
                        let m = lemma_collected_from((n - 1) as nat, f, i);
                        assert(f(m) is Some);
                        assert(c.chunk_sound(m) && c.chunk_sound(n - 1));
                        if all[i].chunk_id == all[j].chunk_id {
                            chunking::law_chunk_ids_distinct(c.name, m as nat, (n - 1) as nat);
                        }
                    }
                }
            },
            None => {},
        }
    }
}

/// What is collected came from somewhere.
pub proof fn lemma_collected_from(
    n: nat,
    f: spec_fn(int) -> Option<records::HitView>,
    j: int,
) -> (i: int)
    requires
        0 <= j < collected(n, f).len(),
    ensures
        0 <= i < n,
        f(i) == Some(collected(n, f)[j]),
    decreases n,
{
    let before = collected((n - 1) as nat, f);
    if j < before.len() {
        assert(collected(n, f)[j] == before[j]);
        lemma_collected_from((n - 1) as nat, f, j)
    } else {
        n - 1
    }
}

/// What is there is collected.
pub proof fn lemma_collected_contains(n: nat, f: spec_fn(int) -> Option<records::HitView>, i: int)
    requires
        0 <= i < n,
        f(i) is Some,
    ensures
        collected(n, f).contains(f(i)->0),
    decreases n,
{
    let all = collected(n, f);
    if i == n - 1 {
        assert(all.last() == f(i)->0);
    } else {
        let before = collected((n - 1) as nat, f);
        lemma_collected_contains((n - 1) as nat, f, i);
        let j = choose|j: int| 0 <= j < before.len() && before[j] == f(i)->0;
        assert(all[j] == f(i)->0);
    }
}

/// Where everything is there, everything is collected.
pub proof fn lemma_collected_all(n: nat, f: spec_fn(int) -> Option<records::HitView>)
    requires
        forall|i: int| 0 <= i < n ==> (#[trigger] f(i)) is Some,
    ensures
        collected(n, f).len() == n,
        forall|i: int| 0 <= i < n ==> Some(#[trigger] collected(n, f)[i]) == f(i),
    decreases n,
{
    if n > 0 {
        lemma_collected_all((n - 1) as nat, f);
        assert(f(n - 1) is Some);
        let before = collected((n - 1) as nat, f);
        assert forall|i: int| 0 <= i < n implies Some(#[trigger] collected(n, f)[i]) == f(i) by {
            if i < n - 1 {
                assert(collected(n, f)[i] == before[i]);
            }
        }
    }
}

// ---------------------------------------------------------------------------
// Code
// ---------------------------------------------------------------------------

/// Cuts a text to at most `max_chars` characters.
fn capped_data(
    chunk_id: String,
    text: &str,
    max_chars: usize,
    section_path: Option<String>,
    source_file: Option<String>,
) -> (r: ChunkData)
    ensures
        r@ == capped(
            chunk_id@,
            text@,
            max_chars as int,
            text::opt_view(section_path),
            text::opt_view(source_file),
        ),
{
    let total_chars: usize = text.unicode_len();
    ChunkData {
        chunk_id,
        text: take_chars(text, max_chars),
        truncated: total_chars > max_chars,
        total_chars,
        section_path,
        source_file,
    }
}

/// Builds the relevance index over the chunks that have a text, if there are any.
fn build_bm25(blob: &Vec<u8>, chunks: &Vec<Chunk>) -> (r: Option<Bm25Index>)
    ensures
        ({
            let docs = chunk_documents(blob@, chunking::chunk_views(chunks@));
            match r {
                Some(index) => ranking::bm25_documents(index) == docs && docs
                    != Map::<usize, Seq<char>>::empty(),
                None => docs == Map::<usize, Seq<char>>::empty(),
            }
        }),
{
    let mut docs: Vec<(usize, String)> = Vec::new();
    let mut i: usize = 0;
    let ghost views = chunking::chunk_views(chunks@);
    proof {
        assert(ranking::document_map(docs@) =~= chunk_documents(blob@, views.take(0)));
    }
    while i < chunks.len()
        invariant
            i <= chunks@.len(),
            views == chunking::chunk_views(chunks@),
            ranking::document_map(docs@) == chunk_documents(blob@, views.take(i as int)),
            docs@.len() == 0 <==> ranking::document_map(docs@) == Map::<
                usize,
                Seq<char>,
            >::empty(),
        decreases chunks@.len() - i,
    {
        let ghost before = chunk_documents(blob@, views.take(i as int));
        let ghost after = chunk_documents(blob@, views.take(i + 1));
        let (start, end) = (chunks[i].byte_range.0, chunks[i].byte_range.1);
        let ghost mut entry: Option<Seq<char>> = None;
        assert(views[i as int] == chunks@[i as int]@);
        assert(text_in(blob@, views[i as int]) == range_text(blob@, start as int, end as int));
        if start <= end && end <= blob.len() {
            if let Some(text) = utf8_text(&blob[start..end]) {
                let ghost old_docs = docs@;
                docs.push((i, text.to_owned()));
                proof {
                    entry = Some(text@);
                    assert(docs@.drop_last() =~= old_docs);
                    assert(ranking::document_map(docs@) == before.insert(i, text@));
                    assert(ranking::document_map(docs@).dom().contains(i));
                }
            }
        }
        proof {
            assert forall|j: usize| #[trigger] after.dom().contains(j) <==> (before.dom().contains(
                j,
            ) || (j == i && entry is Some)) by {
                if j < i {
                    assert(views.take(i + 1)[j as int] == views.take(i as int)[j as int]);
                }
            }
            match entry {
                Some(t) => {
                    assert(after =~= before.insert(i, t));
                },
                None => {
                    assert(after =~= before);
                },
            }
        }
        i += 1;
    }
    proof {
        assert(views.take(i as int) =~= views);
    }
    if docs.len() == 0 {
        None
    } else {
        Some(build_index(docs))
    }
}

/// Puts a context together from its text and its chunks.
pub fn build_context(name: String, source: String, blob: String, chunks: Vec<Chunk>) -> (r:
    RlmContext)
    requires
        token_sum(chunking::chunk_views(chunks@)) <= usize::MAX,
    ensures
        r@.name == name@,
        r@.source == source@,
        r@.blob == encode_utf8(blob@),
        r@.chunks == chunking::chunk_views(chunks@),
        r@.total_chars == blob@.len(),
        r@.total_tokens == token_sum(chunking::chunk_views(chunks@)),
        ({
            let docs = chunk_documents(r@.blob, r@.chunks);
            match r@.index {
                Some(index) => ranking::bm25_documents(index) == docs && docs
                    != Map::<usize, Seq<char>>::empty(),
                None => docs == Map::<usize, Seq<char>>::empty(),
            }
        }),
{
    let total_chars: usize = blob.as_str().unicode_len();
    let mut total_tokens: usize = 0;
    let mut i: usize = 0;
    let ghost views = chunking::chunk_views(chunks@);
    proof {
        assert(views.take(0) =~= Seq::<chunking::ChunkView>::empty());
    }
    while i < chunks.len()
        invariant
            i <= chunks@.len(),
            views == chunking::chunk_views(chunks@),
            token_sum(views) <= usize::MAX,
            total_tokens == token_sum(views.take(i as int)),
        decreases chunks@.len() - i,
    {
        proof {
            assert(views[i as int] == chunks@[i as int]@);
            assert(views.take(i + 1).drop_last() =~= views.take(i as int));
            lemma_token_sum_prefix(views, i + 1);
        }
        total_tokens += chunks[i].token_count;
        i += 1;
    }
    proof {
        assert(views.take(i as int) =~= views);
    }
    let bytes: Vec<u8> = blob.as_str().as_bytes_vec();
    let bm25: Option<Bm25Index> = build_bm25(&bytes, &chunks);
    let contents: Contents = Contents { blob: bytes, bm25 };
    RlmContext { name, source, contents, chunks, total_chars, total_tokens }
}

impl RlmContext {
    /// Describes the context.
    pub fn summary(&self) -> (r: ContextSummary)
        ensures
            r@ == self@.summary(),
    {
        ContextSummary {
            name: self.name.clone(),
            source: self.source.clone(),
            total_chars: self.total_chars,
            total_tokens: self.total_tokens,
            n_chunks: self.chunks.len(),
        }
    }

    /// The text of the bytes from `start` to `end`.
    fn text_between(&self, start: usize, end: usize) -> (r: Option<&str>)
        ensures
            match r {
                Some(t) => range_text(self@.blob, start as int, end as int) == Some(t@),
                None => range_text(self@.blob, start as int, end as int) is None,
            },
    {
        let blob: &Vec<u8> = &self.contents.blob;
        if start > end || end > blob.len() {
            return None;
        }
        utf8_text(&blob[start..end])
    }

    /// The text of chunk `idx`.
    fn chunk_text(&self, idx: usize) -> (r: Option<&str>)
        ensures
            match r {
                Some(t) => self@.text_of(idx as int) == Some(t@),
                None => self@.text_of(idx as int) is None,
            },
    {
        if idx >= self.chunks.len() {
            return None;
        }
        let chunk: &Chunk = &self.chunks[idx];
        assert(self@.chunks[idx as int] == chunk@);
        self.text_between(chunk.byte_range.0, chunk.byte_range.1)
    }

    /// The number and text of the first chunk with this identifier.
    fn chunk_text_by_id(&self, id: &str) -> (r: Option<(usize, &str)>)
        ensures
            match (first_with_id(self@.chunks, id@, 0), r) {
                (Some(i), Some((idx, t))) => i == idx && idx < self@.chunks.len()
                    && self@.text_of(i) == Some(t@),
                (Some(i), None) => self@.text_of(i) is None,
                (None, r) => r is None,
            },
    {
        let mut i: usize = 0;
        while i < self.chunks.len()
            invariant
                i <= self.chunks@.len(),
                first_with_id(self@.chunks, id@, 0) == first_with_id(self@.chunks, id@, i as int),
            decreases self.chunks@.len() - i,
        {
            assert(self@.chunks[i as int] == self.chunks@[i as int]@);
            if str_eq(self.chunks[i].id.as_str(), id) {
                return match self.chunk_text(i) {
                    Some(t) => Some((i, t)),
                    None => None,
                };
            }
            i += 1;
        }
        None
    }

    /// Reads the chunk with this identifier, cut to at most `max_chars` characters.
    pub fn get_chunk_by_id(&self, id: &str, max_chars: usize) -> (r: Option<ChunkData>)
        ensures
            records::opt_data_view(r) == self@.data_by_id(id@, max_chars as int),
    {
        proof {
            lemma_first_with_id(self@.chunks, id@, 0);
        }
        match self.chunk_text_by_id(id) {
            Some((idx, text)) => {
                let chunk: &Chunk = &self.chunks[idx];
                assert(self@.chunks[idx as int] == chunk@);
                Some(
                    capped_data(
                        chunk.id.clone(),
                        text,
                        max_chars,
                        chunk.section_path.clone(),
                        chunk.source_file.clone(),
                    ),
                )
            },
            None => None,
        }
    }

    /// Reads a byte range, cut to at most `max_chars` characters. There is nothing to read
    /// if the range is empty, goes past the end or cuts a character.
    pub fn get_chunk_by_range(&self, start: usize, end: usize, max_chars: usize) -> (r: Option<
        ChunkData,
    >)
        ensures
            records::opt_data_view(r) == self@.data_by_range(
                start as nat,
                end as nat,
                max_chars as int,
            ),
    {
        if start >= end {
            return None;
        }
        match self.text_between(start, end) {
            Some(text) => {
                let mut id: String = self.name.clone();
                id.append(":bytes:");
                let from: String = decimal_string(start as u64);
                id.append(from.as_str());
                id.append("-");
                let to: String = decimal_string(end as u64);
                id.append(to.as_str());
                Some(capped_data(id, text, max_chars, None, None))
            },
            None => None,
        }
    }

    /// Reads the chunks under headings that contain `section`, case aside, with at most
    /// `max_chars` characters in all.
    pub fn get_chunks_by_section(&self, section: &str, max_chars: usize) -> (r: Vec<ChunkData>)
        ensures
            records::data_views(r@) == self@.data_by_section(section@, max_chars as int),
            self@.headings_known(section@),
    {
        let needle: String = to_lowercase(section);
        let mut marks: Vec<bool> = Vec::new();
        let mut i: usize = 0;
        while i < self.chunks.len()
            invariant
                i <= self.chunks@.len(),
                needle@ == unicode::lowercase(section@),
                marks@ == section_marks(self@.chunks, section@).take(i as int),
                unicode::case_known(section@),
                forall|j: int|
                    0 <= j < i ==> unicode::opt_case_known(
                        (#[trigger] self@.chunks[j]).section_path,
                    ),
            decreases self.chunks@.len() - i,
        {
            assert(self@.chunks[i as int] == self.chunks@[i as int]@);
            let mark: bool = match &self.chunks[i].section_path {
                Some(path) => {
                    let lower: String = to_lowercase(path.as_str());
                    str_contains(lower.as_str(), needle.as_str())
                },
                None => false,
            };
            marks.push(mark);
            proof {
                assert(marks@ =~= section_marks(self@.chunks, section@).take(i + 1));
            }
            i += 1;
        }
        assert(marks@ =~= section_marks(self@.chunks, section@));
        self.read_marked(&marks, max_chars)
    }

    /// Reads the chunks that are marked, with at most `max_chars` characters in all.
    pub fn read_marked(&self, marks: &Vec<bool>, max_chars: usize) -> (r: Vec<ChunkData>)
        requires
            marks@.len() == self@.chunks.len(),
        ensures
            records::data_views(r@) == marked_data(
                self@.blob,
                self@.chunks,
                marks@,
                0,
                max_chars as int,
            ),
    {
        let mut out: Vec<ChunkData> = Vec::new();
        let mut budget: usize = max_chars;
        let mut i: usize = 0;
        let ghost all = marked_data(self@.blob, self@.chunks, marks@, 0, max_chars as int);
        proof {
            assert(records::data_views(out@) + all =~= all);
        }
        while i < self.chunks.len()
            invariant
                i <= self.chunks@.len(),
                marks@.len() == self.chunks@.len(),
                self@.chunks.len() == self.chunks@.len(),
                all == marked_data(self@.blob, self@.chunks, marks@, 0, max_chars as int),
                all == records::data_views(out@) + marked_data(
                    self@.blob,
                    self@.chunks,
                    marks@,
                    i as int,
                    budget as int,
                ),
            decreases self.chunks@.len() - i,
        {
            assert(self@.chunks[i as int] == self.chunks@[i as int]@);
            if marks[i] {
                if let Some(text) = self.chunk_text(i) {
                    let chunk: &Chunk = &self.chunks[i];
                    let data: ChunkData = capped_data(
                        chunk.id.clone(),
                        text,
                        budget,
                        chunk.section_path.clone(),
                        chunk.source_file.clone(),
                    );
                    let total: usize = data.total_chars;
                    let take: usize = if budget < total {
                        budget
                    } else {
                        total
                    };
                    let ghost prev = records::data_views(out@);
                    let ghost d = data@;
                    let ghost rest = marked_data(
                        self@.blob,
                        self@.chunks,
                        marks@,
                        i + 1,
                        budget - take,
                    );
                    out.push(data);
                    proof {
                        assert(records::data_views(out@) =~= prev.push(d));
                        assert(prev + seq![d] =~= prev.push(d));
                        assert(prev + (seq![d] + rest) =~= prev.push(d) + rest);
                    }
                    budget -= take;
                    if budget == 0 {
                        return out;
                    }
                }
            }
            i += 1;
        }
        proof {
            assert(all =~= records::data_views(out@));
        }
        out
    }

    /// The hit for chunk `idx` that shows how the chunk begins.
    fn make_hit(&self, idx: usize, score: Score) -> (r: Option<SearchHit>)
        ensures
            match r {
                Some(hit) => plain_hit(self@.blob, self@.chunks, idx as int, score) == Some(hit@),
                None => plain_hit(self@.blob, self@.chunks, idx as int, score) is None,
            },
    {
        match self.chunk_text(idx) {
            Some(text) => {
                let shown: String = write_opening(text, PREVIEW_CHARS);
                Some(self.hit(idx, score, shown))
            },
            None => None,
        }
    }

    /// The hit for chunk `idx` with this preview.
    fn hit(&self, idx: usize, score: Score, preview: String) -> (r: SearchHit)
        requires
            idx < self@.chunks.len(),
        ensures
            r@ == hit_for(self@.chunks[idx as int], score, preview@),
    {
        let chunk: &Chunk = &self.chunks[idx];
        assert(self@.chunks[idx as int] == chunk@);
        SearchHit {
            chunk_id: chunk.id.clone(),
            section_path: chunk.section_path.clone(),
            source_file: chunk.source_file.clone(),
            score,
            preview,
        }
    }

    /// Searches the context and returns at most `k` hits, the best first.
    pub fn search(&self, query: &str, k: usize, mode: SearchMode) -> (r: Vec<SearchHit>)
        ensures
            self@.answers(query@, k as int, mode, records::hit_views(r@)),
    {
        match mode {
            SearchMode::Bm25 => self.search_bm25(query, k),
            SearchMode::Substring => self.search_substring(query, k),
            SearchMode::Regex => self.search_regex(query, k),
        }
    }

    fn search_bm25(&self, query: &str, k: usize) -> (r: Vec<SearchHit>)
        ensures
            self@.hits_by_relevance(query@, k as int, records::hit_views(r@)),
    {
        match &self.contents.bm25 {
            Some(index) => {
                let limit: usize = if k >= 1 {
                    k
                } else {
                    1
                };
                let found: Vec<(usize, u32)> = search_index(index, query, limit);
                self.hits_of_answer(&found, k)
            },
            None => Vec::new(),
        }
    }

    /// The hits for an answer of the relevance index: its `k` best entries, the best first.
    pub fn hits_of_answer(&self, found: &Vec<(usize, u32)>, k: usize) -> (r: Vec<SearchHit>)
        ensures
            records::hit_views(r@) == relevance_hits(
                self@.blob,
                self@.chunks,
                found@,
                k as int,
            ),
    {
        let kept: Vec<(usize, u32)> = keep_best_found(found, k);
        let ghost f = |i: int|
            plain_hit(self@.blob, self@.chunks, kept@[i].0 as int, Score::Relevance(kept@[i].1));
        let mut hits: Vec<SearchHit> = Vec::new();
        let mut i: usize = 0;
        proof {
            assert(records::hit_views(hits@) =~= collected(0, f));
        }
        while i < kept.len()
            invariant
                i <= kept@.len(),
                f == (|i: int|
                    plain_hit(
                        self@.blob,
                        self@.chunks,
                        kept@[i].0 as int,
                        Score::Relevance(kept@[i].1),
                    )),
                records::hit_views(hits@) == collected(i as nat, f),
            decreases kept@.len() - i,
        {
            let ghost prev = records::hit_views(hits@);
            if let Some(hit) = self.make_hit(kept[i].0, Score::Relevance(kept[i].1)) {
                hits.push(hit);
                proof {
                    assert(records::hit_views(hits@) =~= prev.push(hit@));
                }
            }
            i += 1;
        }
        hits
    }

    fn search_substring(&self, query: &str, k: usize) -> (r: Vec<SearchHit>)
        ensures
            records::hit_views(r@) == self@.hits_by_substring(query@, k as int),
            self@.texts_known(query@),
    {
        let needle: String = to_lowercase(query);
        let mut lowered: Vec<String> = Vec::new();
        let mut i: usize = 0;
        let ghost all = lowered_texts(self@.blob, self@.chunks);
        while i < self.chunks.len()
            invariant
                i <= self.chunks@.len(),
                self@.chunks.len() == self.chunks@.len(),
                all == lowered_texts(self@.blob, self@.chunks),
                matching::string_views(lowered@) == all.take(i as int),
                unicode::case_known(query@),
                forall|j: int|
                    0 <= j < i ==> unicode::opt_case_known(#[trigger] self@.text_of(j)),
            decreases self.chunks@.len() - i,
        {
            let ghost prev = matching::string_views(lowered@);
            let low: String = match self.chunk_text(i) {
                Some(text) => to_lowercase(text),
                None => String::new(),
            };
            let ghost l = low@;
            lowered.push(low);
            proof {
                assert(self@.text_of(i as int) == text_in(self@.blob, self@.chunks[i as int]));
                assert(l =~= all[i as int]);
                assert(matching::string_views(lowered@) =~= prev.push(l));
                assert(prev.push(l) =~= all.take(i + 1));
            }
            i += 1;
        }
        assert(matching::string_views(lowered@) =~= all);
        self.hits_of_needle(&lowered, needle.as_str(), k)
    }

    /// The hits of a needle in the texts of the chunks, which `lowered` gives in lower case.
    pub fn hits_of_needle(&self, lowered: &Vec<String>, needle: &str, k: usize) -> (r: Vec<
        SearchHit,
    >)
        requires
            lowered@.len() == self@.chunks.len(),
        ensures
            records::hit_views(r@) == substring_hits(
                self@.blob,
                self@.chunks,
                matching::string_views(lowered@),
                needle@,
                k as int,
            ),
    {
        let pin = needle.as_bytes();
        proof {
            text::lemma_encode_len(needle@);
        }
        if pin.len() == 0 {
            return Vec::new();
        }
        let ghost low = matching::string_views(lowered@);
        let ghost f = |i: int| substring_hit(self@.blob, self@.chunks, low, needle@, i);
        let mut hits: Vec<SearchHit> = Vec::new();
        let mut i: usize = 0;
        let n: usize = self.chunks.len();
        proof {
            assert(records::hit_views(hits@) =~= collected(0, f));
            assert(self@.chunks.len() == n);
        }
        while i < n
            invariant
                i <= n,
                n == self@.chunks.len(),
                lowered@.len() == n,
                low == matching::string_views(lowered@),
                pin@ == encode_utf8(needle@),
                pin@.len() > 0,
                f == (|i: int| substring_hit(self@.blob, self@.chunks, low, needle@, i)),
                records::hit_views(hits@) == collected(i as nat, f),
            decreases n - i,
        {
            let ghost prev = records::hit_views(hits@);
            assert(low[i as int] == lowered@[i as int]@);
            if let Some(text) = self.chunk_text(i) {
                let hay = lowered[i].as_str().as_bytes();
                proof {
                    matching::lemma_first_occurrence(hay@, pin@, 0);
                    matching::lemma_occurrences_bound(hay@, pin@, 0);
                }
                let count: usize = count_occurrences(hay, pin);
                if let Some(pos) = find_from(hay, pin, 0) {
                    let shown: String = preview_match(text, pos, pin.len(), PREVIEW_CHARS);
                    let hit: SearchHit = self.hit(i, Score::Matches(count), shown);
                    hits.push(hit);
                    proof {
                        assert(records::hit_views(hits@) =~= prev.push(hit@));
                    }
                }
            }
            i += 1;
        }
        keep_best(hits, k)
    }

    fn search_regex(&self, pattern: &str, k: usize) -> (r: Vec<SearchHit>)
        ensures
            records::hit_views(r@) == self@.hits_by_regex(pattern@, k as int),
            self@.matches_known(pattern@),
    {
        match compile_pattern(pattern) {
            Ok(re) => {
                let mut spans: Vec<Vec<(usize, usize)>> = Vec::new();
                let mut i: usize = 0;
                let ghost all = all_spans(self@.blob, self@.chunks, re);
                while i < self.chunks.len()
                    invariant
                        i <= self.chunks@.len(),
                        self@.chunks.len() == self.chunks@.len(),
                        all == all_spans(self@.blob, self@.chunks, re),
                        span_views(spans@) == all.take(i as int),
                        forall|j: int|
                            0 <= j < i ==> match #[trigger] self@.text_of(j) {
                                Some(text) => pattern::spans_within(
                                    pattern::regex_spans(re, text),
                                    encode_utf8(text).len(),
                                ),
                                None => true,
                            },
                        forall|j: int|
                            0 <= j < spans@.len() ==> ordered_spans(#[trigger] spans@[j]@),
                    decreases self.chunks@.len() - i,
                {
                    let here: Vec<(usize, usize)> = match self.chunk_text(i) {
                        Some(text) => find_spans(&re, text),
                        None => Vec::new(),
                    };
                    let ghost h = here@;
                    let ghost prev = span_views(spans@);
                    spans.push(here);
                    proof {
                        assert(self@.text_of(i as int) == text_in(
                            self@.blob,
                            self@.chunks[i as int],
                        ));
                        assert(h =~= all[i as int]);
                        assert(span_views(spans@) =~= prev.push(h));
                        assert(prev.push(h) =~= all.take(i + 1));
                    }
                    i += 1;
                }
                assert(span_views(spans@) =~= all);
                self.hits_of_spans(&spans, k)
            },
            Err(_) => Vec::new(),
        }
    }

    /// The hits of a regular expression whose matches in each chunk `spans` gives.
    pub fn hits_of_spans(&self, spans: &Vec<Vec<(usize, usize)>>, k: usize) -> (r: Vec<SearchHit>)
        requires
            spans@.len() == self@.chunks.len(),
            forall|j: int| 0 <= j < spans@.len() ==> ordered_spans(#[trigger] spans@[j]@),
        ensures
            records::hit_views(r@) == span_hits(
                self@.blob,
                self@.chunks,
                span_views(spans@),
                k as int,
            ),
    {
        let ghost views = span_views(spans@);
        let ghost f = |i: int| span_hit(self@.blob, self@.chunks, views, i);
        let mut hits: Vec<SearchHit> = Vec::new();
        let mut i: usize = 0;
        let n: usize = self.chunks.len();
        proof {
            assert(records::hit_views(hits@) =~= collected(0, f));
            assert(self@.chunks.len() == n);
        }
        while i < n
            invariant
                i <= n,
                n == self@.chunks.len(),
                spans@.len() == n,
                views == span_views(spans@),
                forall|j: int| 0 <= j < spans@.len() ==> ordered_spans(#[trigger] spans@[j]@),
                f == (|i: int| span_hit(self@.blob, self@.chunks, views, i)),
                records::hit_views(hits@) == collected(i as nat, f),
            decreases n - i,
        {
            let ghost prev = records::hit_views(hits@);
            assert(views[i as int] == spans@[i as int]@);
            assert(ordered_spans(spans@[i as int]@));
            if let Some(text) = self.chunk_text(i) {
                if spans[i].len() > 0 {
                    let start: usize = spans[i][0].0;
                    let end: usize = spans[i][0].1;
                    let shown: String = preview_match(text, start, end - start, PREVIEW_CHARS);
                    let hit: SearchHit = self.hit(i, Score::Matches(spans[i].len()), shown);
                    hits.push(hit);
                    proof {
                        assert(records::hit_views(hits@) =~= prev.push(hit@));
                    }
                }
            }
            i += 1;
        }
        keep_best(hits, k)
    }
}

} // verus!
