//! What searching a context gives: laws of the three ways to search of [`context`].
use vstd::prelude::*;
use vstd::utf8::*;

use crate::context;
use crate::matching;
use crate::order;
use crate::pattern;
use crate::preview;
use crate::ranking;
use crate::records;
use crate::records::{Score, SearchMode};
use crate::text;
use crate::unicode;

verus! {

/// Whether a hit carries the identifier, the heading and the source file of chunk `n`.
pub open spec fn is_hit_of(c: context::ContextView, n: int, hit: records::HitView) -> bool {
    &&& 0 <= n < c.chunks.len()
    &&& hit.chunk_id == c.chunks[n].id
    &&& hit.section_path == c.chunks[n].section_path
    &&& hit.source_file == c.chunks[n].source_file
}

/// Whether a hit of chunk `n` that counts `count` matches is among hits, or else there are
/// `k` hits and each of them counts as many.
pub open spec fn found_or_beaten(
    c: context::ContextView,
    n: int,
    count: usize,
    k: int,
    hits: Seq<records::HitView>,
) -> bool {
    ||| exists|i: int|
        0 <= i < hits.len() && is_hit_of(c, n, #[trigger] hits[i]) && hits[i].score
            == Score::Matches(count)
    ||| hits.len() == k && forall|i: int|
        0 <= i < hits.len() ==> counts_as_many(#[trigger] hits[i], count)
}

/// Whether a hit counts at least so many matches.
pub open spec fn counts_as_many(hit: records::HitView, count: usize) -> bool {
    hit.score matches Score::Matches(m) && m >= count
}

// ---------------------------------------------------------------------------
// Substrings
// ---------------------------------------------------------------------------

/// The number of times that a query stands in a text, both in lower case, each time sought
/// behind the one before.
pub open spec fn times_in(t: Seq<char>, query: Seq<char>) -> usize {
    matching::occurrences(
        encode_utf8(unicode::lowercase(t)),
        encode_utf8(unicode::lowercase(query)),
        0,
    ) as usize
}

/// A hit of a substring search is for a chunk in whose text the query stands at some place,
/// both in lower case, and counts how often it does.
pub proof fn law_substring_hit(
    c: context::ContextView,
    query: Seq<char>,
    k: int,
    hits: Seq<records::HitView>,
    i: int,
) -> (n: int)
    requires
        c.answers(query, k, SearchMode::Substring, hits),
        0 <= k,
        0 <= i < hits.len(),
    ensures
        unicode::lowercase(query).len() > 0,
        is_hit_of(c, n, hits[i]),
        c.text_of(n) matches Some(t) && matching::stands_in(
            unicode::lowercase(t),
            unicode::lowercase(query),
        ) && hits[i].score == Score::Matches(times_in(t, query)),
{
    context::law_substring_hits_hold_query(c, query, k);
    assert(c.is_some_query_hit(query, hits[i]));
    let n = choose|n: int| c.is_query_hit(query, n, hits[i]);
    let t = c.text_of(n)->0;
    matching::law_contains(unicode::lowercase(t), unicode::lowercase(query));
    n
}

/// A hit of a substring search shows the text around the first place at which the query
/// stands in the text in lower case, if the text has as many bytes.
pub proof fn law_substring_hit_shows(
    c: context::ContextView,
    query: Seq<char>,
    k: int,
    hits: Seq<records::HitView>,
    i: int,
) -> (r: (int, int))
    requires
        c.answers(query, k, SearchMode::Substring, hits),
        0 <= k,
        0 <= i < hits.len(),
    ensures
        is_hit_of(c, r.0, hits[i]),
        c.text_of(r.0) is Some,
        ({
            let t = c.text_of(r.0)->0;
            let hay = encode_utf8(unicode::lowercase(t));
            let pin = encode_utf8(unicode::lowercase(query));
            &&& 0 <= r.1
            &&& r.1 + pin.len() <= hay.len()
            &&& hay.subrange(r.1, r.1 + pin.len()) == pin
            &&& forall|j: int|
                0 <= j < r.1 ==> #[trigger] hay.subrange(j, j + pin.len()) != pin
            &&& hits[i].preview != t
            &&& r.1 + pin.len() <= encode_utf8(t).len() ==> preview::shows_around(
                t,
                r.1,
                pin.len() as int,
                100,
                hits[i].preview,
            )
        }),
{
    context::law_substring_hits_hold_query(c, query, k);
    assert(c.is_some_query_hit(query, hits[i]));
    let n = choose|n: int| c.is_query_hit(query, n, hits[i]);
    let t = c.text_of(n)->0;
    let hay = encode_utf8(unicode::lowercase(t));
    let pin = encode_utf8(unicode::lowercase(query));
    matching::lemma_first_occurrence(hay, pin, 0);
    let pos = matching::first_occurrence(hay, pin, 0)->0;
    assert forall|j: int| 0 <= j < pos implies #[trigger] hay.subrange(j, j + pin.len())
        != pin by {
        assert(!matching::occurs_at(hay, pin, j));
    }
    preview::law_match_preview(t, pos, pin.len() as int, 200);
    if pos + pin.len() <= encode_utf8(t).len() {
        preview::law_match_preview_shows_around(t, pos, pin.len() as int, 100);
    }
    (n, pos)
}

/// A substring search finds every chunk in whose text the query stands, both in lower case,
/// unless `k` hits count as many matches.
pub proof fn law_substring_search(
    c: context::ContextView,
    query: Seq<char>,
    k: int,
    hits: Seq<records::HitView>,
    n: int,
)
    requires
        c.answers(query, k, SearchMode::Substring, hits),
        0 <= k,
        unicode::lowercase(query).len() > 0,
        c.text_of(n) matches Some(t) && matching::stands_in(
            unicode::lowercase(t),
            unicode::lowercase(query),
        ),
    ensures
        found_or_beaten(c, n, times_in(c.text_of(n)->0, query), k, hits),
{
    let t = c.text_of(n)->0;
    let low = context::lowered_texts(c.blob, c.chunks);
    let needle = unicode::lowercase(query);
    matching::law_contains(unicode::lowercase(t), needle);
    let f = |i: int| context::substring_hit(c.blob, c.chunks, low, needle, i);
    assert(f(n) is Some);
    assert forall|m: int|
        0 <= m < c.chunks.len() && (#[trigger] f(m)) is Some implies f(m)->0.score
        is Matches by {}
    lemma_best_of_collected(c, f, k, n);
    assert(hits == records::best_hits(context::collected(c.chunks.len(), f), k));
    assert(f(n)->0.score == Score::Matches(times_in(t, query)));
}

/// An empty query finds nothing, and neither does one that stands in no text.
pub proof fn law_substring_search_of_nothing(
    c: context::ContextView,
    query: Seq<char>,
    k: int,
    hits: Seq<records::HitView>,
)
    requires
        c.answers(query, k, SearchMode::Substring, hits),
        0 <= k,
        unicode::lowercase(query).len() == 0 || forall|n: int|
            match #[trigger] c.text_of(n) {
                Some(t) => !matching::stands_in(unicode::lowercase(t), unicode::lowercase(query)),
                None => true,
            },
    ensures
        hits.len() == 0,
{
    if hits.len() > 0 {
        let n = law_substring_hit(c, query, k, hits, 0);
        assert(c.text_of(n) is Some);
    }
}

/// What is among the best of what was collected from chunks, or is beaten by `k` of it.
proof fn lemma_best_of_collected(
    c: context::ContextView,
    f: spec_fn(int) -> Option<records::HitView>,
    k: int,
    n: int,
)
    requires
        0 <= k,
        0 <= n < c.chunks.len(),
        f(n) is Some,
        is_hit_of(c, n, f(n)->0),
        forall|m: int|
            0 <= m < c.chunks.len() && (#[trigger] f(m)) is Some ==> f(m)->0.score is Matches,
    ensures
        found_or_beaten(
            c,
            n,
            f(n)->0.score->Matches_0,
            k,
            records::best_hits(context::collected(c.chunks.len(), f), k),
        ),
{
    let all = context::collected(c.chunks.len(), f);
    let hit = f(n)->0;
    let hits = records::best_hits(all, k);
    context::lemma_collected_contains(c.chunks.len(), f, n);
    order::law_best(all, records::hit_key(), k);
    if hits.contains(hit) {
        let i = choose|i: int| 0 <= i < hits.len() && hits[i] == hit;
        assert(is_hit_of(c, n, hits[i]));
    } else {
        if hits.len() < k {
            order::law_ranked(all, records::hit_key(), 0);
            order::law_ranked_contains(all, records::hit_key(), hit);
            assert(hits =~= order::ranked(all, records::hit_key()));
        }
        assert forall|i: int| 0 <= i < hits.len() implies counts_as_many(
            #[trigger] hits[i],
            hit.score->Matches_0,
        ) by {
            assert(all.contains(hits[i]));
            let j = choose|j: int| 0 <= j < all.len() && all[j] == hits[i];
            let m = context::lemma_collected_from(c.chunks.len(), f, j);
            assert(f(m) is Some);
            assert((records::hit_key())(hits[i]) >= (records::hit_key())(hit));
        }
    }
}

// ---------------------------------------------------------------------------
// Regular expressions
// ---------------------------------------------------------------------------

/// A hit of a search for a regular expression is for a chunk in whose text the expression has
/// a match, counts the matches, and shows the text around the first of them.
pub proof fn law_regex_hit(
    c: context::ContextView,
    query: Seq<char>,
    k: int,
    hits: Seq<records::HitView>,
    i: int,
) -> (n: int)
    requires
        c.answers(query, k, SearchMode::Regex, hits),
        0 <= k,
        0 <= i < hits.len(),
    ensures
        pattern::pattern_regex(query) is Some,
        is_hit_of(c, n, hits[i]),
        c.text_of(n) is Some,
        ({
            let t = c.text_of(n)->0;
            let spans = pattern::regex_spans(pattern::pattern_regex(query)->0, t);
            &&& spans.len() > 0
            &&& hits[i].score == Score::Matches(spans.len() as usize)
            &&& hits[i].preview != t
            &&& preview::shows_around(
                t,
                spans[0].0 as int,
                spans[0].1 - spans[0].0,
                100,
                hits[i].preview,
            )
        }),
{
    let re = pattern::pattern_regex(query)->0;
    let all = context::all_spans(c.blob, c.chunks, re);
    context::law_regex_hits_match(c, all, k);
    assert(c.is_some_span_hit(all, hits[i]));
    let n = choose|n: int| c.is_span_hit(all, n, hits[i]);
    let t = c.text_of(n)->0;
    let spans = pattern::regex_spans(re, t);
    assert(all[n] == spans);
    assert(pattern::spans_within(spans, encode_utf8(t).len()));
    let start = spans[0].0 as int;
    let len = spans[0].1 - spans[0].0;
    preview::law_match_preview(t, start, len, 200);
    preview::law_match_preview_shows_around(t, start, len, 100);
    n
}

/// A search for a regular expression finds every chunk in whose text the expression has a
/// match, unless `k` hits count as many matches.
pub proof fn law_regex_search(
    c: context::ContextView,
    query: Seq<char>,
    k: int,
    hits: Seq<records::HitView>,
    n: int,
)
    requires
        c.answers(query, k, SearchMode::Regex, hits),
        0 <= k,
        pattern::pattern_regex(query) matches Some(re) && c.text_of(n) matches Some(t)
            && pattern::regex_spans(re, t).len() > 0,
    ensures
        found_or_beaten(
            c,
            n,
            pattern::regex_spans(pattern::pattern_regex(query)->0, c.text_of(n)->0).len() as usize,
            k,
            hits,
        ),
{
    let re = pattern::pattern_regex(query)->0;
    let t = c.text_of(n)->0;
    let all = context::all_spans(c.blob, c.chunks, re);
    let f = |i: int| context::span_hit(c.blob, c.chunks, all, i);
    assert(all[n] == pattern::regex_spans(re, t));
    assert(f(n) is Some);
    assert forall|m: int|
        0 <= m < c.chunks.len() && (#[trigger] f(m)) is Some implies f(m)->0.score
        is Matches by {}
    lemma_best_of_collected(c, f, k, n);
    assert(hits == records::best_hits(context::collected(c.chunks.len(), f), k));
}

/// A pattern that is no regular expression finds nothing, and neither does one that matches
/// in no text.
pub proof fn law_regex_search_of_nothing(
    c: context::ContextView,
    query: Seq<char>,
    k: int,
    hits: Seq<records::HitView>,
)
    requires
        c.answers(query, k, SearchMode::Regex, hits),
        0 <= k,
        match pattern::pattern_regex(query) {
            Some(re) => forall|n: int|
                match #[trigger] c.text_of(n) {
                    Some(t) => pattern::regex_spans(re, t).len() == 0,
                    None => true,
                },
            None => true,
        },
    ensures
        hits.len() == 0,
{
    if hits.len() > 0 {
        let n = law_regex_hit(c, query, k, hits, 0);
        assert(c.text_of(n) is Some);
    }
}

/// A search for a substring or a regular expression gives no more than `k` hits, and none
/// counts more matches than one before it.
pub proof fn law_matches_in_order(
    c: context::ContextView,
    query: Seq<char>,
    k: int,
    mode: SearchMode,
    hits: Seq<records::HitView>,
)
    requires
        mode == SearchMode::Substring || mode == SearchMode::Regex,
        c.answers(query, k, mode, hits),
        0 <= k,
    ensures
        hits.len() <= k,
        forall|i: int, j: int|
            0 <= i < j < hits.len() ==> counts_no_more(#[trigger] hits[j], #[trigger] hits[i]),
{
    context::law_hits_are_few_and_ordered(c, query, k);
    assert forall|i: int, j: int| 0 <= i < j < hits.len() implies counts_no_more(
        #[trigger] hits[j],
        #[trigger] hits[i],
    ) by {
        if mode == SearchMode::Substring {
            let m = law_substring_hit(c, query, k, hits, i);
            let n = law_substring_hit(c, query, k, hits, j);
        } else {
            let m = law_regex_hit(c, query, k, hits, i);
            let n = law_regex_hit(c, query, k, hits, j);
        }
        assert((records::hit_key())(hits[i]) >= (records::hit_key())(hits[j]));
    }
}

/// Whether both hits count matches, and the first no more than the second.
pub open spec fn counts_no_more(a: records::HitView, b: records::HitView) -> bool {
    a.score matches Score::Matches(m) && b.score matches Score::Matches(n) && m <= n
}

// ---------------------------------------------------------------------------
// Both together
// ---------------------------------------------------------------------------

/// Whether the query of a substring search stands in the text of chunk `n`.
pub open spec fn query_stands(c: context::ContextView, query: Seq<char>, n: int) -> bool {
    &&& unicode::lowercase(query).len() > 0
    &&& c.text_of(n) matches Some(t) && matching::stands_in(
        unicode::lowercase(t),
        unicode::lowercase(query),
    )
}

/// Whether the pattern of a search is a regular expression and has a match in the text of
/// chunk `n`.
pub open spec fn pattern_matches(c: context::ContextView, query: Seq<char>, n: int) -> bool {
    pattern::pattern_regex(query) matches Some(re) && c.text_of(n) matches Some(t)
        && pattern::regex_spans(re, t).len() > 0
}

/// How often the pattern of a search matches in the text of chunk `n`.
pub open spec fn match_count(c: context::ContextView, query: Seq<char>, n: int) -> usize {
    pattern::regex_spans(pattern::pattern_regex(query)->0, c.text_of(n)->0).len() as usize
}

/// Whether a hit is for a chunk in whose text the query stands, and counts how often.
pub open spec fn is_substring_hit(
    c: context::ContextView,
    query: Seq<char>,
    hit: records::HitView,
) -> bool {
    exists|n: int|
        #[trigger] query_stands(c, query, n) && is_hit_of(c, n, hit) && hit.score
            == Score::Matches(times_in(c.text_of(n)->0, query))
}

/// Whether a hit is for a chunk in whose text the pattern matches, and counts how often.
pub open spec fn is_regex_hit(
    c: context::ContextView,
    query: Seq<char>,
    hit: records::HitView,
) -> bool {
    exists|n: int|
        #[trigger] pattern_matches(c, query, n) && is_hit_of(c, n, hit) && hit.score
            == Score::Matches(match_count(c, query, n))
}

/// Whether hits are the top matches of a substring: at most `k`, each for a chunk in whose
/// text the query stands; and every such chunk is among them, unless `k` hits count as many
/// matches.
pub open spec fn top_substring_matches(
    c: context::ContextView,
    query: Seq<char>,
    k: int,
    hits: Seq<records::HitView>,
) -> bool {
    &&& hits.len() <= k
    &&& forall|i: int|
        0 <= i < hits.len() ==> is_substring_hit(c, query, #[trigger] hits[i])
    &&& forall|n: int| #[trigger]
        query_stands(c, query, n) ==> found_or_beaten(
            c,
            n,
            times_in(c.text_of(n)->0, query),
            k,
            hits,
        )
}

/// Whether hits are the top matches of a regular expression: at most `k`, each for a chunk in
/// whose text it matches; and every such chunk is among them, unless `k` hits count as many
/// matches.
pub open spec fn top_regex_matches(
    c: context::ContextView,
    query: Seq<char>,
    k: int,
    hits: Seq<records::HitView>,
) -> bool {
    &&& hits.len() <= k
    &&& forall|i: int| 0 <= i < hits.len() ==> is_regex_hit(c, query, #[trigger] hits[i])
    &&& forall|n: int| #[trigger]
        pattern_matches(c, query, n) ==> found_or_beaten(
            c,
            n,
            match_count(c, query, n),
            k,
            hits,
        )
}

/// A substring search gives the top matches of the query.
pub proof fn law_substring_top_matches(
    c: context::ContextView,
    query: Seq<char>,
    k: int,
    hits: Seq<records::HitView>,
)
    requires
        c.answers(query, k, SearchMode::Substring, hits),
        0 <= k,
    ensures
        top_substring_matches(c, query, k, hits),
{
    law_matches_in_order(c, query, k, SearchMode::Substring, hits);
    assert forall|i: int| 0 <= i < hits.len() implies is_substring_hit(
        c,
        query,
        #[trigger] hits[i],
    ) by {
        let n = law_substring_hit(c, query, k, hits, i);
        assert(query_stands(c, query, n));
    }
    assert forall|n: int| #[trigger] query_stands(c, query, n) implies found_or_beaten(
        c,
        n,
        times_in(c.text_of(n)->0, query),
        k,
        hits,
    ) by {
        law_substring_search(c, query, k, hits, n);
    }
}

/// A search for a regular expression gives its top matches.
pub proof fn law_regex_top_matches(
    c: context::ContextView,
    query: Seq<char>,
    k: int,
    hits: Seq<records::HitView>,
)
    requires
        c.answers(query, k, SearchMode::Regex, hits),
        0 <= k,
    ensures
        top_regex_matches(c, query, k, hits),
{
    law_matches_in_order(c, query, k, SearchMode::Regex, hits);
    assert forall|i: int| 0 <= i < hits.len() implies is_regex_hit(
        c,
        query,
        #[trigger] hits[i],
    ) by {
        let n = law_regex_hit(c, query, k, hits, i);
        assert(pattern_matches(c, query, n));
    }
    assert forall|n: int| #[trigger] pattern_matches(c, query, n) implies found_or_beaten(
        c,
        n,
        match_count(c, query, n),
        k,
        hits,
    ) by {
        law_regex_search(c, query, k, hits, n);
    }
}

// ---------------------------------------------------------------------------
// Relevance
// ---------------------------------------------------------------------------

/// The index of a loaded context holds the text of each chunk under the chunk's number, and
/// nothing else.
pub proof fn law_index_holds_texts(c: context::ContextView, n: usize)
    requires
        c.sound(),
    ensures
        c.index is None ==> c.chunks.len() == 0,
        c.index matches Some(index) ==> {
            let docs = ranking::bm25_documents(index);
            &&& docs.dom().contains(n) <==> n < c.chunks.len()
            &&& n < c.chunks.len() ==> c.text_of(n as int) == Some(docs[n])
        },
{
    if n < c.chunks.len() {
        assert(c.chunk_sound(n as int));
    }
    if let Some(index) = c.index {
        assert(ranking::bm25_documents(index).dom().contains(n) <==> n < c.chunks.len());
    }
}

/// A relevance search asks the index for `k` documents, or for one if `k` is 0, and gives a
/// hit for each document of the answer, up to `k`, in the order of the answer: with its
/// score, and with the first 200 characters of the chunk, or all but the last if it has no
/// more.
pub proof fn law_relevance_search(
    c: context::ContextView,
    query: Seq<char>,
    k: int,
    hits: Seq<records::HitView>,
) -> (found: Seq<(usize, u32)>)
    requires
        c.sound(),
        c.index is Some,
        c.answers(query, k, SearchMode::Bm25, hits),
        0 <= k,
    ensures
        ranking::bm25_gives(
            c.index->0,
            query,
            if k == 0 {
                1
            } else {
                k as nat
            },
            found,
        ),
        hits.len() == (if k < found.len() {
            k
        } else {
            found.len() as int
        }),
        forall|i: int|
            0 <= i < hits.len() ==> is_relevance_hit(
                c,
                found[i].0 as int,
                found[i].1,
                #[trigger] hits[i],
            ),
{
    let index = c.index->0;
    let found = choose|found: Seq<(usize, u32)>|
        c.index_answers(index, query, k, found) && hits == #[trigger] context::relevance_hits(
            c.blob,
            c.chunks,
            found,
            k,
        );
    assert(order::descending(found, ranking::found_key()));
    order::law_ranked_idempotent(found, ranking::found_key());
    let kept = ranking::best_found(found, k);
    assert(kept == found.take(text::min_int(k, found.len() as int)));
    let f = |i: int|
        context::plain_hit(c.blob, c.chunks, kept[i].0 as int, Score::Relevance(kept[i].1));
    assert forall|i: int| 0 <= i < kept.len() implies (#[trigger] f(i)) is Some && is_relevance_hit(
        c,
        found[i].0 as int,
        found[i].1,
        f(i)->0,
    ) by {
        assert(kept[i] == found[i]);
        let relevant = ranking::bm25_relevant(index, query);
        assert(relevant.contains(found[i].0));
        assert(ranking::bm25_documents(index).dom().contains(found[i].0));
        law_index_holds_texts(c, found[i].0);
        assert(c.chunk_sound(found[i].0 as int));
        preview::law_opening(c.text_of(found[i].0 as int)->0, 200);
    }
    context::lemma_collected_all(kept.len(), f);
    assert(hits == context::collected(kept.len(), f));
    assert forall|i: int| 0 <= i < hits.len() implies is_relevance_hit(
        c,
        found[i].0 as int,
        found[i].1,
        #[trigger] hits[i],
    ) by {
        assert(Some(hits[i]) == f(i));
    }
    found
}

/// Whether a hit is for chunk `n`, with the score that these bits stand for, and shows the
/// first 200 characters of the chunk's text, or all but the last if it has no more.
pub open spec fn is_relevance_hit(
    c: context::ContextView,
    n: int,
    bits: u32,
    hit: records::HitView,
) -> bool {
    &&& is_hit_of(c, n, hit)
    &&& hit.score == Score::Relevance(bits)
    &&& c.text_of(n) matches Some(t) && t.len() > 0 && hit.preview == (if t.len() > 200 {
        t.take(200)
    } else {
        t.drop_last()
    })
}

/// Whatever an index answers, the hits for the answer are its best entries in order: if every
/// entry is for a chunk with a text, there are as many hits as entries, up to `k`; each is for
/// an entry, and none scores higher than one before it.
pub proof fn law_hits_of_answer(
    c: context::ContextView,
    found: Seq<(usize, u32)>,
    k: int,
    i: int,
    j: int,
)
    requires
        0 <= k,
        forall|m: int| 0 <= m < found.len() ==> has_visible_text(c, (#[trigger] found[m]).0 as int),
        0 <= i <= j < context::relevance_hits(c.blob, c.chunks, found, k).len(),
    ensures
        ({
            let hits = context::relevance_hits(c.blob, c.chunks, found, k);
            &&& hits.len() == (if k < found.len() {
                k
            } else {
                found.len() as int
            })
            &&& exists|m: int|
                0 <= m < found.len() && is_relevance_hit(
                    c,
                    (#[trigger] found[m]).0 as int,
                    found[m].1,
                    hits[i],
                )
            &&& hits[i].score matches Score::Relevance(a) && hits[j].score matches Score::Relevance(
                b,
            ) && a >= b
        }),
{
    let kept = ranking::best_found(found, k);
    order::law_best(found, ranking::found_key(), k);
    let f = |i: int|
        context::plain_hit(c.blob, c.chunks, kept[i].0 as int, Score::Relevance(kept[i].1));
    let hits = context::relevance_hits(c.blob, c.chunks, found, k);
    assert forall|i: int| 0 <= i < kept.len() implies (#[trigger] f(i)) is Some && is_relevance_hit(
        c,
        kept[i].0 as int,
        kept[i].1,
        f(i)->0,
    ) by {
        assert(found.contains(kept[i]));
        let m = choose|m: int| 0 <= m < found.len() && found[m] == kept[i];
        assert(has_visible_text(c, found[m].0 as int));
        preview::law_opening(c.text_of(kept[i].0 as int)->0, 200);
    }
    context::lemma_collected_all(kept.len(), f);
    assert(hits == context::collected(kept.len(), f));
    assert(Some(hits[i]) == f(i) && Some(hits[j]) == f(j));
    assert(found.contains(kept[i]));
    let m = choose|m: int| 0 <= m < found.len() && found[m] == kept[i];
    assert(is_relevance_hit(c, found[m].0 as int, found[m].1, hits[i]));
    if i < j {
        assert((ranking::found_key())(kept[i]) >= (ranking::found_key())(kept[j]));
    }
}

/// Whether chunk `n` has a text that is not empty.
pub open spec fn has_visible_text(c: context::ContextView, n: int) -> bool {
    c.text_of(n) matches Some(t) && t.len() > 0
}

/// A relevance search of a context without chunks gives nothing.
pub proof fn law_relevance_search_of_nothing(
    c: context::ContextView,
    query: Seq<char>,
    k: int,
    hits: Seq<records::HitView>,
)
    requires
        c.sound(),
        c.chunks.len() == 0,
        c.answers(query, k, SearchMode::Bm25, hits),
        0 <= k,
    ensures
        hits.len() == 0,
{
    if c.index is Some && hits.len() > 0 {
        let found = law_relevance_search(c, query, k, hits);
        assert(is_relevance_hit(c, found[0].0 as int, found[0].1, hits[0]));
    }
}

} // verus!
