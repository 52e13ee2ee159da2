//! Making a context of a text, or of the texts of several files.
use vstd::prelude::*;
use vstd::string::*;
use vstd::utf8::*;

use crate::chunking;
use crate::chunking::{chunk_text, chunk_text_with_offset, Chunk};
use crate::context;
use crate::context::{build_context, RlmContext};
use crate::decimal;
use crate::headings;
use crate::text;
use crate::text::byte_len;
use crate::white;

verus! {

/// What has been gathered for a context so far.
#[derive(Debug)]
pub struct Gathered {
    name: String,
    blob: String,
    chunks: Vec<Chunk>,
    files: usize,
}

/// What a [`Gathered`] holds: the name of the context, its text and chunks so far, and the
/// number of files that they come from.
#[verifier::ext_equal]
pub struct GatheredView {
    pub name: Seq<char>,
    pub blob: Seq<char>,
    pub chunks: Seq<chunking::ChunkView>,
    pub files: nat,
}

impl View for Gathered {
    type V = GatheredView;

    closed spec fn view(&self) -> GatheredView {
        GatheredView {
            name: self.name@,
            blob: self.blob@,
            chunks: chunking::chunk_views(self.chunks@),
            files: self.files as nat,
        }
    }
}

// ---------------------------------------------------------------------------
// Model
// ---------------------------------------------------------------------------

/// Nothing gathered yet.
pub open spec fn nothing(name: Seq<char>) -> GatheredView {
    GatheredView { name, blob: Seq::empty(), chunks: Seq::empty(), files: 0 }
}

/// A text that is the whole context.
pub open spec fn single(name: Seq<char>, text: Seq<char>) -> GatheredView {
    GatheredView {
        name,
        blob: text,
        chunks: chunking::text_chunks(text, name, None, 0, 0),
        files: 1,
    }
}

/// The line that stands before the text of a file.
pub open spec fn file_header(display: Seq<char>) -> Seq<char> {
    "\n\n===== "@ + display + " =====\n"@
}

impl GatheredView {
    /// With the text of one more file: its header and the text come after what was there,
    /// and its chunks, which carry the file's path, are numbered on.
    pub open spec fn with_file(self, display: Seq<char>, text: Seq<char>) -> GatheredView {
        let head = self.blob + file_header(display);
        GatheredView {
            name: self.name,
            blob: head + text,
            chunks: self.chunks + chunking::text_chunks(
                text,
                self.name,
                Some(display),
                encode_utf8(head).len() as int,
                self.chunks.len(),
            ),
            files: self.files + 1,
        }
    }

    /// Whether the chunks are sound in the text, and neither they nor their tokens nor the
    /// files are more than its bytes allow.
    pub open spec fn sound(self) -> bool {
        let bytes = encode_utf8(self.blob);
        &&& forall|i: int|
            0 <= i < self.chunks.len() ==> #[trigger] context::sound_chunk(
                self.name,
                bytes,
                self.chunks[i],
                i,
            )
        &&& self.chunks.len() <= bytes.len()
        &&& context::token_sum(self.chunks) <= bytes.len()
        &&& self.files <= bytes.len() + 1
    }

    /// Whether a context is the one that this makes, under the name of a source.
    pub open spec fn makes(self, source: Seq<char>, c: context::ContextView) -> bool {
        &&& c.name == self.name
        &&& c.source == source
        &&& c.blob == encode_utf8(self.blob)
        &&& c.chunks == self.chunks
        &&& c.total_chars == self.blob.len()
        &&& c.total_tokens == context::token_sum(self.chunks)
        &&& c.sound()
    }
}

// ---------------------------------------------------------------------------
// Lemmas
// ---------------------------------------------------------------------------

/// A text in a blob stays where it is when the blob grows.
proof fn lemma_range_text_grows(blob: Seq<u8>, more: Seq<u8>, start: int, end: int)
    requires
        context::range_text(blob, start, end) is Some,
    ensures
        context::range_text(blob + more, start, end) == context::range_text(blob, start, end),
{
    assert((blob + more).subrange(start, end) =~= blob.subrange(start, end));
}

/// The chunks of a text are sound in a blob that holds the text at their base.
pub proof fn lemma_text_chunks_sound(
    before: Seq<char>,
    text: Seq<char>,
    name: Seq<char>,
    source: Option<Seq<char>>,
    first: nat,
)
    ensures
        ({
            let c = chunking::text_chunks(
                text,
                name,
                source,
                encode_utf8(before).len() as int,
                first,
            );
            &&& forall|i: int|
                0 <= i < c.len() ==> context::sound_chunk(
                    name,
                    encode_utf8(before + text),
                    #[trigger] c[i],
                    first + i,
                )
            &&& context::token_sum(c) <= encode_utf8(text).len()
            &&& c.len() <= encode_utf8(text).len()
        }),
{
    let base = encode_utf8(before).len() as int;
    let bytes = encode_utf8(text);
    let blob = encode_utf8(before + text);
    let c = chunking::text_chunks(text, name, source, base, first);
    text::lemma_encode_concat(before, text);
    encode_utf8_valid_utf8(text);
    chunking::lemma_text_pieces(text);
    assert forall|i: int| 0 <= i < c.len() implies context::sound_chunk(
        name,
        blob,
        #[trigger] c[i],
        first + i,
    ) by {
        chunking::law_chunks_point_into_text(text, name, source, base, first, i);
        let (s, e) = (c[i].start, c[i].end);
        text::lemma_slice_valid(bytes, s - base, e - base);
        assert(blob.subrange(s, e) =~= bytes.subrange(s - base, e - base));
    }
    lemma_token_sum_numbered(chunking::text_pieces(text), name, source, base, first);
}

proof fn lemma_token_sum_numbered(
    pieces: Seq<chunking::Piece>,
    name: Seq<char>,
    source: Option<Seq<char>>,
    base: int,
    first: nat,
)
    ensures
        context::token_sum(chunking::numbered(pieces, name, source, base, first))
            == chunking::piece_tokens(pieces),
    decreases pieces.len(),
{
    let c = chunking::numbered(pieces, name, source, base, first);
    if pieces.len() > 0 {
        let shorter = pieces.drop_last();
        lemma_token_sum_numbered(shorter, name, source, base, first);
        assert(c.drop_last() =~= chunking::numbered(shorter, name, source, base, first));
        let n = (first + (pieces.len() - 1)) as nat;
        assert(c.last() == chunking::piece_chunk(pieces.last(), name, source, base, n));
    }
}

proof fn lemma_token_sum_concat(a: Seq<chunking::ChunkView>, b: Seq<chunking::ChunkView>)
    ensures
        context::token_sum(a + b) == context::token_sum(a) + context::token_sum(b),
    decreases b.len(),
{
    if b.len() == 0 {
        assert(a + b =~= a);
    } else {
        assert((a + b).drop_last() =~= a + b.drop_last());
        lemma_token_sum_concat(a, b.drop_last());
    }
}

/// Nothing is sound.
pub proof fn lemma_nothing_sound(name: Seq<char>)
    ensures
        nothing(name).sound(),
{
}

/// A text and its chunks are sound.
pub proof fn lemma_single_sound(name: Seq<char>, text: Seq<char>)
    ensures
        single(name, text).sound(),
{
    let none = Seq::<char>::empty();
    assert(none + text =~= text);
    assert(encode_utf8(none) =~= Seq::<u8>::empty());
    lemma_text_chunks_sound(none, text, name, None, 0);
    let g = single(name, text);
    assert forall|i: int| 0 <= i < g.chunks.len() implies #[trigger] context::sound_chunk(
        name,
        encode_utf8(text),
        g.chunks[i],
        i,
    ) by {
        assert(context::sound_chunk(name, encode_utf8(none + text), g.chunks[i], 0 + i));
    }
}

/// One more file leaves what is gathered sound.
pub proof fn lemma_with_file_sound(g: GatheredView, display: Seq<char>, text: Seq<char>)
    requires
        g.sound(),
    ensures
        g.with_file(display, text).sound(),
        g.chunks.len() + chunking::text_pieces(text).len() <= encode_utf8(
            g.with_file(display, text).blob,
        ).len(),
        g.files + 1 <= encode_utf8(g.with_file(display, text).blob).len(),
{
    let head = g.blob + file_header(display);
    let base = encode_utf8(head).len() as int;
    let more = chunking::text_chunks(text, g.name, Some(display), base, g.chunks.len());
    let next = g.with_file(display, text);
    let old_bytes = encode_utf8(g.blob);
    let bytes = encode_utf8(next.blob);
    lemma_text_chunks_sound(head, text, g.name, Some(display), g.chunks.len());
    lemma_token_sum_concat(g.chunks, more);
    text::lemma_encode_concat(g.blob, file_header(display));
    text::lemma_encode_concat(head, text);
    let rest = encode_utf8(file_header(display)) + encode_utf8(text);
    assert(bytes =~= old_bytes + rest);
    assert forall|i: int| 0 <= i < next.chunks.len() implies #[trigger] context::sound_chunk(
        g.name,
        bytes,
        next.chunks[i],
        i,
    ) by {
        if i < g.chunks.len() {
            assert(next.chunks[i] == g.chunks[i]);
            assert(context::sound_chunk(g.name, old_bytes, g.chunks[i], i));
            lemma_range_text_grows(old_bytes, rest, g.chunks[i].start, g.chunks[i].end);
        } else {
            let j = i - g.chunks.len();
            assert(next.chunks[i] == more[j]);
            assert(context::sound_chunk(g.name, bytes, more[j], g.chunks.len() + j));
        }
    }
    assert(encode_utf8(file_header(display)).len() >= 2) by {
        reveal_strlit("\n\n===== ");
        text::lemma_encode_len(file_header(display));
    }
}

// ---------------------------------------------------------------------------
// Laws
// ---------------------------------------------------------------------------

/// One more file adds a line with its path and its text behind what was there; the chunks
/// that were there stay as they are.
pub proof fn law_file_is_added(g: GatheredView, display: Seq<char>, text: Seq<char>)
    ensures
        ({
            let next = g.with_file(display, text);
            &&& next.name == g.name
            &&& next.blob == g.blob + "\n\n===== "@ + display + " =====\n"@ + text
            &&& next.files == g.files + 1
            &&& g.chunks.len() <= next.chunks.len()
            &&& forall|i: int|
                0 <= i < g.chunks.len() ==> #[trigger] next.chunks[i] == g.chunks[i]
        }),
{
    let next = g.with_file(display, text);
    assert(next.blob =~= g.blob + "\n\n===== "@ + display + " =====\n"@ + text);
}

/// The chunks that one more file adds carry its path, are numbered on, and lie in its text,
/// each in a section of the text whose title it carries.
pub proof fn law_file_chunks(g: GatheredView, display: Seq<char>, text: Seq<char>, i: int) -> (j:
    int)
    requires
        g.chunks.len() <= i < g.with_file(display, text).chunks.len(),
    ensures
        0 <= j < headings::sections(text).len(),
        ({
            let next = g.with_file(display, text);
            let c = next.chunks[i];
            let base = encode_utf8(next.blob).len() - encode_utf8(text).len();
            let from = base + chunking::section_start(headings::sections(text), j);
            &&& c.source_file == Some(display)
            &&& c.section_path == headings::sections(text)[j].0
            &&& c.id == g.name + seq![':'] + decimal::zero_padded(decimal::decimal(i as nat), 4)
            &&& from <= c.start < c.end <= from + encode_utf8(headings::sections(text)[j].1).len()
        }),
{
    let head = g.blob + file_header(display);
    let base = encode_utf8(head).len() as int;
    let first = g.chunks.len();
    text::lemma_encode_concat(head, text);
    let k = i - first;
    let added = chunking::text_chunks(text, g.name, Some(display), base, first);
    assert(g.with_file(display, text).chunks[i] == added[k]);
    chunking::law_chunks_carry_titles(text, g.name, Some(display), base, first, k)
}

/// Every character of one more file that is not white space stands in a chunk that the file
/// adds.
pub proof fn law_file_text_is_chunked(
    g: GatheredView,
    display: Seq<char>,
    text: Seq<char>,
    m: int,
) -> (i: int)
    requires
        0 <= m < text.len(),
        !white::white_space(text[m]),
    ensures
        g.chunks.len() <= i < g.with_file(display, text).chunks.len(),
        ({
            let next = g.with_file(display, text);
            let p = encode_utf8(next.blob).len() - encode_utf8(text).len() + encode_utf8(
                text.take(m),
            ).len();
            next.chunks[i].start <= p < next.chunks[i].end
        }),
{
    let head = g.blob + file_header(display);
    let base = encode_utf8(head).len() as int;
    let first = g.chunks.len();
    text::lemma_encode_concat(head, text);
    let k = chunking::law_visible_text_is_chunked(text, g.name, Some(display), base, first, m);
    let added = chunking::text_chunks(text, g.name, Some(display), base, first);
    assert(g.with_file(display, text).chunks[first + k] == added[k]);
    first + k
}

/// A text that is the whole context is its text as it stands; its chunks have no source file
/// and are numbered from 0 on; and each lies in a section of the text whose title it carries.
pub proof fn law_single(name: Seq<char>, text: Seq<char>, i: int) -> (j: int)
    requires
        0 <= i < single(name, text).chunks.len(),
    ensures
        single(name, text).name == name,
        single(name, text).blob == text,
        single(name, text).files == 1,
        0 <= j < headings::sections(text).len(),
        ({
            let c = single(name, text).chunks[i];
            let from = chunking::section_start(headings::sections(text), j);
            &&& c.source_file is None
            &&& c.section_path == headings::sections(text)[j].0
            &&& c.id == name + seq![':'] + decimal::zero_padded(decimal::decimal(i as nat), 4)
            &&& from <= c.start < c.end <= from + encode_utf8(headings::sections(text)[j].1).len()
        }),
{
    chunking::law_chunks_carry_titles(text, name, None, 0, 0, i)
}

/// Every character of a text that is the whole context stands in a chunk, unless it is white
/// space.
pub proof fn law_single_text_is_chunked(name: Seq<char>, text: Seq<char>, m: int) -> (i: int)
    requires
        0 <= m < text.len(),
        !white::white_space(text[m]),
    ensures
        0 <= i < single(name, text).chunks.len(),
        single(name, text).chunks[i].start <= encode_utf8(text.take(m)).len() < single(
            name,
            text,
        ).chunks[i].end,
{
    chunking::law_visible_text_is_chunked(text, name, None, 0, 0, m)
}

/// The context that is made of what was gathered holds its text and its chunks, and is
/// summarised by its name, its source and the sizes of the two.
pub proof fn law_makes(g: GatheredView, source: Seq<char>, c: context::ContextView)
    requires
        g.makes(source, c),
    ensures
        decode_utf8(c.blob) == g.blob,
        c.chunks == g.chunks,
        c.summary().name == g.name,
        c.summary().source == source,
        c.summary().total_chars == g.blob.len(),
        c.summary().n_chunks == g.chunks.len(),
        c.sound(),
{
    encode_utf8_decode_utf8(g.blob);
}

// ---------------------------------------------------------------------------
// Code
// ---------------------------------------------------------------------------

impl Gathered {
    /// Begins with nothing.
    pub fn new(name: &str) -> (r: Gathered)
        ensures
            r@ == nothing(name@),
            r@.sound(),
    {
        proof {
            lemma_nothing_sound(name@);
        }
        let r = Gathered { name: name.to_owned(), blob: String::new(), chunks: Vec::new(), files: 0 };
        proof {
            assert(r@ =~= nothing(name@));
        }
        r
    }

    /// Takes a text as the whole context.
    pub fn of_text(name: &str, text: &str) -> (r: Gathered)
        ensures
            r@ == single(name@, text@),
            r@.sound(),
    {
        proof {
            lemma_single_sound(name@, text@);
        }
        Gathered {
            name: name.to_owned(),
            blob: text.to_owned(),
            chunks: chunk_text(text, name, None),
            files: 1,
        }
    }

    /// The number of files that the text comes from.
    pub fn file_count(&self) -> (r: usize)
        ensures
            r == self@.files,
    {
        self.files
    }

    /// Adds the text of a file.
    pub fn add_text(&mut self, display: &str, text: &str)
        requires
            old(self)@.sound(),
        ensures
            final(self)@ == old(self)@.with_file(display@, text@),
            final(self)@.sound(),
    {
        let ghost before = self@;
        proof {
            lemma_with_file_sound(before, display@, text@);
        }
        self.blob.append("\n\n===== ");
        self.blob.append(display);
        self.blob.append(" =====\n");
        let offset: usize = byte_len(self.blob.as_str());
        let ghost head = self.blob@;
        proof {
            assert(head =~= before.blob + file_header(display@));
            text::lemma_encode_concat(head, text@);
        }
        self.blob.append(text);
        // The text is in memory, so its bytes can be counted.
        let _total: usize = byte_len(self.blob.as_str());
        let ghost old_chunks = self.chunks@;
        let mut more: Vec<Chunk> = chunk_text_with_offset(
            text,
            self.name.as_str(),
            Some(display.to_owned()),
            offset,
            self.chunks.len(),
        );
        let ghost new_chunks = more@;
        self.chunks.append(&mut more);
        self.files = self.files + 1;
        proof {
            assert(chunking::chunk_views(self.chunks@) =~= chunking::chunk_views(old_chunks)
                + chunking::chunk_views(new_chunks));
            assert(self@ =~= before.with_file(display@, text@));
        }
    }

    /// Makes the context.
    pub fn into_context(self, source: &str) -> (r: RlmContext)
        requires
            self@.sound(),
        ensures
            self@.makes(source@, r@),
    {
        let ghost g = self@;
        // The text is in memory, so its bytes can be counted.
        let _total: usize = byte_len(self.blob.as_str());
        let r: RlmContext = build_context(self.name, source.to_owned(), self.blob, self.chunks);
        proof {
            encode_utf8_valid_utf8(g.blob);
            encode_utf8_decode_utf8(g.blob);
            assert forall|i: int| 0 <= i < r@.chunks.len() implies #[trigger] r@.chunk_sound(i) by {
                assert(context::sound_chunk(g.name, encode_utf8(g.blob), g.chunks[i], i));
            }
            if r@.chunks.len() > 0 {
                assert(r@.chunk_sound(0));
                assert(context::chunk_documents(r@.blob, r@.chunks).dom().contains(0usize));
            }
        }
        r
    }
}

} // verus!
