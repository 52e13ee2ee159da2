//! Cutting a text into chunks.
//!
//! A text is split into sections at its headings, and a section that is too long into
//! windows that overlap. Each piece that is not blank becomes a [`Chunk`], which points
//! into the text by its byte range.
use vstd::prelude::*;
use vstd::string::*;
use vstd::utf8::*;

use crate::decimal;
use crate::decimal::four_digits;
use crate::headings;
use crate::headings::split_on_headings;
use crate::text;
use crate::text::{byte_len, slice, snap_down};
use crate::white;
use crate::white::is_blank;

verus! {

/// Size that a chunk aims at, in tokens.
pub const CHUNK_TOKEN_TARGET: usize = 2_000;

/// Overlap of two windows of one section, in tokens.
pub const CHUNK_OVERLAP_TOKENS: usize = 200;

/// Bytes that are counted as one token.
pub const CHARS_PER_TOKEN: usize = 4;

/// A single retrievable chunk in a context.
#[derive(Debug)]
pub struct Chunk {
    pub id: String,
    /// Inclusive start, exclusive end in the context's blob bytes.
    pub byte_range: (usize, usize),
    pub token_count: usize,
    /// Heading path (for markdown-like inputs) or `None` for plain chunks.
    pub section_path: Option<String>,
    /// Source file when context was loaded from a directory.
    pub source_file: Option<String>,
}

impl Clone for Chunk {
    fn clone(&self) -> (r: Chunk)
        ensures
            r == *self,
    {
        Chunk {
            id: self.id.clone(),
            byte_range: (self.byte_range.0, self.byte_range.1),
            token_count: self.token_count,
            section_path: self.section_path.clone(),
            source_file: self.source_file.clone(),
        }
    }
}

/// What a [`Chunk`] holds.
#[verifier::ext_equal]
pub struct ChunkView {
    pub id: Seq<char>,
    pub start: int,
    pub end: int,
    pub token_count: int,
    pub section_path: Option<Seq<char>>,
    pub source_file: Option<Seq<char>>,
}

impl View for Chunk {
    type V = ChunkView;

    open spec fn view(&self) -> ChunkView {
        ChunkView {
            id: self.id@,
            start: self.byte_range.0 as int,
            end: self.byte_range.1 as int,
            token_count: self.token_count as int,
            section_path: text::opt_view(self.section_path),
            source_file: text::opt_view(self.source_file),
        }
    }
}

/// What a list of chunks holds.
pub open spec fn chunk_views(chunks: Seq<Chunk>) -> Seq<ChunkView> {
    Seq::new(chunks.len(), |i: int| chunks[i]@)
}

// ---------------------------------------------------------------------------
// Model
// ---------------------------------------------------------------------------

/// The most bytes that a chunk has.
pub open spec fn target_bytes() -> int {
    CHUNK_TOKEN_TARGET * CHARS_PER_TOKEN
}

/// The bytes that a window takes over from the one before it, before its start is moved
/// back to a character boundary.
pub open spec fn overlap_bytes() -> int {
    CHUNK_OVERLAP_TOKENS * CHARS_PER_TOKEN
}

/// The number of tokens that `n` bytes are counted as.
pub open spec fn tokens(n: int) -> int {
    (n + CHARS_PER_TOKEN - 1) / (CHARS_PER_TOKEN as int)
}

/// The identifier of chunk number `n` of a context.
pub open spec fn chunk_id(name: Seq<char>, n: nat) -> Seq<char> {
    name + seq![':'] + decimal::zero_padded(decimal::decimal(n), 4)
}

/// Where the window that begins at `start` ends: a target's length on, or at the end of
/// the bytes, moved back to a character boundary.
pub open spec fn window_end(bytes: Seq<u8>, start: int) -> int {
    text::floor_boundary(bytes, text::min_int(start + target_bytes(), bytes.len() as int))
}

/// Where the window after one that ends at `end` begins: an overlap's length back, moved
/// back to a character boundary.
pub open spec fn next_window(bytes: Seq<u8>, end: int) -> int {
    text::floor_boundary(
        bytes,
        if end >= overlap_bytes() {
            end - overlap_bytes()
        } else {
            0
        },
    )
}

/// The windows over `bytes` from `start` on, as byte ranges.
pub open spec fn windows(bytes: Seq<u8>, start: int) -> Seq<(int, int)>
    decreases bytes.len() - start,
    when valid_utf8(bytes) && 0 <= start <= bytes.len()
{
    let end = window_end(bytes, start);
    if end >= bytes.len() {
        seq![(start, end)]
    } else {
        proof {
            lemma_window(bytes, start);
        }
        seq![(start, end)] + windows(bytes, next_window(bytes, end))
    }
}

/// A part of a text that may become a chunk.
#[verifier::ext_equal]
pub struct Piece {
    pub title: Option<Seq<char>>,
    pub start: int,
    pub end: int,
    pub text: Seq<char>,
}

/// The piece that a window over the body of a section gives.
pub open spec fn window_piece(section: headings::SectionView, offset: int, w: (int, int)) -> Piece {
    Piece {
        title: section.0,
        start: offset + w.0,
        end: offset + w.1,
        text: decode_utf8(encode_utf8(section.1).subrange(w.0, w.1)),
    }
}

/// The pieces of a section whose body begins at byte `offset`: the body itself if it is
/// no longer than a target, else its windows.
pub open spec fn section_pieces(section: headings::SectionView, offset: int) -> Seq<Piece> {
    let bytes = encode_utf8(section.1);
    if bytes.len() <= target_bytes() {
        seq![
            Piece {
                title: section.0,
                start: offset,
                end: offset + bytes.len(),
                text: section.1,
            },
        ]
    } else {
        let w = windows(bytes, 0);
        Seq::new(w.len(), |i: int| window_piece(section, offset, w[i]))
    }
}

/// The pieces of sections that follow one another from byte 0 on.
pub open spec fn pieces(sections: Seq<headings::SectionView>) -> Seq<Piece>
    decreases sections.len(),
{
    if sections.len() == 0 {
        Seq::empty()
    } else {
        pieces(sections.drop_last()) + section_pieces(
            sections.last(),
            encode_utf8(headings::joined(sections.drop_last())).len() as int,
        )
    }
}

/// The pieces that are not blank.
pub open spec fn kept(pieces: Seq<Piece>) -> Seq<Piece>
    decreases pieces.len(),
{
    if pieces.len() == 0 {
        Seq::empty()
    } else if white::blank(pieces.last().text) {
        kept(pieces.drop_last())
    } else {
        kept(pieces.drop_last()).push(pieces.last())
    }
}

/// The pieces of a text that become chunks.
pub open spec fn text_pieces(text: Seq<char>) -> Seq<Piece> {
    kept(pieces(headings::sections(text)))
}

/// The chunk that a piece becomes, as number `n` of the context, in a text that begins at
/// byte `base` of the blob.
pub open spec fn piece_chunk(
    piece: Piece,
    name: Seq<char>,
    source: Option<Seq<char>>,
    base: int,
    n: nat,
) -> ChunkView {
    ChunkView {
        id: chunk_id(name, n),
        start: base + piece.start,
        end: base + piece.end,
        token_count: tokens(piece.end - piece.start),
        section_path: piece.title,
        source_file: source,
    }
}

/// The chunks that pieces become, numbered from `first` on.
pub open spec fn numbered(
    pieces: Seq<Piece>,
    name: Seq<char>,
    source: Option<Seq<char>>,
    base: int,
    first: nat,
) -> Seq<ChunkView> {
    Seq::new(
        pieces.len(),
        |i: int| piece_chunk(pieces[i], name, source, base, (first + i) as nat),
    )
}

/// The chunks of a text that begins at byte `base` of the blob, numbered from `first` on.
pub open spec fn text_chunks(
    text: Seq<char>,
    name: Seq<char>,
    source: Option<Seq<char>>,
    base: int,
    first: nat,
) -> Seq<ChunkView> {
    numbered(text_pieces(text), name, source, base, first)
}

// ---------------------------------------------------------------------------
// Lemmas
// ---------------------------------------------------------------------------

/// A window lies within the bytes, between character boundaries, has at most a target's
/// length, and makes progress before the next one begins.
pub proof fn lemma_window(bytes: Seq<u8>, start: int)
    requires
        valid_utf8(bytes),
        0 <= start <= bytes.len(),
    ensures
        ({
            let end = window_end(bytes, start);
            &&& is_char_boundary(bytes, end)
            &&& 0 <= end <= bytes.len()
            &&& end <= start + target_bytes()
            &&& start < bytes.len() ==> start < end
            &&& end < bytes.len() ==> {
                let next = next_window(bytes, end);
                &&& is_char_boundary(bytes, next)
                &&& start + CHUNK_TOKEN_TARGET <= next
                &&& next <= end - overlap_bytes()
            }
        }),
{
    let limit = text::min_int(start + target_bytes(), bytes.len() as int);
    let end = window_end(bytes, start);
    text::lemma_floor_boundary(bytes, limit);
    text::lemma_floor_boundary_near(bytes, limit);
    if limit == bytes.len() {
        is_char_boundary_start_end_of_seq(bytes);
    }
    if end < bytes.len() {
        text::lemma_floor_boundary(bytes, end - overlap_bytes());
        text::lemma_floor_boundary_near(bytes, end - overlap_bytes());
    }
}

proof fn lemma_kept_concat(a: Seq<Piece>, b: Seq<Piece>)
    ensures
        kept(a + b) == kept(a) + kept(b),
    decreases b.len(),
{
    if b.len() == 0 {
        assert(a + b =~= a);
        assert(kept(a) + kept(b) =~= kept(a));
    } else {
        assert((a + b).drop_last() =~= a + b.drop_last());
        lemma_kept_concat(a, b.drop_last());
        assert(kept(a + b) =~= kept(a) + kept(b));
    }
}

/// The pieces of the first `i` sections come first.
proof fn lemma_pieces_prefix(sections: Seq<headings::SectionView>, i: int) -> (rest: Seq<Piece>)
    requires
        0 <= i <= sections.len(),
    ensures
        pieces(sections) == pieces(sections.take(i)) + rest,
    decreases sections.len(),
{
    if i == sections.len() {
        assert(sections.take(i) =~= sections);
        assert(pieces(sections) =~= pieces(sections.take(i)) + Seq::<Piece>::empty());
        Seq::empty()
    } else {
        let shorter = sections.drop_last();
        let rest = lemma_pieces_prefix(shorter, i);
        assert(shorter.take(i) =~= sections.take(i));
        let last = section_pieces(
            sections.last(),
            encode_utf8(headings::joined(shorter)).len() as int,
        );
        assert(pieces(sections) =~= pieces(sections.take(i)) + (rest + last));
        rest + last
    }
}

/// The chunks of the first `i` sections number no more than those of all.
proof fn lemma_kept_bound(sections: Seq<headings::SectionView>, i: int)
    requires
        0 <= i <= sections.len(),
    ensures
        kept(pieces(sections.take(i))).len() <= kept(pieces(sections)).len(),
{
    let rest = lemma_pieces_prefix(sections, i);
    lemma_kept_concat(pieces(sections.take(i)), rest);
}

proof fn lemma_numbered_push(
    done: Seq<Piece>,
    p: Piece,
    name: Seq<char>,
    source: Option<Seq<char>>,
    base: int,
    first: nat,
)
    ensures
        ({
            let before = numbered(kept(done), name, source, base, first);
            let after = numbered(kept(done.push(p)), name, source, base, first);
            if white::blank(p.text) {
                after == before
            } else {
                after == before.push(
                    piece_chunk(p, name, source, base, (first + before.len()) as nat),
                )
            }
        }),
{
    assert(done.push(p).drop_last() =~= done);
    let before = numbered(kept(done), name, source, base, first);
    let after = numbered(kept(done.push(p)), name, source, base, first);
    if !white::blank(p.text) {
        assert(after =~= before.push(
            piece_chunk(p, name, source, base, (first + before.len()) as nat),
        ));
    }
}

proof fn lemma_joined_prefix(sections: Seq<headings::SectionView>, i: int)
    requires
        0 <= i <= sections.len(),
    ensures
        encode_utf8(headings::joined(sections.take(i))).len() <= encode_utf8(
            headings::joined(sections),
        ).len(),
    decreases sections.len(),
{
    if i == sections.len() {
        assert(sections.take(i) =~= sections);
    } else {
        assert(sections.drop_last().take(i) =~= sections.take(i));
        lemma_joined_prefix(sections.drop_last(), i);
        text::lemma_encode_concat(headings::joined(sections.drop_last()), sections.last().1);
    }
}

/// The number of tokens that pieces are counted as.
pub open spec fn piece_tokens(pieces: Seq<Piece>) -> int
    decreases pieces.len(),
{
    if pieces.len() == 0 {
        0
    } else {
        piece_tokens(pieces.drop_last()) + tokens(pieces.last().end - pieces.last().start)
    }
}

proof fn lemma_piece_tokens_one(p: Piece)
    ensures
        piece_tokens(seq![p]) == tokens(p.end - p.start),
{
    assert(seq![p].drop_last() =~= Seq::<Piece>::empty());
    assert(piece_tokens(seq![p].drop_last()) == 0);
}

proof fn lemma_piece_tokens_concat(a: Seq<Piece>, b: Seq<Piece>)
    ensures
        piece_tokens(a + b) == piece_tokens(a) + piece_tokens(b),
    decreases b.len(),
{
    if b.len() == 0 {
        assert(a + b =~= a);
    } else {
        assert((a + b).drop_last() =~= a + b.drop_last());
        lemma_piece_tokens_concat(a, b.drop_last());
    }
}

/// The windows over a section count for no more tokens than it has bytes.
proof fn lemma_window_tokens(section: headings::SectionView, offset: int, start: int)
    requires
        0 <= start < encode_utf8(section.1).len(),
    ensures
        ({
            let w = windows(encode_utf8(section.1), start);
            let p = Seq::new(w.len(), |i: int| window_piece(section, offset, w[i]));
            piece_tokens(p) <= encode_utf8(section.1).len() - start
        }),
    decreases encode_utf8(section.1).len() - start,
{
    let bytes = encode_utf8(section.1);
    encode_utf8_valid_utf8(section.1);
    lemma_window(bytes, start);
    let end = window_end(bytes, start);
    let w = windows(bytes, start);
    let p = Seq::new(w.len(), |i: int| window_piece(section, offset, w[i]));
    let first = seq![window_piece(section, offset, (start, end))];
    lemma_piece_tokens_one(first[0]);
    if end >= bytes.len() {
        assert(p =~= first);
    } else {
        let next = next_window(bytes, end);
        let w2 = windows(bytes, next);
        let p2 = Seq::new(w2.len(), |i: int| window_piece(section, offset, w2[i]));
        assert(p =~= first + p2);
        lemma_window_tokens(section, offset, next);
        lemma_piece_tokens_concat(first, p2);
    }
}

proof fn lemma_section_tokens(section: headings::SectionView, offset: int)
    ensures
        piece_tokens(section_pieces(section, offset)) <= encode_utf8(section.1).len(),
{
    let bytes = encode_utf8(section.1);
    let p = section_pieces(section, offset);
    if bytes.len() <= target_bytes() {
        lemma_piece_tokens_one(p[0]);
        assert(p =~= seq![p[0]]);
    } else {
        lemma_window_tokens(section, offset, 0);
    }
}

proof fn lemma_pieces_tokens(sections: Seq<headings::SectionView>)
    ensures
        piece_tokens(pieces(sections)) <= encode_utf8(headings::joined(sections)).len(),
    decreases sections.len(),
{
    if sections.len() > 0 {
        let shorter = sections.drop_last();
        let offset = encode_utf8(headings::joined(shorter)).len() as int;
        lemma_pieces_tokens(shorter);
        lemma_section_tokens(sections.last(), offset);
        lemma_piece_tokens_concat(pieces(shorter), section_pieces(sections.last(), offset));
        text::lemma_encode_concat(headings::joined(shorter), sections.last().1);
    }
}

/// Every piece of a text lies in it: its range is within the text, between character
/// boundaries and no longer than a target, and its text is what stands there.
pub open spec fn piece_fits(piece: Piece, text: Seq<char>) -> bool {
    let bytes = encode_utf8(text);
    &&& 0 <= piece.start <= piece.end <= bytes.len()
    &&& piece.end - piece.start <= target_bytes()
    &&& is_char_boundary(bytes, piece.start)
    &&& is_char_boundary(bytes, piece.end)
    &&& piece.text == decode_utf8(bytes.subrange(piece.start, piece.end))
}

proof fn lemma_windows_fit(bytes: Seq<u8>, start: int)
    requires
        valid_utf8(bytes),
        0 <= start < bytes.len(),
        is_char_boundary(bytes, start),
    ensures
        forall|i: int|
            0 <= i < windows(bytes, start).len() ==> ({
                let w = #[trigger] windows(bytes, start)[i];
                &&& 0 <= w.0 < w.1 <= bytes.len()
                &&& w.1 - w.0 <= target_bytes()
                &&& is_char_boundary(bytes, w.0)
                &&& is_char_boundary(bytes, w.1)
            }),
    decreases bytes.len() - start,
{
    lemma_window(bytes, start);
    let end = window_end(bytes, start);
    if end < bytes.len() {
        let next = next_window(bytes, end);
        lemma_windows_fit(bytes, next);
        let rest = windows(bytes, next);
        let all = windows(bytes, start);
        assert forall|i: int| 0 <= i < all.len() implies ({
            let w = #[trigger] all[i];
            &&& 0 <= w.0 < w.1 <= bytes.len()
            &&& w.1 - w.0 <= target_bytes()
            &&& is_char_boundary(bytes, w.0)
            &&& is_char_boundary(bytes, w.1)
        }) by {
            if i > 0 {
                assert(all[i] == rest[i - 1]);
            }
        }
    }
}

/// A piece of a section fits the text that the section stands in.
proof fn lemma_section_pieces_fit(section: headings::SectionView, before: Seq<char>, after: Seq<char>)
    ensures
        forall|i: int|
            0 <= i < section_pieces(section, encode_utf8(before).len() as int).len()
                ==> piece_fits(
                #[trigger] section_pieces(section, encode_utf8(before).len() as int)[i],
                before + section.1 + after,
            ),
{
    let offset = encode_utf8(before).len() as int;
    let all = before + section.1 + after;
    let bytes = encode_utf8(all);
    let body = encode_utf8(section.1);
    let m = before.len() as int;
    let k = m + section.1.len();
    assert(all.take(m) =~= before);
    assert(all.take(k) =~= before + section.1);
    assert(all.subrange(m, k) =~= section.1);
    text::lemma_encode_concat(before, section.1);
    text::lemma_encode_range(all, m, k);
    let stop = offset + body.len();
    assert(bytes.subrange(offset, stop) == body);
    encode_utf8_valid_utf8(all);
    encode_utf8_valid_utf8(section.1);
    is_char_boundary_start_end_of_seq(body);
    let p = section_pieces(section, offset);
    if body.len() > target_bytes() {
        lemma_windows_fit(body, 0);
        let w = windows(body, 0);
        assert forall|i: int| 0 <= i < p.len() implies piece_fits(#[trigger] p[i], all) by {
            let (a, b) = w[i];
            assert(p[i] == window_piece(section, offset, w[i]));
            text::lemma_slice_boundary(bytes, offset, stop, a);
            text::lemma_slice_boundary(bytes, offset, stop, b);
            assert(body.subrange(a, b) =~= bytes.subrange(offset + a, offset + b));
        }
    }
}

proof fn lemma_pieces_fit(sections: Seq<headings::SectionView>, after: Seq<char>)
    ensures
        forall|i: int|
            0 <= i < pieces(sections).len() ==> piece_fits(
                #[trigger] pieces(sections)[i],
                headings::joined(sections) + after,
            ),
    decreases sections.len(),
{
    if sections.len() > 0 {
        let shorter = sections.drop_last();
        let last = sections.last();
        let before = headings::joined(shorter);
        let offset = encode_utf8(before).len() as int;
        assert(before + (last.1 + after) =~= headings::joined(sections) + after);
        lemma_pieces_fit(shorter, last.1 + after);
        lemma_section_pieces_fit(last, before, after);
        let all = pieces(sections);
        let text = headings::joined(sections) + after;
        assert forall|i: int| 0 <= i < all.len() implies piece_fits(#[trigger] all[i], text) by {
            if i < pieces(shorter).len() {
                assert(all[i] == pieces(shorter)[i]);
            } else {
                assert(all[i] == section_pieces(last, offset)[i - pieces(shorter).len()]);
            }
        }
    }
}

/// What holds of all pieces and of blankness holds of the pieces that are kept.
proof fn lemma_kept(all: Seq<Piece>, text: Seq<char>)
    requires
        forall|i: int| 0 <= i < all.len() ==> piece_fits(#[trigger] all[i], text),
    ensures
        forall|i: int|
            0 <= i < kept(all).len() ==> piece_fits(#[trigger] kept(all)[i], text),
        forall|i: int|
            0 <= i < kept(all).len() ==> !white::blank((#[trigger] kept(all)[i]).text),
        piece_tokens(kept(all)) <= piece_tokens(all),
        kept(all).len() <= piece_tokens(kept(all)),
    decreases all.len(),
{
    if all.len() > 0 {
        let shorter = all.drop_last();
        let last = all.last();
        assert(piece_fits(all[all.len() - 1], text));
        assert forall|i: int| 0 <= i < shorter.len() implies piece_fits(
            #[trigger] shorter[i],
            text,
        ) by {
            assert(shorter[i] == all[i]);
        }
        lemma_kept(shorter, text);
        if !white::blank(last.text) {
            assert(kept(all).drop_last() =~= kept(shorter));
            assert(last.start < last.end) by {
                if last.start == last.end {
                    let none = encode_utf8(text).subrange(last.start, last.end);
                    assert(none =~= Seq::<u8>::empty());
                    assert(decode_utf8(none) =~= Seq::<char>::empty());
                }
            }
        }
    }
}

/// The pieces of a text that become chunks fit the text, are not blank, and count for no
/// more tokens, and so are no more, than the text has bytes.
pub proof fn lemma_text_pieces(text: Seq<char>)
    ensures
        forall|i: int|
            0 <= i < text_pieces(text).len() ==> piece_fits(#[trigger] text_pieces(text)[i], text),
        forall|i: int|
            0 <= i < text_pieces(text).len() ==> !white::blank(
                (#[trigger] text_pieces(text)[i]).text,
            ),
        text_pieces(text).len() <= piece_tokens(text_pieces(text)) <= encode_utf8(text).len(),
{
    headings::law_sections_cover_text(text);
    let secs = headings::sections(text);
    lemma_pieces_fit(secs, Seq::empty());
    assert(text + Seq::<char>::empty() =~= text);
    lemma_kept(pieces(secs), text);
    lemma_pieces_tokens(secs);
}

// ---------------------------------------------------------------------------
// Laws
// ---------------------------------------------------------------------------

/// Chunks of one context with different numbers have different identifiers.
pub proof fn law_chunk_ids_distinct(name: Seq<char>, a: nat, b: nat)
    requires
        chunk_id(name, a) == chunk_id(name, b),
    ensures
        a == b,
{
    let x = decimal::zero_padded(decimal::decimal(a), 4);
    let y = decimal::zero_padded(decimal::decimal(b), 4);
    let n = name.len() as int + 1;
    assert(chunk_id(name, a).skip(n) =~= x);
    assert(chunk_id(name, b).skip(n) =~= y);
    decimal::lemma_zero_padded_injective(a, b, 4);
}

/// Every chunk of a text points into the text: its range is not empty, lies between two
/// character boundaries of the text, is no longer than a target, and what stands there is
/// not blank. Its token count is that of its range.
pub proof fn law_chunks_point_into_text(
    text: Seq<char>,
    name: Seq<char>,
    source: Option<Seq<char>>,
    base: int,
    first: nat,
    i: int,
)
    requires
        0 <= i < text_chunks(text, name, source, base, first).len(),
    ensures
        ({
            let c = text_chunks(text, name, source, base, first)[i];
            let bytes = encode_utf8(text);
            &&& base <= c.start < c.end <= base + bytes.len()
            &&& c.end - c.start <= target_bytes()
            &&& is_char_boundary(bytes, c.start - base)
            &&& is_char_boundary(bytes, c.end - base)
            &&& !white::blank(decode_utf8(bytes.subrange(c.start - base, c.end - base)))
            &&& c.token_count == tokens(c.end - c.start)
        }),
{
    lemma_text_pieces(text);
    let p = text_pieces(text)[i];
    assert(piece_fits(p, text));
    if p.start == p.end {
        let none = encode_utf8(text).subrange(p.start, p.end);
        assert(none =~= Seq::<u8>::empty());
        assert(decode_utf8(none) =~= Seq::<char>::empty());
    }
}

/// Two windows that follow one another over one section share the overlap, and no more than
/// a character beyond it, and the later one begins later.
pub proof fn law_windows_overlap(bytes: Seq<u8>, start: int, i: int)
    requires
        valid_utf8(bytes),
        0 <= start <= bytes.len(),
        0 <= i,
        i + 1 < windows(bytes, start).len(),
    ensures
        ({
            let w = windows(bytes, start)[i];
            let next = windows(bytes, start)[i + 1];
            &&& w.0 < next.0
            &&& next.0 + overlap_bytes() <= w.1
            &&& next.0 + 800 <= w.1 <= next.0 + 803
        }),
    decreases i,
{
    lemma_window(bytes, start);
    let end = window_end(bytes, start);
    assert(end < bytes.len());
    let next = next_window(bytes, end);
    let rest = windows(bytes, next);
    assert(windows(bytes, start) == seq![(start, end)] + rest);
    assert(windows(bytes, start)[i + 1] == rest[i]);
    if i == 0 {
        lemma_window(bytes, next);
        text::lemma_floor_boundary_near(bytes, end - overlap_bytes());
        assert(rest[0].0 == next);
    } else {
        law_windows_overlap(bytes, next, i - 1);
        assert(windows(bytes, start)[i] == rest[i - 1]);
    }
}

/// A section of more than 8000 bytes is cut into pieces that carry its title: the first
/// begins where the section does, the last ends where the section does, and each shares 800
/// bytes with the one before it, and no more than a character beyond them.
pub proof fn law_section_pieces(section: headings::SectionView, offset: int, i: int)
    requires
        encode_utf8(section.1).len() > 8000,
        0 <= i < section_pieces(section, offset).len(),
    ensures
        ({
            let p = section_pieces(section, offset);
            let n = encode_utf8(section.1).len();
            &&& p[i].title == section.0
            &&& p[0].start == offset
            &&& p.last().end == offset + n
            &&& i > 0 ==> p[i].start + 800 <= p[i - 1].end <= p[i].start + 803
            &&& i > 0 ==> p[i - 1].start < p[i].start
            &&& encode_utf8(p[i].text) == encode_utf8(section.1).subrange(
                p[i].start - offset,
                p[i].end - offset,
            )
        }),
{
    let bytes = encode_utf8(section.1);
    encode_utf8_valid_utf8(section.1);
    let w = windows(bytes, 0);
    is_char_boundary_start_end_of_seq(bytes);
    lemma_window(bytes, 0);
    lemma_windows_last(bytes, 0);
    lemma_windows_fit(bytes, 0);
    text::lemma_slice_valid(bytes, w[i].0, w[i].1);
    decode_utf8_encode_utf8(bytes.subrange(w[i].0, w[i].1));
    if i > 0 {
        law_windows_overlap(bytes, 0, i - 1);
    }
}

/// The last window ends where the bytes end.
proof fn lemma_windows_last(bytes: Seq<u8>, start: int)
    requires
        valid_utf8(bytes),
        0 <= start <= bytes.len(),
    ensures
        windows(bytes, start).len() > 0,
        windows(bytes, start)[0].0 == start,
        windows(bytes, start).last().1 == bytes.len(),
    decreases bytes.len() - start,
{
    lemma_window(bytes, start);
    let end = window_end(bytes, start);
    if end < bytes.len() {
        let next = next_window(bytes, end);
        lemma_windows_last(bytes, next);
        let rest = windows(bytes, next);
        assert(windows(bytes, start) == seq![(start, end)] + rest);
        assert(windows(bytes, start).last() == rest.last());
    }
}

/// Whether a piece holds byte `i` of the text.
pub open spec fn holds_byte(piece: Piece, i: int) -> bool {
    piece.start <= i < piece.end
}

proof fn lemma_windows_cover(bytes: Seq<u8>, start: int, i: int) -> (j: int)
    requires
        valid_utf8(bytes),
        0 <= start <= i < bytes.len(),
    ensures
        0 <= j < windows(bytes, start).len(),
        windows(bytes, start)[j].0 <= i < windows(bytes, start)[j].1,
    decreases bytes.len() - start,
{
    lemma_window(bytes, start);
    let end = window_end(bytes, start);
    if i < end {
        0
    } else {
        let next = next_window(bytes, end);
        let j = lemma_windows_cover(bytes, next, i);
        assert(windows(bytes, start)[j + 1] == windows(bytes, next)[j]);
        j + 1
    }
}

proof fn lemma_section_cover(section: headings::SectionView, offset: int, i: int) -> (j: int)
    requires
        offset <= i < offset + encode_utf8(section.1).len(),
    ensures
        0 <= j < section_pieces(section, offset).len(),
        holds_byte(section_pieces(section, offset)[j], i),
{
    let bytes = encode_utf8(section.1);
    if bytes.len() <= target_bytes() {
        0
    } else {
        encode_utf8_valid_utf8(section.1);
        lemma_windows_cover(bytes, 0, i - offset)
    }
}

proof fn lemma_pieces_cover(sections: Seq<headings::SectionView>, i: int) -> (j: int)
    requires
        0 <= i < encode_utf8(headings::joined(sections)).len(),
    ensures
        0 <= j < pieces(sections).len(),
        holds_byte(pieces(sections)[j], i),
    decreases sections.len(),
{
    if sections.len() == 0 {
        assert(encode_utf8(headings::joined(sections)) =~= Seq::<u8>::empty());
        0
    } else {
        let shorter = sections.drop_last();
        let before = headings::joined(shorter);
        let offset = encode_utf8(before).len() as int;
        text::lemma_encode_concat(before, sections.last().1);
        if i < offset {
            let j = lemma_pieces_cover(shorter, i);
            assert(pieces(sections)[j] == pieces(shorter)[j]);
            j
        } else {
            let j = lemma_section_cover(sections.last(), offset, i);
            assert(pieces(sections)[pieces(shorter).len() + j] == section_pieces(
                sections.last(),
                offset,
            )[j]);
            pieces(shorter).len() + j
        }
    }
}

proof fn lemma_kept_contains(all: Seq<Piece>, j: int)
    requires
        0 <= j < all.len(),
        !white::blank(all[j].text),
    ensures
        kept(all).contains(all[j]),
    decreases all.len(),
{
    if j == all.len() - 1 {
        assert(kept(all).last() == all[j]);
    } else {
        lemma_kept_contains(all.drop_last(), j);
        let sub = kept(all.drop_last());
        let k = choose|k: int| 0 <= k < sub.len() && sub[k] == all[j];
        assert(kept(all)[k] == all[j]);
    }
}

/// No byte of a text is left out: it stands in a piece that became a chunk, or in a piece
/// that is blank.
pub proof fn law_chunks_cover_text(text: Seq<char>, i: int)
    requires
        0 <= i < encode_utf8(text).len(),
    ensures
        exists|piece: Piece| #[trigger]
            holds_byte(piece, i) && piece_fits(piece, text) && (text_pieces(text).contains(piece)
                || white::blank(piece.text)),
{
    headings::law_sections_cover_text(text);
    let secs = headings::sections(text);
    let j = lemma_pieces_cover(secs, i);
    lemma_pieces_fit(secs, Seq::empty());
    assert(text + Seq::<char>::empty() =~= text);
    let piece = pieces(secs)[j];
    assert(piece_fits(piece, text));
    if !white::blank(piece.text) {
        lemma_kept_contains(pieces(secs), j);
    }
    assert(holds_byte(piece, i));
}

/// A window that does not end where the bytes end is as long as it can be.
proof fn lemma_windows_full(bytes: Seq<u8>, start: int, i: int)
    requires
        valid_utf8(bytes),
        0 <= start <= bytes.len(),
        0 <= i < windows(bytes, start).len(),
    ensures
        ({
            let w = windows(bytes, start)[i];
            &&& 0 <= w.0 <= bytes.len()
            &&& 0 <= w.1 <= bytes.len()
            &&& w.1 == bytes.len() || w.1 - w.0 > 7996
        }),
    decreases i,
{
    lemma_window(bytes, start);
    let limit = text::min_int(start + target_bytes(), bytes.len() as int);
    text::lemma_floor_boundary_near(bytes, limit);
    is_char_boundary_start_end_of_seq(bytes);
    let end = window_end(bytes, start);
    if i > 0 {
        let next = next_window(bytes, end);
        assert(windows(bytes, start)[i] == windows(bytes, next)[i - 1]);
        lemma_windows_full(bytes, next, i - 1);
    }
}

/// Where a section begins, in bytes.
pub open spec fn section_start(sections: Seq<headings::SectionView>, j: int) -> int {
    encode_utf8(headings::joined(sections.take(j))).len() as int
}

/// The section that a piece is of.
proof fn lemma_piece_section(sections: Seq<headings::SectionView>, i: int) -> (j: int)
    requires
        0 <= i < pieces(sections).len(),
    ensures
        0 <= j < sections.len(),
        ({
            let p = pieces(sections)[i];
            let from = section_start(sections, j);
            let to = from + encode_utf8(sections[j].1).len();
            &&& p.title == sections[j].0
            &&& from <= p.start
            &&& p.end <= to
            &&& p.end == to || p.end - p.start > 7996
        }),
    decreases sections.len(),
{
    let shorter = sections.drop_last();
    if i < pieces(shorter).len() {
        let j = lemma_piece_section(shorter, i);
        assert(pieces(sections)[i] == pieces(shorter)[i]);
        assert(shorter.take(j) =~= sections.take(j));
        j
    } else {
        let j = sections.len() - 1;
        let k = i - pieces(shorter).len();
        let last = sections.last();
        assert(sections.take(j) =~= shorter);
        let offset = section_start(sections, j);
        assert(pieces(sections)[i] == section_pieces(last, offset)[k]);
        let bytes = encode_utf8(last.1);
        if bytes.len() > target_bytes() {
            encode_utf8_valid_utf8(last.1);
            lemma_windows_full(bytes, 0, k);
        }
        j
    }
}

proof fn lemma_kept_from(all: Seq<Piece>, i: int) -> (j: int)
    requires
        0 <= i < kept(all).len(),
    ensures
        0 <= j < all.len(),
        kept(all)[i] == all[j],
    decreases all.len(),
{
    let shorter = all.drop_last();
    if i < kept(shorter).len() {
        assert(kept(all)[i] == kept(shorter)[i]);
        let j = lemma_kept_from(shorter, i);
        j
    } else {
        all.len() - 1
    }
}

/// Every chunk of a text carries the title of the section that it lies in, the source, and
/// its number behind the name. It has at most 8000 bytes, and nearly that many unless it
/// reaches to the end of its section. Four bytes count as a token, and what is left over as
/// one more.
pub proof fn law_chunks_carry_titles(
    text: Seq<char>,
    name: Seq<char>,
    source: Option<Seq<char>>,
    base: int,
    first: nat,
    i: int,
) -> (j: int)
    requires
        0 <= i < text_chunks(text, name, source, base, first).len(),
    ensures
        0 <= j < headings::sections(text).len(),
        ({
            let c = text_chunks(text, name, source, base, first)[i];
            let section = headings::sections(text)[j];
            let from = base + section_start(headings::sections(text), j);
            let to = from + encode_utf8(section.1).len();
            let n = c.end - c.start;
            &&& from <= c.start < c.end <= to
            &&& c.section_path == section.0
            &&& c.source_file == source
            &&& c.id == name + seq![':'] + decimal::zero_padded(
                decimal::decimal((first + i) as nat),
                4,
            )
            &&& n <= 8000
            &&& c.end == to || n > 7996
            &&& 4 * c.token_count - 4 < n <= 4 * c.token_count
        }),
{
    let secs = headings::sections(text);
    law_chunks_point_into_text(text, name, source, base, first, i);
    let p = lemma_kept_from(pieces(secs), i);
    lemma_piece_section(secs, p)
}

/// Of two windows, the later one begins later.
proof fn lemma_windows_ordered(bytes: Seq<u8>, start: int, i: int, k: int)
    requires
        valid_utf8(bytes),
        0 <= start <= bytes.len(),
        0 <= i < k < windows(bytes, start).len(),
    ensures
        windows(bytes, start)[i].0 < windows(bytes, start)[k].0,
    decreases k,
{
    law_windows_overlap(bytes, start, k - 1);
    if i < k - 1 {
        lemma_windows_ordered(bytes, start, i, k - 1);
    }
}

/// Of two pieces, the later one begins later, or where the earlier one has ended.
proof fn lemma_pieces_ordered(sections: Seq<headings::SectionView>, a: int, b: int)
    requires
        0 <= a < b < pieces(sections).len(),
    ensures
        ({
            let (p, q) = (pieces(sections)[a], pieces(sections)[b]);
            p.start < q.start || p.end <= q.start
        }),
    decreases sections.len(),
{
    let shorter = sections.drop_last();
    let n = pieces(shorter).len() as int;
    let last = sections.last();
    let offset = encode_utf8(headings::joined(shorter)).len() as int;
    let here = section_pieces(last, offset);
    let bytes = encode_utf8(last.1);
    encode_utf8_valid_utf8(last.1);
    if b < n {
        assert(pieces(sections)[a] == pieces(shorter)[a]);
        assert(pieces(sections)[b] == pieces(shorter)[b]);
        lemma_pieces_ordered(shorter, a, b);
    } else {
        assert(pieces(sections)[b] == here[b - n]);
        if bytes.len() > target_bytes() {
            lemma_windows_full(bytes, 0, b - n);
        }
        if a < n {
            assert(pieces(sections)[a] == pieces(shorter)[a]);
            let j = lemma_piece_section(shorter, a);
            headings::lemma_joined_take(shorter, j, j);
            headings::lemma_joined_prefix_of(shorter, j + 1);
            let upto = headings::joined(shorter.take(j + 1));
            let whole = headings::joined(shorter);
            text::lemma_encode_concat(headings::joined(shorter.take(j)), shorter[j].1);
            text::lemma_encode_monotonic(whole, upto.len() as int, whole.len() as int);
        } else {
            assert(pieces(sections)[a] == here[a - n]);
            lemma_windows_ordered(bytes, 0, a - n, b - n);
        }
    }
}

/// Pieces that are kept keep their order.
proof fn lemma_kept_pair(all: Seq<Piece>, i: int, k: int) -> (r: (int, int))
    requires
        0 <= i < k < kept(all).len(),
    ensures
        0 <= r.0 < r.1 < all.len(),
        kept(all)[i] == all[r.0],
        kept(all)[k] == all[r.1],
    decreases all.len(),
{
    let shorter = all.drop_last();
    if k < kept(shorter).len() {
        let r = lemma_kept_pair(shorter, i, k);
        assert(kept(all)[i] == kept(shorter)[i] && kept(all)[k] == kept(shorter)[k]);
        r
    } else {
        let a = lemma_kept_from(shorter, i);
        assert(kept(all)[i] == kept(shorter)[i]);
        (a, all.len() - 1)
    }
}

/// The chunks of a text stand in the order of the text: each begins behind the beginning of
/// those before it.
pub proof fn law_chunks_in_order(
    text: Seq<char>,
    name: Seq<char>,
    source: Option<Seq<char>>,
    base: int,
    first: nat,
    i: int,
    k: int,
)
    requires
        0 <= i < k < text_chunks(text, name, source, base, first).len(),
    ensures
        text_chunks(text, name, source, base, first)[i].start < text_chunks(
            text,
            name,
            source,
            base,
            first,
        )[k].start,
{
    let secs = headings::sections(text);
    let (a, b) = lemma_kept_pair(pieces(secs), i, k);
    lemma_pieces_ordered(secs, a, b);
    law_chunks_point_into_text(text, name, source, base, first, i);
}

/// A section of at most 8000 bytes that is not blank is one chunk, with its title.
pub proof fn law_short_section_is_one_chunk(
    text: Seq<char>,
    name: Seq<char>,
    source: Option<Seq<char>>,
    base: int,
    first: nat,
    j: int,
) -> (i: int)
    requires
        0 <= j < headings::sections(text).len(),
        encode_utf8(headings::sections(text)[j].1).len() <= 8000,
        !white::blank(headings::sections(text)[j].1),
    ensures
        0 <= i < text_chunks(text, name, source, base, first).len(),
        ({
            let c = text_chunks(text, name, source, base, first)[i];
            let section = headings::sections(text)[j];
            let from = base + section_start(headings::sections(text), j);
            &&& c.start == from
            &&& c.end == from + encode_utf8(section.1).len()
            &&& c.section_path == section.0
        }),
{
    let secs = headings::sections(text);
    let upto = secs.take(j + 1);
    assert(upto.drop_last() =~= secs.take(j));
    let rest = lemma_pieces_prefix(secs, j + 1);
    let k = pieces(secs.take(j)).len() as int;
    let here = section_pieces(secs[j], section_start(secs, j));
    assert(pieces(upto) == pieces(secs.take(j)) + here);
    assert(pieces(secs)[k] == here[0]);
    lemma_kept_contains(pieces(secs), k);
    let i = choose|i: int| 0 <= i < text_pieces(text).len() && text_pieces(text)[i] == here[0];
    i
}

/// Every character of a text that is not white space stands in a chunk.
pub proof fn law_visible_text_is_chunked(
    text: Seq<char>,
    name: Seq<char>,
    source: Option<Seq<char>>,
    base: int,
    first: nat,
    m: int,
) -> (i: int)
    requires
        0 <= m < text.len(),
        !white::white_space(text[m]),
    ensures
        0 <= i < text_chunks(text, name, source, base, first).len(),
        ({
            let c = text_chunks(text, name, source, base, first)[i];
            let p = base + encode_utf8(text.take(m)).len();
            c.start <= p < c.end
        }),
{
    let bytes = encode_utf8(text);
    let p = encode_utf8(text.take(m)).len() as int;
    text::lemma_encode_monotonic(text, m, m + 1);
    law_chunks_cover_text(text, p);
    let piece = choose|piece: Piece| #[trigger]
        holds_byte(piece, p) && piece_fits(piece, text) && (text_pieces(text).contains(piece)
            || white::blank(piece.text));
    let a = text::lemma_boundary_char(text, piece.start);
    let b = text::lemma_boundary_char(text, piece.end);
    if m < a {
        text::lemma_encode_monotonic(text, m, a);
    }
    if b <= m {
        text::lemma_encode_monotonic(text, b, m);
    }
    text::lemma_encode_range(text, a, b);
    assert(piece.text[m - a] == text[m]);
    let i = choose|i: int| 0 <= i < text_pieces(text).len() && text_pieces(text)[i] == piece;
    i
}

// ---------------------------------------------------------------------------
// Code
// ---------------------------------------------------------------------------

/// Adds the chunk with this range and text, unless the text is blank. Its number is
/// `id_start` and the number of chunks before it.
pub fn push_chunk(
    chunks: &mut Vec<Chunk>,
    ctx_name: &str,
    id_start: usize,
    source_file: Option<String>,
    section_path: Option<String>,
    start: usize,
    end: usize,
    text: &str,
)
    requires
        !white::blank(text@) ==> id_start + old(chunks)@.len() <= usize::MAX,
    ensures
        chunk_views(final(chunks)@) == if white::blank(text@) {
            chunk_views(old(chunks)@)
        } else {
            chunk_views(old(chunks)@).push(
                ChunkView {
                    id: chunk_id(ctx_name@, (id_start + old(chunks)@.len()) as nat),
                    start: start as int,
                    end: end as int,
                    token_count: tokens(encode_utf8(text@).len() as int),
                    section_path: text::opt_view(section_path),
                    source_file: text::opt_view(source_file),
                },
            )
        },
{
    if is_blank(text) {
        return ;
    }
    let mut id: String = ctx_name.to_owned();
    proof {
        reveal_strlit(":");
    }
    id.append(":");
    let number: String = four_digits(id_start + chunks.len());
    id.append(number.as_str());
    assert(id@ =~= chunk_id(ctx_name@, (id_start + chunks@.len()) as nat));
    let n: usize = byte_len(text);
    let token_count: usize = if n % CHARS_PER_TOKEN == 0 {
        n / CHARS_PER_TOKEN
    } else {
        n / CHARS_PER_TOKEN + 1
    };
    let ghost before = chunks@;
    chunks.push(
        Chunk { id, byte_range: (start, end), token_count, section_path, source_file },
    );
    assert(chunk_views(chunks@) =~= chunk_views(before).push(chunks@.last()@));
}

/// Adds the chunks of the windows over a section that is longer than a target. The
/// section's body begins at byte `at` of the blob; the pieces `earlier` are done.
fn push_windows(
    chunks: &mut Vec<Chunk>,
    ctx_name: &str,
    id_start: usize,
    source_file: &Option<String>,
    title: &Option<String>,
    at: usize,
    body: &str,
    Ghost(base): Ghost<int>,
    Ghost(earlier): Ghost<Seq<Piece>>,
)
    requires
        encode_utf8(body@).len() > target_bytes(),
        at + encode_utf8(body@).len() <= usize::MAX,
        ({
            let here = section_pieces((text::opt_view(*title), body@), at - base);
            id_start + kept(earlier + here).len() <= usize::MAX + 1
        }),
        chunk_views(old(chunks)@) == numbered(
            kept(earlier),
            ctx_name@,
            text::opt_view(*source_file),
            base,
            id_start as nat,
        ),
    ensures
        ({
            let here = section_pieces((text::opt_view(*title), body@), at - base);
            chunk_views(final(chunks)@) == numbered(
                kept(earlier + here),
                ctx_name@,
                text::opt_view(*source_file),
                base,
                id_start as nat,
            )
        }),
{
    let target: usize = CHUNK_TOKEN_TARGET * CHARS_PER_TOKEN;
    let overlap: usize = CHUNK_OVERLAP_TOKENS * CHARS_PER_TOKEN;
    let n: usize = byte_len(body);
    let ghost name = ctx_name@;
    let ghost source = text::opt_view(*source_file);
    let ghost first = id_start as nat;
    let ghost sec: headings::SectionView = (text::opt_view(*title), body@);
    let ghost bytes = encode_utf8(body@);
    let ghost all = windows(bytes, 0);
    let ghost here = section_pieces(sec, at - base);
    let ghost mut done: int = 0;
    let mut start: usize = 0;
    proof {
        encode_utf8_valid_utf8(body@);
        is_char_boundary_start_end_of_seq(bytes);
        assert(all.skip(0) =~= all);
        assert(earlier + here.take(0) =~= earlier);
    }
    while start < n
        invariant
            sec == (text::opt_view(*title), body@),
            bytes == encode_utf8(body@),
            valid_utf8(bytes),
            n == bytes.len(),
            n > target,
            target == target_bytes(),
            overlap == overlap_bytes(),
            here.len() == all.len(),
            forall|j: int|
                0 <= j < all.len() ==> #[trigger] here[j] == window_piece(sec, at - base, all[j]),
            at + n <= usize::MAX,
            id_start + kept(earlier + here).len() <= usize::MAX + 1,
            name == ctx_name@,
            source == text::opt_view(*source_file),
            first == id_start,
            0 <= done <= all.len(),
            start < n ==> all.skip(done) == windows(bytes, start as int),
            start >= n ==> done == all.len(),
            is_char_boundary(bytes, start as int),
            start <= n,
            chunk_views(chunks@) == numbered(
                kept(earlier + here.take(done)),
                name,
                source,
                base,
                first,
            ),
        decreases n - start,
    {
        let end: usize = if n - start > target {
            start + target
        } else {
            n
        };
        let snap: usize = snap_down(body, end);
        let ghost w = windows(bytes, start as int);
        let ghost so_far = earlier + here.take(done);
        proof {
            lemma_window(bytes, start as int);
            assert(snap == window_end(bytes, start as int));
            assert(w.len() > 0 && w[0] == (start as int, snap as int));
            assert(all.skip(done).len() > 0);
            assert(all.skip(done)[0] == all[done]);
            let p = here[done];
            assert(earlier + here.take(done + 1) =~= so_far.push(p));
            lemma_numbered_push(so_far, p, name, source, base, first);
            assert(so_far.push(p).drop_last() =~= so_far);
            assert(earlier + here =~= so_far.push(p) + here.skip(done + 1));
            lemma_kept_concat(so_far.push(p), here.skip(done + 1));
            assert(chunks@.len() == chunk_views(chunks@).len());
        }
        let part: &str = slice(body, start, snap);
        push_chunk(
            chunks,
            ctx_name,
            id_start,
            source_file.clone(),
            title.clone(),
            at + start,
            at + snap,
            part,
        );
        if snap == n {
            proof {
                assert(w.len() == 1);
                assert(done + 1 == all.len());
                done = done + 1;
                is_char_boundary_start_end_of_seq(bytes);
            }
            start = n;
        } else {
            proof {
                assert(w.skip(1) =~= windows(bytes, next_window(bytes, snap as int)));
                assert(all.skip(done + 1) =~= w.skip(1));
                done = done + 1;
            }
            start = snap_down(body, snap - overlap);
        }
    }
    proof {
        assert(here.take(done) =~= here);
    }
}

/// Cuts a text into chunks. The text begins at byte `base_offset` of the context's blob
/// and its first chunk is number `chunk_id_start`.
pub fn chunk_text_with_offset(
    text: &str,
    ctx_name: &str,
    source_file: Option<String>,
    base_offset: usize,
    chunk_id_start: usize,
) -> (r: Vec<Chunk>)
    requires
        base_offset + encode_utf8(text@).len() <= usize::MAX,
        chunk_id_start + text_pieces(text@).len() <= usize::MAX + 1,
    ensures
        chunk_views(r@) == text_chunks(
            text@,
            ctx_name@,
            text::opt_view(source_file),
            base_offset as int,
            chunk_id_start as nat,
        ),
{
    let mut chunks: Vec<Chunk> = Vec::new();
    let list: Vec<(Option<String>, &str)> = split_on_headings(text);
    let ghost secs = headings::sections(text@);
    let ghost name = ctx_name@;
    let ghost source = text::opt_view(source_file);
    let ghost base = base_offset as int;
    let ghost first = chunk_id_start as nat;
    let mut offset: usize = 0;
    let mut i: usize = 0;
    proof {
        headings::law_sections_cover_text(text@);
        assert(secs.take(0) =~= Seq::<headings::SectionView>::empty());
        assert(headings::joined(secs.take(0)) =~= Seq::<char>::empty());
        assert(encode_utf8(headings::joined(secs.take(0))) =~= Seq::<u8>::empty());
        assert(chunk_views(chunks@) =~= numbered(
            kept(pieces(secs.take(0))),
            name,
            source,
            base,
            first,
        ));
    }
    while i < list.len()
        invariant
            i <= list@.len(),
            headings::section_views(list@) == secs,
            headings::joined(secs) == text@,
            offset == encode_utf8(headings::joined(secs.take(i as int))).len(),
            base_offset + encode_utf8(text@).len() <= usize::MAX,
            chunk_id_start + kept(pieces(secs)).len() <= usize::MAX + 1,
            name == ctx_name@,
            source == text::opt_view(source_file),
            base == base_offset,
            first == chunk_id_start,
            chunk_views(chunks@) == numbered(
                kept(pieces(secs.take(i as int))),
                name,
                source,
                base,
                first,
            ),
        decreases list@.len() - i,
    {
        let body: &str = list[i].1;
        let n: usize = byte_len(body);
        let ghost sec = secs[i as int];
        let ghost here = section_pieces(sec, offset as int);
        let ghost earlier = pieces(secs.take(i as int));
        proof {
            assert(sec == (text::opt_view(list@[i as int].0), body@));
            assert(secs.take(i + 1).drop_last() =~= secs.take(i as int));
            assert(headings::joined(secs.take(i + 1)) == headings::joined(secs.take(i as int))
                + body@);
            text::lemma_encode_concat(headings::joined(secs.take(i as int)), body@);
            lemma_joined_prefix(secs, i + 1);
            lemma_kept_bound(secs, i + 1);
            assert(pieces(secs.take(i + 1)) == earlier + here);
            assert(chunks@.len() == chunk_views(chunks@).len());
        }
        if n <= CHUNK_TOKEN_TARGET * CHARS_PER_TOKEN {
            proof {
                let p = here[0];
                assert(earlier + here =~= earlier.push(p));
                lemma_numbered_push(earlier, p, name, source, base, first);
                assert(earlier.push(p).drop_last() =~= earlier);
            }
            push_chunk(
                &mut chunks,
                ctx_name,
                chunk_id_start,
                source_file.clone(),
                list[i].0.clone(),
                base_offset + offset,
                base_offset + offset + n,
                body,
            );
        } else {
            push_windows(
                &mut chunks,
                ctx_name,
                chunk_id_start,
                &source_file,
                &list[i].0,
                base_offset + offset,
                body,
                Ghost(base),
                Ghost(earlier),
            );
        }
        offset += n;
        i += 1;
    }
    proof {
        assert(secs.take(i as int) =~= secs);
    }
    chunks
}

/// Cuts a text that is a whole context into chunks.
pub fn chunk_text(text: &str, ctx_name: &str, source_file: Option<String>) -> (r: Vec<Chunk>)
    ensures
        chunk_views(r@) == text_chunks(
            text@,
            ctx_name@,
            text::opt_view(source_file),
            0,
            0,
        ),
{
    // The text is in memory, so its bytes can be counted.
    let _total: usize = byte_len(text);
    proof {
        lemma_text_pieces(text@);
    }
    chunk_text_with_offset(text, ctx_name, source_file, 0, 0)
}

} // verus!
