//! Previews of a match within a text.
use vstd::prelude::*;
use vstd::string::*;
use vstd::utf8::*;

use crate::text;
use crate::text::{byte_len, slice, snap_down, snap_up, str_eq, take_chars};

verus! {

/// The bytes of a text that a preview shows: the match with half a window on each side, as
/// far as the text goes, widened to character boundaries.
pub open spec fn preview_range(
    bytes: Seq<u8>,
    match_start: int,
    match_len: int,
    window: int,
) -> (int, int) {
    let from = if match_start >= window / 2 {
        match_start - window / 2
    } else {
        0
    };
    let to = text::min_int(match_start + match_len + window / 2, bytes.len() as int);
    (text::floor_boundary(bytes, from), text::ceil_boundary(bytes, to))
}

/// The preview of a match: what [`preview_range`] shows, with an ellipsis on each side
/// where the text goes on.
pub open spec fn preview(
    text: Seq<char>,
    match_start: int,
    match_len: int,
    window: int,
) -> Seq<char> {
    let bytes = encode_utf8(text);
    let (a, b) = preview_range(bytes, match_start, match_len, window);
    let shown = decode_utf8(bytes.subrange(a, b));
    let head = if a > 0 {
        seq!['\u{2026}']
    } else {
        Seq::empty()
    };
    let tail = if b < bytes.len() {
        seq!['\u{2026}']
    } else {
        Seq::empty()
    };
    head + shown + tail
}

/// The preview of a match that a hit shows: as [`preview`], but never the text itself. Where
/// that would be the text, its last character is left out, or its first if the match
/// reaches into the last. A match that reaches into both is shown with an ellipsis behind
/// it.
pub open spec fn match_preview(
    text: Seq<char>,
    match_start: int,
    match_len: int,
    window: int,
) -> Seq<char> {
    let shown = preview(text, match_start, match_len, window);
    let end = match_start + match_len;
    if shown != text {
        shown
    } else if text.len() == 0 {
        seq!['\u{2026}']
    } else if end <= encode_utf8(text.drop_last()).len() || end > encode_utf8(text).len() {
        text.drop_last()
    } else if match_start >= encode_utf8(text.take(1)).len() {
        text.drop_first()
    } else {
        text.push('\u{2026}')
    }
}

/// How a text begins: its first `n` characters, but never all of it.
pub open spec fn opening(text: Seq<char>, n: int) -> Seq<char> {
    if text.len() == 0 {
        text
    } else {
        text.take(text::min_int(n, text.len() - 1))
    }
}

/// What a preview shows lies within the text, between character boundaries.
pub proof fn lemma_preview_range(
    bytes: Seq<u8>,
    match_start: int,
    match_len: int,
    window: int,
)
    requires
        valid_utf8(bytes),
        0 <= match_start,
        0 <= match_len,
        0 <= window,
    ensures
        ({
            let (a, b) = preview_range(bytes, match_start, match_len, window);
            &&& 0 <= a <= b <= bytes.len()
            &&& is_char_boundary(bytes, a)
            &&& is_char_boundary(bytes, b)
            &&& valid_utf8(bytes.subrange(a, b))
            &&& match_start + match_len <= bytes.len() ==> a <= match_start && match_start
                + match_len <= b
        }),
{
    let from = if match_start >= window / 2 {
        match_start - window / 2
    } else {
        0
    };
    let to = text::min_int(match_start + match_len + window / 2, bytes.len() as int);
    text::lemma_floor_boundary(bytes, from);
    text::lemma_ceil_boundary(bytes, to);
    let (a, b) = preview_range(bytes, match_start, match_len, window);
    text::lemma_slice_valid(bytes, a, b);
}

proof fn lemma_ceil_boundary_near(bytes: Seq<u8>, i: int)
    requires
        valid_utf8(bytes),
        0 <= i <= bytes.len(),
    ensures
        text::ceil_boundary(bytes, i) <= i + 3,
{
    text::lemma_ceil_boundary(bytes, i);
    let c = text::ceil_boundary(bytes, i);
    if c > i {
        // The byte before the boundary belongs to a character that begins before `i`.
        text::lemma_floor_boundary(bytes, c - 1);
        text::lemma_floor_boundary_near(bytes, c - 1);
        let f = text::floor_boundary(bytes, c - 1);
        if f >= i {
            assert(!is_char_boundary(bytes, f));
        }
    }
}

/// A preview is short: it has no more characters than the match has bytes, a window, three
/// bytes on each side and the two ellipses.
pub proof fn law_preview_is_short(
    text: Seq<char>,
    match_start: int,
    match_len: int,
    window: int,
)
    requires
        0 <= match_start,
        0 <= match_len,
        0 <= window,
    ensures
        preview(text, match_start, match_len, window).len() <= match_len + window + 8,
{
    let bytes = encode_utf8(text);
    encode_utf8_valid_utf8(text);
    lemma_preview_range(bytes, match_start, match_len, window);
    let (a, b) = preview_range(bytes, match_start, match_len, window);
    let from = if match_start >= window / 2 {
        match_start - window / 2
    } else {
        0
    };
    let to = text::min_int(match_start + match_len + window / 2, bytes.len() as int);
    lemma_ceil_boundary_near(bytes, to);
    if from <= bytes.len() {
        text::lemma_floor_boundary_near(bytes, from);
    } else {
        lemma_floor_past_end(bytes, from);
    }
    let shown = decode_utf8(bytes.subrange(a, b));
    decode_utf8_encode_utf8(bytes.subrange(a, b));
    text::lemma_encode_len(shown);
}

proof fn lemma_floor_past_end(bytes: Seq<u8>, i: int)
    requires
        valid_utf8(bytes),
        bytes.len() <= i,
    ensures
        text::floor_boundary(bytes, i) == bytes.len(),
    decreases i,
{
    is_char_boundary_start_end_of_seq(bytes);
    if i > bytes.len() {
        lemma_floor_past_end(bytes, i - 1);
    }
}

/// A preview shows the match: if the match lies within the text, what stands there stands
/// in the preview.
pub proof fn law_preview_shows_match(
    text: Seq<char>,
    match_start: int,
    match_len: int,
    window: int,
)
    requires
        0 <= match_start,
        0 <= match_len,
        0 <= window,
        match_start + match_len <= encode_utf8(text).len(),
    ensures
        ({
            let found = encode_utf8(text).subrange(match_start, match_start + match_len);
            let shown = encode_utf8(preview(text, match_start, match_len, window));
            exists|i: int|
                0 <= i && i + found.len() <= shown.len() && #[trigger] shown.subrange(
                    i,
                    i + found.len(),
                ) == found
        }),
{
    let bytes = encode_utf8(text);
    encode_utf8_valid_utf8(text);
    lemma_preview_range(bytes, match_start, match_len, window);
    let (a, b) = preview_range(bytes, match_start, match_len, window);
    let middle = bytes.subrange(a, b);
    decode_utf8_encode_utf8(middle);
    let head: Seq<char> = if a > 0 {
        seq!['\u{2026}']
    } else {
        Seq::empty()
    };
    let tail: Seq<char> = if b < bytes.len() {
        seq!['\u{2026}']
    } else {
        Seq::empty()
    };
    text::lemma_encode_concat(head + decode_utf8(middle), tail);
    text::lemma_encode_concat(head, decode_utf8(middle));
    let found = bytes.subrange(match_start, match_start + match_len);
    let shown = encode_utf8(preview(text, match_start, match_len, window));
    let i = encode_utf8(head).len() + match_start - a;
    assert(shown.subrange(i, i + found.len()) =~= found);
}

/// A preview shows the match in its surroundings: half a window of bytes on each side, as far
/// as the text goes.
pub proof fn law_preview_shows_context(
    text: Seq<char>,
    match_start: int,
    match_len: int,
    window: int,
)
    requires
        0 <= match_start,
        0 <= match_len,
        0 <= window,
        match_start + match_len <= encode_utf8(text).len(),
    ensures
        ({
            let bytes = encode_utf8(text);
            let from = if match_start - window / 2 > 0 {
                match_start - window / 2
            } else {
                0
            };
            let to = if match_start + match_len + window / 2 < bytes.len() {
                match_start + match_len + window / 2
            } else {
                bytes.len() as int
            };
            stands_in(
                bytes.subrange(from, to),
                encode_utf8(preview(text, match_start, match_len, window)),
            )
        }),
{
    let bytes = encode_utf8(text);
    encode_utf8_valid_utf8(text);
    lemma_preview_range(bytes, match_start, match_len, window);
    let (a, b) = preview_range(bytes, match_start, match_len, window);
    let from = if match_start - window / 2 > 0 {
        match_start - window / 2
    } else {
        0
    };
    let to = text::min_int(match_start + match_len + window / 2, bytes.len() as int);
    text::lemma_floor_boundary(bytes, from);
    text::lemma_ceil_boundary(bytes, to);
    let middle = bytes.subrange(a, b);
    decode_utf8_encode_utf8(middle);
    let head: Seq<char> = if a > 0 {
        seq!['\u{2026}']
    } else {
        Seq::empty()
    };
    let tail: Seq<char> = if b < bytes.len() {
        seq!['\u{2026}']
    } else {
        Seq::empty()
    };
    text::lemma_encode_concat(head + decode_utf8(middle), tail);
    text::lemma_encode_concat(head, decode_utf8(middle));
    let part = bytes.subrange(from, to);
    let shown = encode_utf8(preview(text, match_start, match_len, window));
    let i = encode_utf8(head).len() + from - a;
    assert(shown.subrange(i, i + part.len()) =~= part);
}

/// A preview begins as the text does if no more than half a window stands before the match,
/// and with an ellipsis if four bytes more than that do; and likewise at its end.
pub proof fn law_preview_ends(
    text: Seq<char>,
    match_start: int,
    match_len: int,
    window: int,
)
    requires
        0 <= match_start,
        0 <= match_len,
        0 <= window,
        match_len > 0 || window >= 2,
        match_start + match_len <= encode_utf8(text).len(),
        text.len() > 0,
    ensures
        ({
            let p = preview(text, match_start, match_len, window);
            let n = encode_utf8(text).len();
            &&& p.len() > 0
            &&& match_start <= window / 2 ==> p[0] == text[0]
            &&& match_start >= window / 2 + 4 ==> p[0] == '\u{2026}'
            &&& match_start + match_len + window / 2 >= n ==> p.last() == text.last()
            &&& match_start + match_len + window / 2 + 4 <= n ==> p.last() == '\u{2026}'
        }),
{
    let bytes = encode_utf8(text);
    encode_utf8_valid_utf8(text);
    text::lemma_encode_len(text);
    lemma_preview_range(bytes, match_start, match_len, window);
    let (a, b) = preview_range(bytes, match_start, match_len, window);
    let from = if match_start >= window / 2 {
        match_start - window / 2
    } else {
        0
    };
    let to = text::min_int(match_start + match_len + window / 2, bytes.len() as int);
    text::lemma_floor_boundary(bytes, from);
    text::lemma_floor_boundary_near(bytes, from);
    text::lemma_ceil_boundary(bytes, to);
    lemma_ceil_boundary_near(bytes, to);
    let x = text::lemma_boundary_char(text, a);
    let y = text::lemma_boundary_char(text, b);
    if y < x {
        text::lemma_encode_monotonic(text, y, x);
    }
    text::lemma_encode_range(text, x, y);
    text::lemma_encode_len(text.take(x));
    if y < text.len() {
        text::lemma_encode_monotonic(text, y, text.len() as int);
    }
    assert(text.take(text.len() as int) =~= text);
    let shown = text.subrange(x, y);
    assert(a < b);
    assert(decode_utf8(bytes.subrange(a, b)) == shown);
    assert(shown.len() > 0);
    if a == 0 {
        assert(shown[0] == text[0]);
    }
    if b == bytes.len() {
        assert(shown.last() == text.last());
    }
}

/// Whether bytes stand in bytes.
pub open spec fn stands_in(part: Seq<u8>, whole: Seq<u8>) -> bool {
    exists|i: int|
        0 <= i && i + part.len() <= whole.len() && #[trigger] whole.subrange(i, i + part.len())
            == part
}

/// The preview of a match that a hit shows is never the text itself; it shows the match, if
/// the match lies within the text; and it is short.
pub proof fn law_match_preview(text: Seq<char>, match_start: int, match_len: int, window: int)
    requires
        0 <= match_start,
        0 <= match_len,
        0 <= window,
    ensures
        match_preview(text, match_start, match_len, window) != text,
        match_start + match_len <= encode_utf8(text).len() ==> stands_in(
            encode_utf8(text).subrange(match_start, match_start + match_len),
            encode_utf8(match_preview(text, match_start, match_len, window)),
        ),
        match_preview(text, match_start, match_len, window).len() <= match_len + window + 9,
{
    let shown = preview(text, match_start, match_len, window);
    let out = match_preview(text, match_start, match_len, window);
    let bytes = encode_utf8(text);
    let end = match_start + match_len;
    law_preview_is_short(text, match_start, match_len, window);
    if shown == text {
        assert(out.len() != text.len());
    }
    if end <= bytes.len() {
        let found = bytes.subrange(match_start, end);
        if shown != text {
            law_preview_shows_match(text, match_start, match_len, window);
        } else if text.len() == 0 {
            assert(bytes =~= Seq::<u8>::empty());
            assert(encode_utf8(out).subrange(0, 0) =~= found);
        } else if end <= encode_utf8(text.drop_last()).len() {
            assert(text =~= text.drop_last() + seq![text.last()]);
            text::lemma_encode_concat(text.drop_last(), seq![text.last()]);
            assert(encode_utf8(out).subrange(match_start, match_start + found.len()) =~= found);
        } else if match_start >= encode_utf8(text.take(1)).len() {
            let w = encode_utf8(text.take(1)).len() as int;
            assert(text =~= text.take(1) + text.drop_first());
            text::lemma_encode_concat(text.take(1), text.drop_first());
            let i = match_start - w;
            assert(encode_utf8(out).subrange(i, i + found.len()) =~= found);
        } else {
            text::lemma_encode_push(text, '\u{2026}');
            assert(encode_utf8(out).subrange(match_start, match_start + found.len()) =~= found);
        }
    }
}

/// Whether what is shown of a match has the text around it, `reach` bytes on each side as far
/// as the text goes. Of a text that is hardly longer than that, it may be all but the first
/// or the last character, or all with an ellipsis behind it.
pub open spec fn shows_around(
    text: Seq<char>,
    match_start: int,
    match_len: int,
    reach: int,
    shown: Seq<char>,
) -> bool {
    let bytes = encode_utf8(text);
    let from = if match_start - reach > 0 {
        match_start - reach
    } else {
        0
    };
    let to = if match_start + match_len + reach < bytes.len() {
        match_start + match_len + reach
    } else {
        bytes.len() as int
    };
    ||| stands_in(bytes.subrange(from, to), encode_utf8(shown))
    ||| text.len() <= match_len + 2 * reach + 8 && (shown == text.drop_last() || shown
        == text.drop_first() || shown == text.push('\u{2026}') || text.len() == 0)
}

/// What a hit shows of a match within a text is the match and the text around it.
pub proof fn law_match_preview_shows_around(
    text: Seq<char>,
    match_start: int,
    match_len: int,
    reach: int,
)
    requires
        0 <= match_start,
        0 <= match_len,
        0 <= reach,
        match_start + match_len <= encode_utf8(text).len(),
    ensures
        shows_around(
            text,
            match_start,
            match_len,
            reach,
            match_preview(text, match_start, match_len, 2 * reach),
        ),
{
    law_preview_shows_context(text, match_start, match_len, 2 * reach);
    law_preview_is_short(text, match_start, match_len, 2 * reach);
}

/// How a text begins is never all of it, unless it is empty.
pub proof fn law_opening(text: Seq<char>, n: int)
    requires
        0 <= n,
    ensures
        opening(text, n).len() <= n,
        text.len() > 0 ==> opening(text, n) != text,
        opening(text, n) == text.take(opening(text, n).len() as int),
        text.len() > n ==> opening(text, n) == text.take(n),
        0 < text.len() <= n ==> opening(text, n) == text.drop_last(),
{
    if text.len() == 0 {
        assert(text.take(0) =~= text);
    } else {
        assert(opening(text, n).len() < text.len());
    }
}

/// Writes how a text begins, in `n` characters, but never all of it.
pub fn write_opening(text: &str, n: usize) -> (r: String)
    ensures
        r@ == opening(text@, n as int),
{
    let total: usize = text.unicode_len();
    if total == 0 {
        return text.to_owned();
    }
    let shown: usize = if n < total {
        n
    } else {
        total - 1
    };
    take_chars(text, shown)
}

/// Writes the preview of a match that a hit shows.
pub fn preview_match(text: &str, match_start: usize, match_len: usize, window: usize) -> (r:
    String)
    ensures
        r@ == match_preview(text@, match_start as int, match_len as int, window as int),
{
    let shown: String = preview_window(text, match_start, match_len, window);
    if !str_eq(shown.as_str(), text) {
        return shown;
    }
    proof {
        reveal_strlit("\u{2026}");
    }
    let total: usize = text.unicode_len();
    if total == 0 {
        let only: String = "\u{2026}".to_owned();
        assert(only@ =~= seq!['\u{2026}']);
        return only;
    }
    let n: usize = byte_len(text);
    let shorter: &str = text.substring_char(0, total - 1);
    let first: &str = text.substring_char(0, 1);
    assert(shorter@ =~= text@.drop_last());
    assert(first@ =~= text@.take(1));
    let past_end: bool = match_start > n || match_len > n - match_start;
    if past_end || match_start + match_len <= byte_len(shorter) {
        shorter.to_owned()
    } else if match_start >= byte_len(first) {
        let rest: &str = text.substring_char(1, total);
        assert(rest@ =~= text@.drop_first());
        rest.to_owned()
    } else {
        let mut out: String = shown;
        out.append("\u{2026}");
        assert(out@ =~= text@.push('\u{2026}'));
        out
    }
}

/// Writes the preview of a match that begins at byte `match_start` and has `match_len`
/// bytes, with a window of `window` bytes around it.
pub fn preview_window(text: &str, match_start: usize, match_len: usize, window: usize) -> (r:
    String)
    ensures
        r@ == preview(text@, match_start as int, match_len as int, window as int),
{
    let n: usize = byte_len(text);
    let from: usize = match_start.saturating_sub(window / 2);
    let reach: usize = match_start.saturating_add(match_len).saturating_add(window / 2);
    let to: usize = if reach < n {
        reach
    } else {
        n
    };
    proof {
        encode_utf8_valid_utf8(text@);
        lemma_preview_range(
            encode_utf8(text@),
            match_start as int,
            match_len as int,
            window as int,
        );
        reveal_strlit("\u{2026}");
    }
    let a: usize = snap_down(text, from);
    let b: usize = snap_up(text, to);
    let mut out: String = String::new();
    if a > 0 {
        out.append("\u{2026}");
    }
    out.append(slice(text, a, b));
    if b < n {
        out.append("\u{2026}");
    }
    assert(out@ =~= preview(text@, match_start as int, match_len as int, window as int));
    out
}

} // verus!
