//! Text as characters and as UTF-8 bytes.
//!
//! A `str` is seen as its sequence of characters (`s@`) and as the bytes that
//! `vstd::utf8::encode_utf8` gives for it. The lemmas here move between the two
//! views; the functions cut, copy and compare text with contracts over them.
use vstd::prelude::*;
use vstd::string::*;
use vstd::utf8::*;

verus! {

// ---------------------------------------------------------------------------
// Characters and bytes
// ---------------------------------------------------------------------------

/// An optional text as an optional sequence of characters.
pub open spec fn opt_view(o: Option<String>) -> Option<Seq<char>> {
    match o {
        Some(s) => Some(s@),
        None => None,
    }
}

/// The smaller of two integers.
pub open spec fn min_int(a: int, b: int) -> int {
    if a <= b {
        a
    } else {
        b
    }
}

/// Text followed by text is encoded as bytes followed by bytes.
pub proof fn lemma_encode_concat(a: Seq<char>, b: Seq<char>)
    ensures
        encode_utf8(a + b) == encode_utf8(a) + encode_utf8(b),
    decreases a.len(),
{
    if a.len() == 0 {
        assert(a + b =~= b);
        assert(encode_utf8(a) + encode_utf8(b) =~= encode_utf8(b));
    } else {
        assert((a + b).drop_first() =~= a.drop_first() + b);
        lemma_encode_concat(a.drop_first(), b);
        assert(encode_utf8(a + b) =~= encode_utf8(a) + encode_utf8(b));
    }
}

/// One more character adds its own encoding at the end.
pub proof fn lemma_encode_push(s: Seq<char>, c: char)
    ensures
        encode_utf8(s.push(c)) == encode_utf8(s) + encode_scalar(c as u32),
        1 <= encode_scalar(c as u32).len() <= 4,
{
    assert(s.push(c) =~= s + seq![c]);
    lemma_encode_concat(s, seq![c]);
    assert(seq![c].drop_first() =~= Seq::<char>::empty());
    assert(encode_utf8(seq![c].drop_first()) =~= Seq::<u8>::empty());
    assert(encode_utf8(seq![c]) =~= encode_scalar(c as u32));
}

/// Two texts with the same bytes are the same text.
pub proof fn lemma_encode_injective(a: Seq<char>, b: Seq<char>)
    requires
        encode_utf8(a) == encode_utf8(b),
    ensures
        a == b,
{
    encode_utf8_decode_utf8(a);
    encode_utf8_decode_utf8(b);
}

/// A text has no more characters than bytes, and is empty exactly when its bytes are.
pub proof fn lemma_encode_len(s: Seq<char>)
    ensures
        s.len() <= encode_utf8(s).len(),
        s.len() == 0 <==> encode_utf8(s).len() == 0,
    decreases s.len(),
{
    if s.len() > 0 {
        lemma_encode_len(s.drop_first());
    }
}

/// The place after the first `k` characters is a character boundary, and cuts the
/// bytes into those of the first `k` characters and those of the others.
pub proof fn lemma_encode_cut(s: Seq<char>, k: int)
    requires
        0 <= k <= s.len(),
    ensures
        ({
            let bytes = encode_utf8(s);
            let cut = encode_utf8(s.take(k)).len() as int;
            &&& 0 <= cut <= bytes.len()
            &&& is_char_boundary(bytes, cut)
            &&& bytes.subrange(0, cut) == encode_utf8(s.take(k))
            &&& bytes.subrange(cut, bytes.len() as int) == encode_utf8(s.skip(k))
        }),
{
    let bytes = encode_utf8(s);
    let head = encode_utf8(s.take(k));
    let tail = encode_utf8(s.skip(k));
    let cut = head.len() as int;
    assert(s.take(k) + s.skip(k) =~= s);
    lemma_encode_concat(s.take(k), s.skip(k));
    assert(bytes.subrange(0, cut) =~= head);
    assert(bytes.subrange(cut, bytes.len() as int) =~= tail);
    encode_utf8_valid_utf8(s);
    if k == s.len() {
        lemma_encode_len(s.skip(k));
        is_char_boundary_start_end_of_seq(bytes);
    } else {
        lemma_encode_len(s.skip(k));
        encode_utf8_first_scalar(s.skip(k));
        assert(bytes[cut] == tail[0]);
        is_char_boundary_iff_not_is_continuation_byte(bytes, cut);
        assert(!is_continuation_byte(tail[0]));
    }
}

/// The characters from `m` to `k` have the bytes between the places after the first
/// `m` and after the first `k` characters.
pub proof fn lemma_encode_range(s: Seq<char>, m: int, k: int)
    requires
        0 <= m <= k <= s.len(),
    ensures
        ({
            let a = encode_utf8(s.take(m)).len() as int;
            let b = encode_utf8(s.take(k)).len() as int;
            &&& 0 <= a <= b <= encode_utf8(s).len()
            &&& is_char_boundary(encode_utf8(s), a)
            &&& is_char_boundary(encode_utf8(s), b)
            &&& encode_utf8(s).subrange(a, b) == encode_utf8(s.subrange(m, k))
            &&& decode_utf8(encode_utf8(s).subrange(a, b)) == s.subrange(m, k)
            &&& b - a == encode_utf8(s.subrange(m, k)).len()
            &&& (a < b <==> m < k)
        }),
{
    let a = encode_utf8(s.take(m)).len() as int;
    let b = encode_utf8(s.take(k)).len() as int;
    lemma_encode_cut(s, m);
    lemma_encode_cut(s, k);
    assert(s.take(k) =~= s.take(m) + s.subrange(m, k));
    lemma_encode_concat(s.take(m), s.subrange(m, k));
    lemma_encode_len(s.subrange(m, k));
    assert(encode_utf8(s).subrange(a, b) =~= encode_utf8(s).subrange(0, b).subrange(a, b));
    assert(encode_utf8(s).subrange(a, b) =~= encode_utf8(s.subrange(m, k)));
    encode_utf8_decode_utf8(s.subrange(m, k));
}

/// The bytes between two character boundaries are valid UTF-8.
pub proof fn lemma_slice_valid(bytes: Seq<u8>, a: int, b: int)
    requires
        valid_utf8(bytes),
        is_char_boundary(bytes, a),
        is_char_boundary(bytes, b),
        a <= b,
    ensures
        0 <= a <= b <= bytes.len(),
        valid_utf8(bytes.subrange(0, b)),
        is_char_boundary(bytes.subrange(0, b), a),
        bytes.subrange(0, b).subrange(a, b) == bytes.subrange(a, b),
        valid_utf8(bytes.subrange(a, b)),
{
    lemma_boundary_range(bytes, a);
    lemma_boundary_range(bytes, b);
    valid_utf8_split(bytes, b);
    let head = bytes.subrange(0, b);
    if a == b {
        is_char_boundary_start_end_of_seq(head);
    } else {
        is_char_boundary_iff_not_is_continuation_byte(bytes, a);
        is_char_boundary_iff_not_is_continuation_byte(head, a);
        assert(head[a] == bytes[a]);
    }
    valid_utf8_split(head, a);
    assert(head.subrange(a, b) =~= bytes.subrange(a, b));
}

/// A character boundary lies within the bytes.
pub proof fn lemma_boundary_range(bytes: Seq<u8>, i: int)
    requires
        valid_utf8(bytes),
        is_char_boundary(bytes, i),
    ensures
        0 <= i <= bytes.len(),
{
}

/// A boundary of a slice is a boundary of the whole, shifted, and conversely.
pub proof fn lemma_slice_boundary(bytes: Seq<u8>, a: int, b: int, i: int)
    requires
        valid_utf8(bytes),
        is_char_boundary(bytes, a),
        is_char_boundary(bytes, b),
        a <= b,
        0 <= i <= b - a,
    ensures
        is_char_boundary(bytes.subrange(a, b), i) <==> is_char_boundary(bytes, a + i),
{
    lemma_slice_valid(bytes, a, b);
    let slice = bytes.subrange(a, b);
    if i == b - a {
        is_char_boundary_start_end_of_seq(slice);
    } else {
        assert(slice[i] == bytes[a + i]);
        is_char_boundary_iff_not_is_continuation_byte(slice, i);
        is_char_boundary_iff_not_is_continuation_byte(bytes, a + i);
    }
}

/// A character boundary is the place after some number of characters.
pub proof fn lemma_boundary_char(s: Seq<char>, p: int) -> (m: int)
    requires
        is_char_boundary(encode_utf8(s), p),
    ensures
        0 <= m <= s.len(),
        encode_utf8(s.take(m)).len() == p,
    decreases s.len(),
{
    let bytes = encode_utf8(s);
    encode_utf8_valid_utf8(s);
    lemma_boundary_range(bytes, p);
    if p == 0 {
        assert(s.take(0) =~= Seq::<char>::empty());
        assert(encode_utf8(s.take(0)) =~= Seq::<u8>::empty());
        0
    } else {
        lemma_encode_len(s);
        encode_utf8_first_scalar(s);
        let rest = s.drop_first();
        let w = encode_scalar(s[0] as u32).len() as int;
        assert(pop_first_scalar(bytes) =~= encode_utf8(rest));
        let m = lemma_boundary_char(rest, p - w);
        assert(s.take(m + 1) =~= seq![s[0]] + rest.take(m));
        lemma_encode_concat(seq![s[0]], rest.take(m));
        assert(Seq::<char>::empty().push(s[0]) =~= seq![s[0]]);
        lemma_encode_push(Seq::empty(), s[0]);
        m + 1
    }
}

/// More characters have more bytes.
pub proof fn lemma_encode_monotonic(s: Seq<char>, m: int, k: int)
    requires
        0 <= m <= k <= s.len(),
    ensures
        encode_utf8(s.take(m)).len() <= encode_utf8(s.take(k)).len() <= encode_utf8(s).len(),
        m < k ==> encode_utf8(s.take(m)).len() < encode_utf8(s.take(k)).len(),
{
    lemma_encode_range(s, m, k);
}

/// If the bytes of a text begin with those of another, the text begins with the other.
pub proof fn lemma_encode_prefix(s: Seq<char>, head: Seq<char>)
    requires
        encode_utf8(head).len() <= encode_utf8(s).len(),
        encode_utf8(s).take(encode_utf8(head).len() as int) == encode_utf8(head),
    ensures
        head.len() <= s.len(),
        s.take(head.len() as int) == head,
    decreases head.len(),
{
    let a = encode_utf8(s);
    let b = encode_utf8(head);
    if head.len() == 0 {
        assert(s.take(0) =~= head);
    } else {
        lemma_encode_len(head);
        lemma_encode_len(s);
        encode_utf8_first_scalar(head);
        encode_utf8_first_scalar(s);
        let w = encode_scalar(head[0] as u32).len() as int;
        assert(a[0] == b[0]);
        assert forall|i: int| 0 <= i < b.len() implies a[i] == b[i] by {
            assert(a.take(b.len() as int)[i] == b[i]);
        }
        assert(decode_first_scalar(a) == decode_first_scalar(b));
        char_u32_cast(s[0], decode_first_scalar(a));
        char_u32_cast(head[0], decode_first_scalar(b));
        assert(s[0] == head[0]);
        let s1 = s.drop_first();
        let h1 = head.drop_first();
        let a1 = encode_utf8(s1);
        let b1 = encode_utf8(h1);
        assert(a =~= encode_scalar(s[0] as u32) + a1);
        assert(b =~= encode_scalar(s[0] as u32) + b1);
        assert(a1.take(b1.len() as int) =~= b1) by {
            assert forall|i: int| 0 <= i < b1.len() implies a1[i] == b1[i] by {
                assert(a1[i] == a[w + i]);
                assert(b1[i] == b[w + i]);
            }
        }
        lemma_encode_prefix(s1, h1);
        assert(s.take(head.len() as int) =~= seq![s[0]] + s1.take(h1.len() as int));
        assert(head =~= seq![head[0]] + h1);
    }
}

/// If the bytes of a text stand in those of another, the text stands in the other, there.
pub proof fn lemma_encode_inside(s: Seq<char>, part: Seq<char>, p: int) -> (m: int)
    requires
        part.len() > 0,
        0 <= p,
        p + encode_utf8(part).len() <= encode_utf8(s).len(),
        encode_utf8(s).subrange(p, p + encode_utf8(part).len()) == encode_utf8(part),
    ensures
        0 <= m,
        m + part.len() <= s.len(),
        s.subrange(m, m + part.len()) == part,
        encode_utf8(s.take(m)).len() == p,
{
    let a = encode_utf8(s);
    let b = encode_utf8(part);
    encode_utf8_valid_utf8(s);
    lemma_encode_len(part);
    encode_utf8_first_scalar(part);
    assert(a[p] == b[0]) by {
        assert(a.subrange(p, p + b.len())[0] == b[0]);
    }
    assert(!is_continuation_byte(b[0]));
    is_char_boundary_iff_not_is_continuation_byte(a, p);
    let m = lemma_boundary_char(s, p);
    lemma_encode_cut(s, m);
    let rest = s.skip(m);
    assert(encode_utf8(rest).take(b.len() as int) =~= a.subrange(p, p + b.len()));
    lemma_encode_prefix(rest, part);
    assert(s.subrange(m, m + part.len()) =~= rest.take(part.len() as int));
    m
}

// ---------------------------------------------------------------------------
// The nearest character boundary
// ---------------------------------------------------------------------------

/// The last character boundary at or before `i`.
pub open spec fn floor_boundary(bytes: Seq<u8>, i: int) -> int
    decreases i,
{
    if i <= 0 || is_char_boundary(bytes, i) {
        i
    } else {
        floor_boundary(bytes, i - 1)
    }
}

/// The first character boundary at or after `i`.
pub open spec fn ceil_boundary(bytes: Seq<u8>, i: int) -> int
    decreases bytes.len() - i,
{
    if i >= bytes.len() || is_char_boundary(bytes, i) {
        i
    } else {
        ceil_boundary(bytes, i + 1)
    }
}

/// What [`floor_boundary`] is: a boundary, not after `i`, with none in between.
pub proof fn lemma_floor_boundary(bytes: Seq<u8>, i: int)
    requires
        valid_utf8(bytes),
        0 <= i,
    ensures
        is_char_boundary(bytes, floor_boundary(bytes, i)),
        0 <= floor_boundary(bytes, i) <= i,
        floor_boundary(bytes, i) <= bytes.len(),
        forall|j: int| floor_boundary(bytes, i) < j <= i ==> !is_char_boundary(bytes, j),
    decreases i,
{
    if i == 0 {
        is_char_boundary_start_end_of_seq(bytes);
    } else if is_char_boundary(bytes, i) {
        lemma_boundary_range(bytes, i);
    } else {
        lemma_floor_boundary(bytes, i - 1);
    }
}

/// A character has at most four bytes, so the boundary before a place within the
/// text is at most three bytes away.
pub proof fn lemma_floor_boundary_near(bytes: Seq<u8>, i: int)
    requires
        valid_utf8(bytes),
        0 <= i <= bytes.len(),
    ensures
        i - 3 <= floor_boundary(bytes, i) <= i,
{
    lemma_floor_boundary(bytes, i);
    let j = lemma_boundary_gap(bytes, i);
    if floor_boundary(bytes, i) < j {
        assert(!is_char_boundary(bytes, j));
    }
}

proof fn lemma_boundary_gap(bytes: Seq<u8>, i: int) -> (j: int)
    requires
        valid_utf8(bytes),
        0 <= i <= bytes.len(),
    ensures
        i - 3 <= j <= i,
        is_char_boundary(bytes, j),
    decreases bytes.len(),
{
    if i == 0 {
        i
    } else {
        let w = length_of_first_scalar(bytes);
        if i < w {
            0
        } else {
            let rest = pop_first_scalar(bytes);
            let j = lemma_boundary_gap(rest, i - w);
            if j < 0 {
                0
            } else {
                j + w
            }
        }
    }
}

/// What [`ceil_boundary`] is: a boundary, not before `i`, with none in between.
pub proof fn lemma_ceil_boundary(bytes: Seq<u8>, i: int)
    requires
        valid_utf8(bytes),
        0 <= i <= bytes.len(),
    ensures
        is_char_boundary(bytes, ceil_boundary(bytes, i)),
        i <= ceil_boundary(bytes, i) <= bytes.len(),
        forall|j: int| i <= j < ceil_boundary(bytes, i) ==> !is_char_boundary(bytes, j),
    decreases bytes.len() - i,
{
    if i == bytes.len() {
        is_char_boundary_start_end_of_seq(bytes);
    } else if is_char_boundary(bytes, i) {
    } else {
        lemma_ceil_boundary(bytes, i + 1);
    }
}

// ---------------------------------------------------------------------------
// Cutting and copying
// ---------------------------------------------------------------------------

/// The number of bytes of `s`.
pub fn byte_len(s: &str) -> (n: usize)
    ensures
        n == encode_utf8(s@).len(),
{
    s.as_bytes().len()
}

/// The number of bytes that encode `c`.
pub fn char_width(c: char) -> (n: usize)
    ensures
        n == encode_scalar(c as u32).len(),
{
    let v: u32 = c as u32;
    if v <= 0x7F {
        1
    } else if v <= 0x7FF {
        2
    } else if v <= 0xFFFF {
        3
    } else {
        4
    }
}

/// The last character boundary of `s` at or before `i`.
pub fn snap_down(s: &str, i: usize) -> (r: usize)
    ensures
        r == floor_boundary(encode_utf8(s@), i as int),
        r <= i,
        is_char_boundary(encode_utf8(s@), r as int),
{
    let mut j: usize = i;
    proof {
        encode_utf8_valid_utf8(s@);
        lemma_floor_boundary(encode_utf8(s@), i as int);
    }
    while j > 0 && !s.is_char_boundary(j)
        invariant
            j <= i,
            floor_boundary(encode_utf8(s@), j as int) == floor_boundary(
                encode_utf8(s@),
                i as int,
            ),
        decreases j,
    {
        j -= 1;
    }
    j
}

/// The first character boundary of `s` at or after `i`.
pub fn snap_up(s: &str, i: usize) -> (r: usize)
    requires
        i <= encode_utf8(s@).len(),
    ensures
        r == ceil_boundary(encode_utf8(s@), i as int),
        i <= r <= encode_utf8(s@).len(),
        is_char_boundary(encode_utf8(s@), r as int),
{
    let n: usize = byte_len(s);
    let mut j: usize = i;
    proof {
        encode_utf8_valid_utf8(s@);
        lemma_ceil_boundary(encode_utf8(s@), i as int);
    }
    while j < n && !s.is_char_boundary(j)
        invariant
            i <= j <= n,
            n == encode_utf8(s@).len(),
            ceil_boundary(encode_utf8(s@), j as int) == ceil_boundary(
                encode_utf8(s@),
                i as int,
            ),
        decreases n - j,
    {
        j += 1;
    }
    j
}

/// The part of `s` between two character boundaries.
pub fn slice<'a>(s: &'a str, a: usize, b: usize) -> (r: &'a str)
    requires
        a <= b,
        is_char_boundary(encode_utf8(s@), a as int),
        is_char_boundary(encode_utf8(s@), b as int),
    ensures
        encode_utf8(r@) == encode_utf8(s@).subrange(a as int, b as int),
        r@ == decode_utf8(encode_utf8(s@).subrange(a as int, b as int)),
{
    proof {
        encode_utf8_valid_utf8(s@);
        lemma_slice_valid(encode_utf8(s@), a as int, b as int);
    }
    let (head, _) = s.split_at(b);
    let (_, r) = head.split_at(a);
    proof {
        encode_utf8_decode_utf8(r@);
    }
    r
}

/// The first `n` characters of `s`, or all of it if it has no more than that.
pub fn take_chars(s: &str, n: usize) -> (r: String)
    ensures
        r@ == s@.take(min_int(n as int, s@.len() as int)),
{
    let total: usize = s.unicode_len();
    if n < total {
        s.substring_char(0, n).to_owned()
    } else {
        proof {
            assert(s@.take(s@.len() as int) =~= s@);
        }
        s.to_owned()
    }
}

/// Whether two texts are the same.
pub fn str_eq(a: &str, b: &str) -> (r: bool)
    ensures
        r == (a@ == b@),
{
    let x = a.as_bytes();
    let y = b.as_bytes();
    let r: bool = bytes_eq(x, y);
    proof {
        if x@ == y@ {
            lemma_encode_injective(a@, b@);
        }
    }
    r
}

/// Whether two byte strings are the same.
pub fn bytes_eq(x: &[u8], y: &[u8]) -> (r: bool)
    ensures
        r == (x@ == y@),
{
    if x.len() != y.len() {
        return false;
    }
    let mut i: usize = 0;
    while i < x.len()
        invariant
            i <= x@.len(),
            x@.len() == y@.len(),
            forall|j: int| 0 <= j < i ==> x@[j] == y@[j],
        decreases x@.len() - i,
    {
        if x[i] != y[i] {
            return false;
        }
        i += 1;
    }
    assert(x@ =~= y@);
    true
}

} // verus!
