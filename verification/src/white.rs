//! White space at the ends of a text.
use vstd::prelude::*;

verus! {

/// The characters with the Unicode property `White_Space`.
pub open spec fn white_space(c: char) -> bool {
    let v = c as u32;
    ||| 0x9 <= v <= 0xD
    ||| v == 0x20
    ||| v == 0x85
    ||| v == 0xA0
    ||| v == 0x1680
    ||| 0x2000 <= v <= 0x200A
    ||| v == 0x2028
    ||| v == 0x2029
    ||| v == 0x202F
    ||| v == 0x205F
    ||| v == 0x3000
}

/// Whether `c` is white space.
pub fn is_white_space(c: char) -> (r: bool)
    ensures
        r == white_space(c),
{
    let v: u32 = c as u32;
    (0x9 <= v && v <= 0xD) || v == 0x20 || v == 0x85 || v == 0xA0 || v == 0x1680 || (0x2000 <= v
        && v <= 0x200A) || v == 0x2028 || v == 0x2029 || v == 0x202F || v == 0x205F || v
        == 0x3000
}

/// The length of the longest prefix of `s` made of characters that satisfy `p`.
pub open spec fn leading(s: Seq<char>, p: spec_fn(char) -> bool) -> nat
    decreases s.len(),
{
    if s.len() > 0 && p(s[0]) {
        1 + leading(s.drop_first(), p)
    } else {
        0
    }
}

/// [`white_space`] as a predicate value.
pub open spec fn white() -> spec_fn(char) -> bool {
    |c: char| white_space(c)
}

/// `s` without the white space in front of it.
pub open spec fn trim_start(s: Seq<char>) -> Seq<char> {
    s.skip(leading(s, white()) as int)
}

/// `s` without the white space behind it.
pub open spec fn trim_end(s: Seq<char>) -> Seq<char>
    decreases s.len(),
{
    if s.len() > 0 && white_space(s.last()) {
        trim_end(s.drop_last())
    } else {
        s
    }
}

/// `s` without the white space at both ends.
pub open spec fn trim(s: Seq<char>) -> Seq<char> {
    trim_end(trim_start(s))
}

/// Whether `s` holds nothing but white space.
pub open spec fn blank(s: Seq<char>) -> bool {
    forall|i: int| 0 <= i < s.len() ==> white_space(#[trigger] s[i])
}

proof fn lemma_leading_bound(s: Seq<char>, p: spec_fn(char) -> bool)
    ensures
        leading(s, p) <= s.len(),
    decreases s.len(),
{
    if s.len() > 0 {
        lemma_leading_bound(s.drop_first(), p);
    }
}

/// The prefix that [`leading`] measures is the one that ends where `p` first fails.
pub proof fn lemma_leading(s: Seq<char>, p: spec_fn(char) -> bool, n: int)
    requires
        0 <= n <= s.len(),
        forall|i: int| 0 <= i < n ==> p(#[trigger] s[i]),
        n < s.len() ==> !p(s[n]),
    ensures
        leading(s, p) == n,
    decreases n,
{
    if n > 0 {
        assert(p(s[0]));
        let t = s.drop_first();
        assert forall|i: int| 0 <= i < n - 1 implies p(#[trigger] t[i]) by {
            assert(t[i] == s[i + 1]);
        }
        lemma_leading(t, p, n - 1);
    }
}

/// What [`trim_end`] keeps is the prefix up to the last character that is not white space.
pub proof fn lemma_trim_end(s: Seq<char>, n: int)
    requires
        0 <= n <= s.len(),
        forall|i: int| n <= i < s.len() ==> white_space(#[trigger] s[i]),
        n > 0 ==> !white_space(s[n - 1]),
    ensures
        trim_end(s) == s.take(n),
    decreases s.len(),
{
    if n < s.len() {
        let t = s.drop_last();
        assert forall|i: int| n <= i < t.len() implies white_space(#[trigger] t[i]) by {
            assert(t[i] == s[i]);
        }
        lemma_trim_end(t, n);
        assert(t.take(n) =~= s.take(n));
    } else {
        assert(s.take(n) =~= s);
    }
}

/// Trimming takes the white space from both ends and nothing else: what is left of a text
/// that has white space, a middle that has none at its ends, and white space again, is the
/// middle.
pub proof fn law_trim(front: Seq<char>, middle: Seq<char>, back: Seq<char>)
    requires
        blank(front),
        blank(back),
        middle.len() > 0 ==> !white_space(middle[0]) && !white_space(middle.last()),
    ensures
        trim(front + middle + back) == middle,
{
    let s = front + middle + back;
    if middle.len() == 0 {
        assert(blank(s)) by {
            assert forall|i: int| 0 <= i < s.len() implies white_space(#[trigger] s[i]) by {
                if i < front.len() {
                    assert(s[i] == front[i]);
                } else {
                    assert(s[i] == back[i - front.len()]);
                }
            }
        }
        law_blank_iff_trim_empty(s);
        assert(trim(s) =~= middle);
    } else {
        let n = front.len() as int;
        assert(s[n] == middle[0]);
        assert forall|i: int| 0 <= i < n implies (white())(#[trigger] s[i]) by {
            assert(s[i] == front[i]);
        }
        lemma_leading(s, white(), n);
        let rest = s.skip(n);
        assert(rest =~= middle + back);
        let k = middle.len() as int;
        assert forall|i: int| k <= i < rest.len() implies white_space(#[trigger] rest[i]) by {
            assert(rest[i] == back[i - k]);
        }
        lemma_trim_end(rest, k);
        assert(rest.take(k) =~= middle);
    }
}

/// Trimming leaves nothing exactly when there is nothing but white space.
pub proof fn law_blank_iff_trim_empty(s: Seq<char>)
    ensures
        blank(s) <==> trim(s).len() == 0,
    decreases s.len(),
{
    lemma_leading_bound(s, white());
    if s.len() > 0 && white_space(s[0]) {
        lemma_leading_bound(s.drop_first(), white());
        law_blank_iff_trim_empty(s.drop_first());
        assert(trim_start(s) =~= trim_start(s.drop_first()));
        if blank(s.drop_first()) {
            assert forall|i: int| 0 <= i < s.len() implies white_space(#[trigger] s[i]) by {
                if i > 0 {
                    assert(s[i] == s.drop_first()[i - 1]);
                }
            }
        }
        if blank(s) {
            assert forall|i: int| 0 <= i < s.drop_first().len() implies white_space(
                #[trigger] s.drop_first()[i],
            ) by {
                assert(s[i + 1] == s.drop_first()[i]);
            }
        }
    } else {
        assert(trim_start(s) =~= s);
        if s.len() > 0 {
            lemma_trim_end_keeps_first(s);
            assert(!white_space(s[0]));
        }
    }
}

proof fn lemma_trim_end_keeps_first(s: Seq<char>)
    requires
        s.len() > 0,
        !white_space(s[0]),
    ensures
        trim_end(s).len() > 0,
    decreases s.len(),
{
    if white_space(s.last()) {
        lemma_trim_end_keeps_first(s.drop_last());
    }
}

/// The characters of a text, one by one.
pub fn char_vec(s: &str) -> (v: Vec<char>)
    ensures
        v@ == s@,
{
    let mut v: Vec<char> = Vec::new();
    let mut chars = s.chars();
    let ghost mut k: int = 0;
    loop
        invariant
            0 <= k <= s@.len(),
            vstd::std_specs::iter::IteratorSpec::remaining(&chars) == s@.skip(k),
            v@ == s@.take(k),
        ensures
            k == s@.len(),
            v@ == s@.take(k),
        decreases s@.len() - k,
    {
        match chars.next() {
            Some(c) => {
                v.push(c);
                proof {
                    assert(s@.skip(k).drop_first() =~= s@.skip(k + 1));
                    assert(s@.take(k).push(c) =~= s@.take(k + 1));
                    k = k + 1;
                }
            },
            None => {
                break;
            },
        }
    }
    assert(s@.take(k) =~= s@);
    v
}

/// Whether a text holds nothing but white space.
pub fn is_blank(s: &str) -> (r: bool)
    ensures
        r == blank(s@),
{
    let mut chars = s.chars();
    let ghost mut k: int = 0;
    loop
        invariant
            0 <= k <= s@.len(),
            vstd::std_specs::iter::IteratorSpec::remaining(&chars) == s@.skip(k),
            forall|i: int| 0 <= i < k ==> white_space(#[trigger] s@[i]),
        ensures
            k == s@.len(),
            forall|i: int| 0 <= i < k ==> white_space(#[trigger] s@[i]),
        decreases s@.len() - k,
    {
        match chars.next() {
            Some(c) => {
                assert(c == s@[k]);
                if !is_white_space(c) {
                    return false;
                }
                proof {
                    assert(s@.skip(k).drop_first() =~= s@.skip(k + 1));
                    k = k + 1;
                }
            },
            None => {
                break;
            },
        }
    }
    true
}

} // verus!
