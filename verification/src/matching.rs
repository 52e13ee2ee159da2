//! Finding and ordering byte strings.
//!
//! The functions work on the UTF-8 bytes of texts. A valid text occurs in another only at
//! character boundaries, so that its occurrences as bytes are those as text.
use vstd::prelude::*;
use vstd::utf8::*;

use crate::text;

verus! {

// ---------------------------------------------------------------------------
// Occurrences
// ---------------------------------------------------------------------------

/// Whether `needle` stands in `hay` at `i`.
pub open spec fn occurs_at(hay: Seq<u8>, needle: Seq<u8>, i: int) -> bool {
    0 <= i && i + needle.len() <= hay.len() && hay.subrange(i, i + needle.len()) == needle
}

/// The first place at or after `from` where `needle` stands in `hay`.
pub open spec fn first_occurrence(hay: Seq<u8>, needle: Seq<u8>, from: int) -> Option<int>
    decreases hay.len() + 1 - from,
{
    if from < 0 || from + needle.len() > hay.len() {
        None
    } else if occurs_at(hay, needle, from) {
        Some(from)
    } else {
        first_occurrence(hay, needle, from + 1)
    }
}

/// The number of occurrences of `needle` in `hay` from `from` on, each sought behind the
/// one before it.
pub open spec fn occurrences(hay: Seq<u8>, needle: Seq<u8>, from: int) -> nat
    decreases hay.len() + 1 - from,
{
    match first_occurrence(hay, needle, from) {
        Some(i) => if needle.len() > 0 && from >= 0 {
            proof {
                lemma_first_occurrence(hay, needle, from);
            }
            1 + occurrences(hay, needle, i + needle.len())
        } else {
            0
        },
        None => 0,
    }
}

/// Whether the text `needle` stands somewhere in the text `hay`.
pub open spec fn contains(hay: Seq<char>, needle: Seq<char>) -> bool {
    first_occurrence(encode_utf8(hay), encode_utf8(needle), 0) is Some
}

/// Whether the text `s` ends in the text `end`.
pub open spec fn ends_with(s: Seq<char>, end: Seq<char>) -> bool {
    let a = encode_utf8(s);
    let b = encode_utf8(end);
    occurs_at(a, b, a.len() - b.len())
}

/// What [`first_occurrence`] is: an occurrence, with none between `from` and it; and none
/// at all from `from` on if there is no first one.
pub proof fn lemma_first_occurrence(hay: Seq<u8>, needle: Seq<u8>, from: int)
    requires
        0 <= from,
    ensures
        match first_occurrence(hay, needle, from) {
            Some(i) => from <= i && occurs_at(hay, needle, i) && forall|j: int|
                from <= j < i ==> !occurs_at(hay, needle, j),
            None => forall|j: int| from <= j ==> !occurs_at(hay, needle, j),
        },
    decreases hay.len() + 1 - from,
{
    if from + needle.len() <= hay.len() && !occurs_at(hay, needle, from) {
        lemma_first_occurrence(hay, needle, from + 1);
    }
}

/// There are no more occurrences than bytes.
pub proof fn lemma_occurrences_bound(hay: Seq<u8>, needle: Seq<u8>, from: int)
    requires
        0 <= from,
    ensures
        from <= hay.len() ==> occurrences(hay, needle, from) <= hay.len() - from,
        occurrences(hay, needle, from) > 0 ==> first_occurrence(hay, needle, from) is Some,
        needle.len() > 0 && first_occurrence(hay, needle, from) is Some ==> occurrences(
            hay,
            needle,
            from,
        ) > 0,
    decreases hay.len() + 1 - from,
{
    lemma_first_occurrence(hay, needle, from);
    match first_occurrence(hay, needle, from) {
        Some(i) => {
            if needle.len() > 0 {
                lemma_occurrences_bound(hay, needle, i + needle.len());
            }
        },
        None => {},
    }
}

/// Whether the characters of `needle` follow one another somewhere in `hay`.
pub open spec fn stands_in(hay: Seq<char>, needle: Seq<char>) -> bool {
    exists|i: int|
        0 <= i && i + needle.len() <= hay.len() && #[trigger] hay.subrange(i, i + needle.len())
            == needle
}

/// A text contains another exactly if the characters of the other follow one another
/// somewhere in it.
pub proof fn law_contains(hay: Seq<char>, needle: Seq<char>)
    ensures
        contains(hay, needle) <==> stands_in(hay, needle),
{
    let a = encode_utf8(hay);
    let b = encode_utf8(needle);
    lemma_first_occurrence(a, b, 0);
    text::lemma_encode_len(needle);
    if contains(hay, needle) {
        if needle.len() == 0 {
            assert(hay.subrange(0, 0) =~= needle);
        } else {
            let p = first_occurrence(a, b, 0)->0;
            let m = text::lemma_encode_inside(hay, needle, p);
            assert(hay.subrange(m, m + needle.len()) == needle);
        }
    }
    if stands_in(hay, needle) {
        let i = choose|i: int|
            0 <= i && i + needle.len() <= hay.len() && #[trigger] hay.subrange(
                i,
                i + needle.len(),
            ) == needle;
        text::lemma_encode_range(hay, i, i + needle.len());
        assert(occurs_at(a, b, encode_utf8(hay.take(i)).len() as int));
    }
}

/// A text ends in another exactly if its last characters are the other.
pub proof fn law_ends_with(s: Seq<char>, end: Seq<char>)
    ensures
        ends_with(s, end) <==> end.len() <= s.len() && s.skip(s.len() - end.len()) == end,
{
    let a = encode_utf8(s);
    let b = encode_utf8(end);
    text::lemma_encode_len(end);
    if ends_with(s, end) {
        if end.len() == 0 {
            assert(s.skip(s.len() as int) =~= end);
        } else {
            let m = text::lemma_encode_inside(s, end, a.len() - b.len());
            text::lemma_encode_cut(s, m);
            assert(encode_utf8(s.skip(m)) =~= b);
            text::lemma_encode_injective(s.skip(m), end);
        }
    }
    if end.len() <= s.len() && s.skip(s.len() - end.len()) == end {
        text::lemma_encode_cut(s, s.len() - end.len());
    }
}

/// [`law_ends_with`] for every end.
pub proof fn lemma_all_ends(s: Seq<char>)
    ensures
        forall|end: Seq<char>|
            #[trigger] ends_with(s, end) <==> end.len() <= s.len() && s.skip(s.len() - end.len())
                == end,
{
    assert forall|end: Seq<char>|
        #[trigger] ends_with(s, end) <==> end.len() <= s.len() && s.skip(s.len() - end.len())
            == end by {
        law_ends_with(s, end);
    }
}

proof fn lemma_first_occurrence_shift(hay: Seq<u8>, needle: Seq<u8>, by: int, from: int)
    requires
        0 <= by <= hay.len(),
        0 <= from,
    ensures
        first_occurrence(hay, needle, by + from) == match first_occurrence(
            hay.skip(by),
            needle,
            from,
        ) {
            Some(i) => Some(by + i),
            None => None,
        },
    decreases hay.len() + 1 - by - from,
{
    let rest = hay.skip(by);
    if from + needle.len() <= rest.len() {
        assert(rest.subrange(from, from + needle.len()) =~= hay.subrange(
            by + from,
            by + from + needle.len(),
        ));
        lemma_first_occurrence_shift(hay, needle, by, from + 1);
    }
}

proof fn lemma_occurrences_shift(hay: Seq<u8>, needle: Seq<u8>, by: int, from: int)
    requires
        0 <= by <= hay.len(),
        0 <= from,
    ensures
        occurrences(hay, needle, by + from) == occurrences(hay.skip(by), needle, from),
    decreases hay.len() + 1 - by - from,
{
    lemma_first_occurrence_shift(hay, needle, by, from);
    lemma_first_occurrence(hay.skip(by), needle, from);
    match first_occurrence(hay.skip(by), needle, from) {
        Some(i) => {
            if needle.len() > 0 {
                lemma_occurrences_shift(hay, needle, by, i + needle.len());
            }
        },
        None => {},
    }
}

/// Where bytes occur first, they count once, and then as often as behind that place. Where
/// they do not occur, they count zero times.
pub proof fn law_occurrences(head: Seq<u8>, needle: Seq<u8>, tail: Seq<u8>)
    requires
        needle.len() > 0,
        forall|j: int|
            0 <= j < head.len() ==> (#[trigger] (head + needle + tail).subrange(
                j,
                j + needle.len(),
            )) != needle,
    ensures
        occurrences(head + needle + tail, needle, 0) == 1 + occurrences(tail, needle, 0),
        (forall|j: int|
            0 <= j && j + needle.len() <= tail.len() ==> (#[trigger] tail.subrange(
                j,
                j + needle.len(),
            )) != needle) ==> occurrences(tail, needle, 0) == 0,
{
    let hay = head + needle + tail;
    let p = head.len() as int;
    lemma_first_occurrence(hay, needle, 0);
    assert(hay.subrange(p, p + needle.len()) =~= needle);
    assert(occurs_at(hay, needle, p));
    let i = first_occurrence(hay, needle, 0)->0;
    if i < p {
        assert(hay.subrange(i, i + needle.len()) != needle);
    }
    assert(hay.skip(p + needle.len()) =~= tail);
    lemma_occurrences_shift(hay, needle, p + needle.len(), 0);
    lemma_first_occurrence(tail, needle, 0);
    lemma_occurrences_bound(tail, needle, 0);
}

/// Whether `needle` stands in `hay` at `i`.
fn is_at(hay: &[u8], needle: &[u8], i: usize) -> (r: bool)
    requires
        i + needle@.len() <= hay@.len(),
    ensures
        r == occurs_at(hay@, needle@, i as int),
{
    let n: usize = hay.len();
    let mut j: usize = 0;
    while j < needle.len()
        invariant
            j <= needle@.len(),
            n == hay@.len(),
            i + needle@.len() <= n,
            forall|l: int| 0 <= l < j ==> hay@[i + l] == needle@[l],
        decreases needle@.len() - j,
    {
        if hay[i + j] != needle[j] {
            proof {
                assert(hay@.subrange(i as int, i + needle@.len())[j as int] != needle@[j as int]);
            }
            return false;
        }
        j += 1;
    }
    assert(hay@.subrange(i as int, i + needle@.len()) =~= needle@);
    true
}

/// Finds the first occurrence of `needle` at or after `from`.
pub fn find_from(hay: &[u8], needle: &[u8], from: usize) -> (r: Option<usize>)
    ensures
        match r {
            Some(i) => first_occurrence(hay@, needle@, from as int) == Some(i as int),
            None => first_occurrence(hay@, needle@, from as int) is None,
        },
{
    let n: usize = hay.len();
    let m: usize = needle.len();
    let mut i: usize = from;
    while i <= n && m <= n - i
        invariant
            from <= i,
            n == hay@.len(),
            m == needle@.len(),
            first_occurrence(hay@, needle@, from as int) == first_occurrence(
                hay@,
                needle@,
                i as int,
            ),
        decreases n + 1 - i,
    {
        if is_at(hay, needle, i) {
            return Some(i);
        }
        proof {
            if m == 0 {
                assert(hay@.subrange(i as int, i as int) =~= needle@);
            }
        }
        i += 1;
    }
    None
}

/// Counts the occurrences of `needle`, each sought behind the one before it.
pub fn count_occurrences(hay: &[u8], needle: &[u8]) -> (r: usize)
    requires
        needle@.len() > 0,
    ensures
        r == occurrences(hay@, needle@, 0),
{
    let n: usize = hay.len();
    let mut count: usize = 0;
    let mut from: usize = 0;
    proof {
        lemma_occurrences_bound(hay@, needle@, 0);
    }
    loop
        invariant
            needle@.len() > 0,
            n == hay@.len(),
            from <= n,
            count + occurrences(hay@, needle@, from as int) == occurrences(hay@, needle@, 0),
            occurrences(hay@, needle@, 0) <= hay@.len(),
        decreases hay@.len() - from,
    {
        proof {
            lemma_first_occurrence(hay@, needle@, from as int);
        }
        match find_from(hay, needle, from) {
            Some(i) => {
                count += 1;
                from = i + needle.len();
            },
            None => {
                return count;
            },
        }
    }
}

/// Whether the text `needle` stands somewhere in the text `hay`.
pub fn str_contains(hay: &str, needle: &str) -> (r: bool)
    ensures
        r == contains(hay@, needle@),
{
    match find_from(hay.as_bytes(), needle.as_bytes(), 0) {
        Some(_) => true,
        None => false,
    }
}

/// Whether the text `s` ends in the text `end`.
pub fn str_ends_with(s: &str, end: &str) -> (r: bool)
    ensures
        r == ends_with(s@, end@),
{
    let a = s.as_bytes();
    let b = end.as_bytes();
    if b.len() > a.len() {
        false
    } else {
        is_at(a, b, a.len() - b.len())
    }
}

// ---------------------------------------------------------------------------
// Order
// ---------------------------------------------------------------------------

/// Whether `a` comes before `b` in the lexicographic order of byte strings.
pub open spec fn bytes_before(a: Seq<u8>, b: Seq<u8>) -> bool
    decreases a.len(),
{
    if b.len() == 0 {
        false
    } else if a.len() == 0 {
        true
    } else if a[0] != b[0] {
        a[0] < b[0]
    } else {
        bytes_before(a.drop_first(), b.drop_first())
    }
}

/// Whether `a` comes before `b` in the order of texts, which is that of their bytes.
pub open spec fn before(a: Seq<char>, b: Seq<char>) -> bool {
    bytes_before(encode_utf8(a), encode_utf8(b))
}

proof fn lemma_bytes_before_total(a: Seq<u8>, b: Seq<u8>)
    ensures
        a == b || bytes_before(a, b) || bytes_before(b, a),
        !(bytes_before(a, b) && bytes_before(b, a)),
        a == b ==> !bytes_before(a, b),
    decreases a.len(),
{
    if a.len() > 0 && b.len() > 0 && a[0] == b[0] {
        lemma_bytes_before_total(a.drop_first(), b.drop_first());
        if a.drop_first() == b.drop_first() {
            assert(a =~= seq![a[0]] + a.drop_first());
            assert(b =~= seq![b[0]] + b.drop_first());
        }
    } else if a.len() == 0 && b.len() == 0 {
        assert(a =~= b);
    }
}

proof fn lemma_bytes_before_transitive(a: Seq<u8>, b: Seq<u8>, c: Seq<u8>)
    requires
        bytes_before(a, b),
        bytes_before(b, c),
    ensures
        bytes_before(a, c),
    decreases a.len(),
{
    if a.len() > 0 && a[0] == b[0] && b[0] == c[0] {
        lemma_bytes_before_transitive(a.drop_first(), b.drop_first(), c.drop_first());
    }
}

/// Of two different texts exactly one comes before the other, and no text before itself.
pub proof fn law_before_total(a: Seq<char>, b: Seq<char>)
    ensures
        a == b || before(a, b) || before(b, a),
        !(before(a, b) && before(b, a)),
        a == b ==> !before(a, b),
{
    lemma_bytes_before_total(encode_utf8(a), encode_utf8(b));
    if encode_utf8(a) == encode_utf8(b) {
        text::lemma_encode_injective(a, b);
    }
}

/// The order of texts is transitive.
pub proof fn law_before_transitive(a: Seq<char>, b: Seq<char>, c: Seq<char>)
    requires
        before(a, b),
        before(b, c),
    ensures
        before(a, c),
{
    lemma_bytes_before_transitive(encode_utf8(a), encode_utf8(b), encode_utf8(c));
}

/// A text comes before another exactly if it is a proper beginning of it, or, at the first
/// byte in which they differ, has the smaller one.
pub proof fn law_before(a: Seq<char>, b: Seq<char>)
    ensures
        before(a, b) <==> exists|k: int|
            differ_at(encode_utf8(a), encode_utf8(b), k) && (k == encode_utf8(a).len()
                || encode_utf8(a)[k] < encode_utf8(b)[k]),
{
    lemma_bytes_before(encode_utf8(a), encode_utf8(b));
}

/// Whether two byte strings are the same up to `k`, where the first ends or differs.
pub open spec fn differ_at(a: Seq<u8>, b: Seq<u8>, k: int) -> bool {
    &&& 0 <= k <= a.len()
    &&& k < b.len()
    &&& a.take(k) == b.take(k)
    &&& k < a.len() ==> a[k] != b[k]
}

proof fn lemma_bytes_before(a: Seq<u8>, b: Seq<u8>)
    ensures
        bytes_before(a, b) <==> exists|k: int|
            differ_at(a, b, k) && (k == a.len() || a[k] < b[k]),
    decreases a.len(),
{
    if b.len() > 0 {
        if a.len() == 0 || a[0] != b[0] {
            assert(a.take(0) =~= b.take(0));
            assert(differ_at(a, b, 0));
            assert forall|k: int| differ_at(a, b, k) implies k == 0 by {
                if k > 0 {
                    assert(a.take(k)[0] == b.take(k)[0]);
                }
            }
        } else {
            let x = a.drop_first();
            let y = b.drop_first();
            lemma_bytes_before(x, y);
            if bytes_before(x, y) {
                let k = choose|k: int| differ_at(x, y, k) && (k == x.len() || x[k] < y[k]);
                assert(a.take(k + 1) =~= seq![a[0]] + x.take(k));
                assert(b.take(k + 1) =~= seq![b[0]] + y.take(k));
                assert(differ_at(a, b, k + 1));
            }
            if exists|k: int| differ_at(a, b, k) && (k == a.len() || a[k] < b[k]) {
                let k = choose|k: int| differ_at(a, b, k) && (k == a.len() || a[k] < b[k]);
                assert(k > 0);
                assert(x.take(k - 1) =~= a.take(k).drop_first());
                assert(y.take(k - 1) =~= b.take(k).drop_first());
                assert(differ_at(x, y, k - 1));
            }
        }
    }
}

/// Whether the text `a` comes before the text `b`.
pub fn is_before(a: &str, b: &str) -> (r: bool)
    ensures
        r == before(a@, b@),
{
    let x = a.as_bytes();
    let y = b.as_bytes();
    let mut i: usize = 0;
    proof {
        assert(x@.skip(0) =~= x@);
        assert(y@.skip(0) =~= y@);
    }
    while i < x.len() && i < y.len()
        invariant
            x@ == encode_utf8(a@),
            y@ == encode_utf8(b@),
            i <= x@.len(),
            i <= y@.len(),
            bytes_before(x@, y@) == bytes_before(x@.skip(i as int), y@.skip(i as int)),
        decreases x@.len() - i,
    {
        proof {
            assert(x@.skip(i as int)[0] == x@[i as int]);
            assert(y@.skip(i as int)[0] == y@[i as int]);
        }
        if x[i] != y[i] {
            return x[i] < y[i];
        }
        proof {
            assert(x@.skip(i as int).drop_first() =~= x@.skip(i + 1));
            assert(y@.skip(i as int).drop_first() =~= y@.skip(i + 1));
        }
        i += 1;
    }
    i < y.len()
}

// ---------------------------------------------------------------------------
// Sorting
// ---------------------------------------------------------------------------

/// What a list of texts holds.
pub open spec fn string_views(v: Seq<String>) -> Seq<Seq<char>> {
    Seq::new(v.len(), |i: int| v[i]@)
}

/// Whether each text comes before those that stand after it in the list.
pub open spec fn ascending(v: Seq<Seq<char>>) -> bool {
    forall|i: int, j: int| 0 <= i < j < v.len() ==> before(#[trigger] v[i], #[trigger] v[j])
}

/// Two lists in ascending order with the same texts are the same list.
pub proof fn law_ascending_unique(a: Seq<Seq<char>>, b: Seq<Seq<char>>)
    requires
        ascending(a),
        ascending(b),
        forall|s: Seq<char>| a.contains(s) <==> b.contains(s),
    ensures
        a == b,
    decreases a.len(),
{
    if a.len() == 0 {
        if b.len() > 0 {
            assert(b.contains(b[0]));
        }
        assert(a =~= b);
    } else {
        assert(a.contains(a.last()));
        assert(b.contains(a.last()));
        assert(b.contains(b.last()));
        assert(a.contains(b.last()));
        let i = choose|i: int| 0 <= i < b.len() && b[i] == a.last();
        let j = choose|j: int| 0 <= j < a.len() && a[j] == b.last();
        if i < b.len() - 1 {
            assert(before(b[i], b[b.len() - 1]));
            if j < a.len() - 1 {
                assert(before(a[j], a[a.len() - 1]));
            }
            law_before_total(a.last(), b.last());
        }
        assert(a.last() == b.last());
        let x = a.drop_last();
        let y = b.drop_last();
        assert forall|s: Seq<char>| x.contains(s) implies y.contains(s) by {
            let p = choose|p: int| 0 <= p < x.len() && x[p] == s;
            assert(a[p] == s);
            assert(before(a[p], a[a.len() - 1]));
            law_before_total(s, a.last());
            assert(a.contains(s));
            let q = choose|q: int| 0 <= q < b.len() && b[q] == s;
            assert(y[q] == s);
        }
        assert forall|s: Seq<char>| y.contains(s) implies x.contains(s) by {
            let p = choose|p: int| 0 <= p < y.len() && y[p] == s;
            assert(b[p] == s);
            assert(before(b[p], b[b.len() - 1]));
            law_before_total(s, b.last());
            assert(b.contains(s));
            let q = choose|q: int| 0 <= q < a.len() && a[q] == s;
            assert(x[q] == s);
        }
        law_ascending_unique(x, y);
        assert(a =~= x.push(a.last()));
        assert(b =~= y.push(b.last()));
    }
}

/// Sorts texts that are all different.
pub fn sort_strings(v: Vec<String>) -> (r: Vec<String>)
    requires
        string_views(v@).no_duplicates(),
    ensures
        ascending(string_views(r@)),
        forall|s: Seq<char>|
            string_views(r@).contains(s) <==> string_views(v@).contains(s),
        r@.len() == v@.len(),
{
    let mut sorted: Vec<String> = Vec::new();
    let mut i: usize = 0;
    let ghost all = string_views(v@);
    while i < v.len()
        invariant
            i <= v@.len(),
            all == string_views(v@),
            all.no_duplicates(),
            sorted@.len() == i,
            ascending(string_views(sorted@)),
            forall|s: Seq<char>|
                string_views(sorted@).contains(s) <==> all.take(i as int).contains(s),
        decreases v@.len() - i,
    {
        let ghost prev = string_views(sorted@);
        let ghost item = all[i as int];
        assert(!prev.contains(item)) by {
            if all.take(i as int).contains(item) {
                let j = choose|j: int|
                    0 <= j < all.take(i as int).len() && all.take(i as int)[j] == item;
                assert(all[j] == all[i as int]);
            }
        }
        let mut pos: usize = sorted.len();
        while pos > 0 && !is_before(sorted[pos - 1].as_str(), v[i].as_str())
            invariant
                pos <= sorted@.len(),
                i < v@.len(),
                item == v@[i as int]@,
                prev == string_views(sorted@),
                !prev.contains(item),
                forall|j: int| pos <= j < prev.len() ==> before(item, #[trigger] prev[j]),
            decreases pos,
        {
            proof {
                law_before_total(item, prev[pos - 1]);
                assert(prev.contains(prev[pos - 1]));
            }
            pos -= 1;
        }
        proof {
            assert forall|j: int| 0 <= j < pos implies before(#[trigger] prev[j], item) by {
                if j < pos - 1 {
                    assert(before(prev[j], prev[pos - 1]));
                    law_before_transitive(prev[j], prev[pos - 1], item);
                }
            }
        }
        sorted.insert(pos, v[i].clone());
        proof {
            let now = string_views(sorted@);
            assert(now =~= prev.insert(pos as int, item));
            assert forall|x: int, y: int| 0 <= x < y < now.len() implies before(
                #[trigger] now[x],
                #[trigger] now[y],
            ) by {
                let x0 = if x < pos {
                    x
                } else {
                    x - 1
                };
                let y0 = if y < pos {
                    y
                } else {
                    y - 1
                };
                if x != pos && y != pos {
                    assert(now[x] == prev[x0] && now[y] == prev[y0]);
                    assert(before(prev[x0], prev[y0]));
                } else if x == pos {
                    assert(now[y] == prev[y0]);
                } else {
                    assert(now[x] == prev[x0]);
                }
            }
            let head = all.take(i as int);
            let more = all.take(i + 1);
            assert(more =~= head.push(item));
            assert forall|s: Seq<char>| now.contains(s) <==> more.contains(s) by {
                if now.contains(s) {
                    let j = choose|j: int| 0 <= j < now.len() && now[j] == s;
                    if j == pos {
                        assert(more[i as int] == s);
                    } else {
                        let j0 = if j < pos {
                            j
                        } else {
                            j - 1
                        };
                        assert(prev[j0] == s);
                        assert(prev.contains(s));
                        let l = choose|l: int| 0 <= l < head.len() && head[l] == s;
                        assert(more[l] == s);
                    }
                }
                if more.contains(s) {
                    let l = choose|l: int| 0 <= l < more.len() && more[l] == s;
                    if l == i {
                        assert(now[pos as int] == s);
                    } else {
                        assert(head[l] == s);
                        assert(head.contains(s));
                        assert(prev.contains(s));
                        let j = choose|j: int| 0 <= j < prev.len() && prev[j] == s;
                        if j < pos {
                            assert(now[j] == s);
                        } else {
                            assert(now[j + 1] == s);
                        }
                    }
                }
            }
        }
        i += 1;
    }
    proof {
        assert(all.take(i as int) =~= all);
    }
    sorted
}

} // verus!
