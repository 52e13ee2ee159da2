//! Putting things in order by a number, the greatest first.
use vstd::prelude::*;

use crate::text;

verus! {

/// Items in order with one more put in: behind those that are no worse.
pub open spec fn placed<T>(items: Seq<T>, key: spec_fn(T) -> int, item: T) -> Seq<T>
    decreases items.len(),
{
    if items.len() == 0 || key(items.last()) >= key(item) {
        items.push(item)
    } else {
        placed(items.drop_last(), key, item).push(items.last())
    }
}

/// Items from the best to the worst. Those with one key keep their order.
pub open spec fn ranked<T>(items: Seq<T>, key: spec_fn(T) -> int) -> Seq<T>
    decreases items.len(),
{
    if items.len() == 0 {
        Seq::empty()
    } else {
        placed(ranked(items.drop_last(), key), key, items.last())
    }
}

/// The `k` best items.
pub open spec fn best<T>(items: Seq<T>, key: spec_fn(T) -> int, k: int) -> Seq<T> {
    ranked(items, key).take(text::min_int(k, items.len() as int))
}

/// Whether no item is better than one before it.
pub open spec fn descending<T>(items: Seq<T>, key: spec_fn(T) -> int) -> bool {
    forall|i: int, j: int|
        0 <= i < j < items.len() ==> key(#[trigger] items[i]) >= key(#[trigger] items[j])
}

/// The items with key `r`, in their order.
pub open spec fn of_key<T>(items: Seq<T>, key: spec_fn(T) -> int, r: int) -> Seq<T>
    decreases items.len(),
{
    if items.len() == 0 {
        Seq::empty()
    } else if key(items.last()) == r {
        of_key(items.drop_last(), key, r).push(items.last())
    } else {
        of_key(items.drop_last(), key, r)
    }
}

proof fn lemma_placed<T>(items: Seq<T>, key: spec_fn(T) -> int, item: T, r: int)
    requires
        descending(items, key),
    ensures
        placed(items, key, item).len() == items.len() + 1,
        descending(placed(items, key, item), key),
        forall|i: int|
            0 <= i < placed(items, key, item).len() ==> (#[trigger] placed(items, key, item)[i]) == item
                || items.contains(placed(items, key, item)[i]),
        of_key(placed(items, key, item), key, r) == of_key(items.push(item), key, r),
    decreases items.len(),
{
    let all = placed(items, key, item);
    assert(items.push(item).drop_last() =~= items);
    if items.len() == 0 || key(items.last()) >= key(item) {
        assert forall|i: int| 0 <= i < all.len() implies (#[trigger] all[i]) == item
            || items.contains(all[i]) by {
            if i < items.len() {
                assert(all[i] == items[i]);
            }
        }
        assert forall|i: int, j: int| 0 <= i < j < all.len() implies key(#[trigger] all[i]) >= key(#[trigger] all[j]) by {
            if j < items.len() {
                assert(all[i] == items[i] && all[j] == items[j]);
            } else {
                assert(all[i] == items[i]);
                if i < items.len() - 1 {
                    assert(key(items[i]) >= key(items[items.len() - 1]));
                }
            }
        }
    } else {
        let shorter = items.drop_last();
        let last = items.last();
        lemma_placed(shorter, key, item, r);
        let sub = placed(shorter, key, item);
        assert(all.drop_last() =~= sub);
        assert forall|i: int| 0 <= i < all.len() implies (#[trigger] all[i]) == item
            || items.contains(all[i]) by {
            if i < sub.len() {
                assert(all[i] == sub[i]);
                if sub[i] != item {
                    let q = choose|q: int| 0 <= q < shorter.len() && shorter[q] == sub[i];
                    assert(items[q] == sub[i]);
                }
            } else {
                assert(items[items.len() - 1] == all[i]);
            }
        }
        assert forall|i: int, j: int| 0 <= i < j < all.len() implies key(#[trigger] all[i]) >= key(#[trigger] all[j]) by {
            assert(all[i] == sub[i]);
            if j < sub.len() {
                assert(all[j] == sub[j]);
            } else if sub[i] != item {
                let q = choose|q: int| 0 <= q < shorter.len() && shorter[q] == sub[i];
                assert(items[q] == sub[i]);
                assert(key(items[q]) >= key(items[items.len() - 1]));
            }
        }
        // `last` is worse than `item`, so their order does not matter within one key.
        assert(shorter.push(item).drop_last() =~= shorter);
        assert(items.push(item).last() == item && shorter.push(item).last() == item);
        assert(all.last() == last);
        if key(last) == r {
            assert(of_key(items, key, r) == of_key(shorter, key, r).push(last));
        } else {
            assert(of_key(items, key, r) == of_key(shorter, key, r));
        }
        assert(of_key(all, key, r) =~= of_key(items.push(item), key, r));
    }
}

/// Ranking keeps every item, puts no item before a better one, and keeps the order of those
/// with one key.
pub proof fn law_ranked<T>(items: Seq<T>, key: spec_fn(T) -> int, r: int)
    ensures
        ranked(items, key).len() == items.len(),
        descending(ranked(items, key), key),
        of_key(ranked(items, key), key, r) == of_key(items, key, r),
    decreases items.len(),
{
    if items.len() > 0 {
        let shorter = items.drop_last();
        law_ranked(shorter, key, r);
        lemma_placed(ranked(shorter, key), key, items.last(), r);
        assert(ranked(shorter, key).push(items.last()).drop_last() =~= ranked(shorter, key));
    }
}

proof fn lemma_of_key_contains<T>(items: Seq<T>, key: spec_fn(T) -> int, item: T)
    ensures
        of_key(items, key, key(item)).contains(item) <==> items.contains(item),
    decreases items.len(),
{
    if items.len() > 0 {
        let shorter = items.drop_last();
        let all = of_key(items, key, key(item));
        let sub = of_key(shorter, key, key(item));
        lemma_of_key_contains(shorter, key, item);
        if items.last() == item {
            assert(items[items.len() - 1] == item);
            assert(all[all.len() - 1] == item);
        } else {
            if shorter.contains(item) {
                let p = choose|p: int| 0 <= p < shorter.len() && shorter[p] == item;
                assert(items[p] == item);
                let q = choose|q: int| 0 <= q < sub.len() && sub[q] == item;
                assert(all[q] == item);
            }
            if items.contains(item) {
                let p = choose|p: int| 0 <= p < items.len() && items[p] == item;
                assert(shorter[p] == item);
            }
            if all.contains(item) {
                let q = choose|q: int| 0 <= q < all.len() && all[q] == item;
                assert(sub[q] == item);
            }
        }
    }
}

/// Ranking leaves no item out and makes none up.
pub proof fn law_ranked_contains<T>(items: Seq<T>, key: spec_fn(T) -> int, item: T)
    ensures
        ranked(items, key).contains(item) <==> items.contains(item),
{
    law_ranked(items, key, key(item));
    lemma_of_key_contains(items, key, item);
    lemma_of_key_contains(ranked(items, key), key, item);
}

/// Where [`placed`] puts the item: behind one that is no worse, before none that is.
proof fn lemma_place<T>(items: Seq<T>, key: spec_fn(T) -> int, item: T) -> (pos: int)
    ensures
        0 <= pos <= items.len(),
        placed(items, key, item) == items.insert(pos, item),
        pos > 0 ==> key(items[pos - 1]) >= key(item),
        forall|i: int| pos <= i < items.len() ==> key(#[trigger] items[i]) < key(item),
    decreases items.len(),
{
    if items.len() == 0 || key(items.last()) >= key(item) {
        assert(items.insert(items.len() as int, item) =~= items.push(item));
        items.len() as int
    } else {
        let shorter = items.drop_last();
        let pos = lemma_place(shorter, key, item);
        assert(shorter.insert(pos, item).push(items.last()) =~= items.insert(pos, item));
        assert forall|i: int| pos <= i < items.len() implies key(#[trigger] items[i]) < key(
            item,
        ) by {
            if i < shorter.len() {
                assert(shorter[i] == items[i]);
            }
        }
        pos
    }
}

/// With one more item, the `k` best are found among the `k` best so far and the item.
pub proof fn law_best_so_far<T>(items: Seq<T>, key: spec_fn(T) -> int, item: T, k: int)
    requires
        0 <= k,
    ensures
        best(items.push(item), key, k) == placed(best(items, key, k), key, item).take(
            text::min_int(k, best(items, key, k).len() as int + 1),
        ),
        best(items, key, k).len() == text::min_int(k, items.len() as int),
{
    law_ranked(items, key, 0);
    assert(items.push(item).drop_last() =~= items);
    let all = ranked(items, key);
    let m = text::min_int(k, items.len() as int);
    let some = all.take(m);
    let p = lemma_place(all, key, item);
    law_ranked(items.push(item), key, 0);
    if p <= m {
        if p > 0 {
            assert(some[p - 1] == all[p - 1]);
        }
        assert forall|i: int| p <= i < some.len() implies key(#[trigger] some[i]) < key(item) by {
            assert(some[i] == all[i]);
        }
        lemma_placed_at(some, key, item, p);
        let n = text::min_int(k, m + 1);
        assert(all.insert(p, item).take(n) =~= some.insert(p, item).take(n));
    } else {
        if m > 0 {
            assert(some.last() == all[m - 1]);
            if m - 1 < p - 1 {
                assert(key(all[m - 1]) >= key(all[p - 1]));
            }
        }
        assert(all.insert(p, item).take(m) =~= some);
        assert(some.push(item).take(m) =~= some);
    }
}

/// The `k` best are as many as there are, up to `k`, are items, are in order, and no other
/// item is better than one of them.
pub proof fn law_best<T>(items: Seq<T>, key: spec_fn(T) -> int, k: int)
    requires
        0 <= k,
    ensures
        best(items, key, k).len() == text::min_int(k, items.len() as int),
        descending(best(items, key, k), key),
        forall|i: int|
            0 <= i < best(items, key, k).len() ==> items.contains(
                #[trigger] best(items, key, k)[i],
            ),
        forall|item: T, i: int|
            #![trigger items.contains(item), best(items, key, k)[i]]
            items.contains(item) && !best(items, key, k).contains(item) && 0 <= i < best(
                items,
                key,
                k,
            ).len() ==> key(best(items, key, k)[i]) >= key(item),
{
    law_ranked(items, key, 0);
    let all = ranked(items, key);
    let some = best(items, key, k);
    assert forall|i: int| 0 <= i < some.len() implies items.contains(#[trigger] some[i]) by {
        assert(all[i] == some[i]);
        law_ranked_contains(items, key, some[i]);
    }
    assert forall|i: int, j: int| 0 <= i < j < some.len() implies key(#[trigger] some[i]) >= key(
        #[trigger] some[j],
    ) by {
        assert(some[i] == all[i] && some[j] == all[j]);
    }
    assert forall|item: T, i: int|
        #![trigger items.contains(item), some[i]]
        items.contains(item) && !some.contains(item) && 0 <= i < some.len() implies key(some[i])
        >= key(item) by {
        law_ranked_contains(items, key, item);
        let j = choose|j: int| 0 <= j < all.len() && all[j] == item;
        if j < some.len() {
            assert(some[j] == item);
        }
        assert(some[i] == all[i]);
    }
}

/// Whether no two items have the same tag.
pub open spec fn distinct<T, U>(items: Seq<T>, tag: spec_fn(T) -> U) -> bool {
    forall|i: int, j: int|
        0 <= i < j < items.len() ==> tag(#[trigger] items[i]) != tag(#[trigger] items[j])
}

/// If no two items have the same tag, no two of the `k` best have.
pub proof fn law_best_distinct<T, U>(
    items: Seq<T>,
    key: spec_fn(T) -> int,
    tag: spec_fn(T) -> U,
    k: int,
)
    requires
        0 <= k,
        distinct(items, tag),
    ensures
        distinct(best(items, key, k), tag),
{
    lemma_ranked_distinct(items, key, tag);
    law_ranked(items, key, 0);
    let all = ranked(items, key);
    let some = best(items, key, k);
    assert forall|i: int, j: int| 0 <= i < j < some.len() implies tag(#[trigger] some[i]) != tag(
        #[trigger] some[j],
    ) by {
        assert(some[i] == all[i] && some[j] == all[j]);
    }
}

proof fn lemma_ranked_distinct<T, U>(
    items: Seq<T>,
    key: spec_fn(T) -> int,
    tag: spec_fn(T) -> U,
)
    requires
        distinct(items, tag),
    ensures
        distinct(ranked(items, key), tag),
    decreases items.len(),
{
    if items.len() > 0 {
        let shorter = items.drop_last();
        let item = items.last();
        assert forall|i: int, j: int| 0 <= i < j < shorter.len() implies tag(
            #[trigger] shorter[i],
        ) != tag(#[trigger] shorter[j]) by {
            assert(shorter[i] == items[i] && shorter[j] == items[j]);
        }
        lemma_ranked_distinct(shorter, key, tag);
        let r = ranked(shorter, key);
        assert forall|i: int| 0 <= i < r.len() implies tag(#[trigger] r[i]) != tag(item) by {
            assert(r.contains(r[i]));
            law_ranked_contains(shorter, key, r[i]);
            let p = choose|p: int| 0 <= p < shorter.len() && shorter[p] == r[i];
            assert(items[p] == r[i]);
            assert(tag(items[p]) != tag(items[items.len() - 1]));
        }
        let pos = lemma_place(r, key, item);
        let all = r.insert(pos, item);
        assert forall|i: int, j: int| 0 <= i < j < all.len() implies tag(#[trigger] all[i])
            != tag(#[trigger] all[j]) by {
            let a = if i < pos {
                i
            } else {
                i - 1
            };
            let b = if j < pos {
                j
            } else {
                j - 1
            };
            if i != pos {
                assert(all[i] == r[a]);
            }
            if j != pos {
                assert(all[j] == r[b]);
            }
        }
    }
}

/// Items that are in order already stay as they are.
pub proof fn law_ranked_idempotent<T>(items: Seq<T>, key: spec_fn(T) -> int)
    requires
        descending(items, key),
    ensures
        ranked(items, key) == items,
    decreases items.len(),
{
    if items.len() > 0 {
        let shorter = items.drop_last();
        assert(descending(shorter, key)) by {
            assert forall|i: int, j: int| 0 <= i < j < shorter.len() implies key(#[trigger] shorter[i]) >= key(#[trigger] shorter[j]) by {
                assert(shorter[i] == items[i] && shorter[j] == items[j]);
            }
        }
        law_ranked_idempotent(shorter, key);
        if shorter.len() > 0 {
            assert(key(items[items.len() - 2]) >= key(items[items.len() - 1]));
            assert(shorter.last() == items[items.len() - 2]);
        }
        assert(shorter.push(items.last()) =~= items);
    } else {
        assert(ranked(items, key) =~= items);
    }
}

/// Where [`placed`] puts the item.
pub proof fn lemma_placed_at<T>(items: Seq<T>, key: spec_fn(T) -> int, item: T, pos: int)
    requires
        0 <= pos <= items.len(),
        pos > 0 ==> key(items[pos - 1]) >= key(item),
        forall|i: int| pos <= i < items.len() ==> key(#[trigger] items[i]) < key(item),
    ensures
        placed(items, key, item) == items.insert(pos, item),
    decreases items.len(),
{
    if pos == items.len() {
        assert(items.insert(pos, item) =~= items.push(item));
    } else {
        let shorter = items.drop_last();
        assert(key(items[items.len() - 1]) < key(item));
        assert forall|i: int| pos <= i < shorter.len() implies key(#[trigger] shorter[i]) < key(item) by {
            assert(shorter[i] == items[i]);
        }
        lemma_placed_at(shorter, key, item, pos);
        assert(shorter.insert(pos, item).push(items.last()) =~= items.insert(pos, item));
    }
}

} // verus!
