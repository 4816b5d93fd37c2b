//! Stable sorting of indices by integer keys.
//!
//! Sorting is done on indices rather than on items: the caller extracts one key per
//! item, asks for the order of the indices, and arranges the items accordingly.
//! The order is the stable one: ascending by key, and ascending by index among
//! equal keys.

use vstd::multiset::Multiset;
use vstd::prelude::*;

verus! {

/// The index `i` comes before the index `j` in the stable order of `keys`.
pub open spec fn precedes(keys: Seq<i64>, i: int, j: int) -> bool {
    keys[i] < keys[j] || (keys[i] == keys[j] && i < j)
}

/// `order` lists every index of `keys` exactly once, each before all the indices
/// that it precedes. There is exactly one such sequence for given keys.
pub open spec fn is_stable_order(keys: Seq<i64>, order: Seq<int>) -> bool {
    &&& order.len() == keys.len()
    &&& forall|a: int| 0 <= a < order.len() ==> 0 <= #[trigger] order[a] < keys.len()
    &&& forall|a: int, b: int|
        0 <= a < b < order.len() ==> precedes(keys, #[trigger] order[a], #[trigger] order[b])
    &&& forall|i: int| 0 <= i < keys.len() ==> #[trigger] order.contains(i)
}

/// Where an index with the given key is placed in an already ordered run of
/// indices: behind the last index whose key is not greater.
pub open spec fn insert_position(keys: Seq<i64>, order: Seq<int>, key: i64) -> int
    decreases order.len(),
{
    if order.len() == 0 || keys[order.last()] <= key {
        order.len() as int
    } else {
        insert_position(keys, order.drop_last(), key)
    }
}

/// The stable order of the first `n` indices of `keys`.
pub open spec fn stable_order_of_first(keys: Seq<i64>, n: nat) -> Seq<int>
    decreases n,
{
    if n == 0 {
        Seq::empty()
    } else {
        let before = stable_order_of_first(keys, (n - 1) as nat);
        before.insert(insert_position(keys, before, keys[n - 1]), n - 1)
    }
}

/// The stable order of all indices of `keys`.
pub open spec fn stable_order(keys: Seq<i64>) -> Seq<int> {
    stable_order_of_first(keys, keys.len())
}

/// The items picked by `order`, in that order.
pub open spec fn arranged<T>(items: Seq<T>, order: Seq<int>) -> Seq<T> {
    Seq::new(order.len(), |j: int| items[order[j]])
}

/// A sequence of machine indices read as mathematical integers.
pub open spec fn as_ints(order: Seq<usize>) -> Seq<int> {
    Seq::new(order.len(), |j: int| order[j] as int)
}

proof fn lemma_insert_position(keys: Seq<i64>, order: Seq<int>, key: i64)
    ensures
        0 <= insert_position(keys, order, key) <= order.len(),
        forall|j: int|
            insert_position(keys, order, key) <= j < order.len() ==> keys[#[trigger] order[j]]
                > key,
        insert_position(keys, order, key) > 0 ==> keys[order[insert_position(keys, order, key)
            - 1]] <= key,
    decreases order.len(),
{
    if order.len() == 0 || keys[order.last()] <= key {
    } else {
        let shorter = order.drop_last();
        lemma_insert_position(keys, shorter, key);
        assert forall|j: int|
            insert_position(keys, order, key) <= j < order.len() implies keys[#[trigger] order[j]]
            > key by {
            if j < shorter.len() {
                assert(order[j] == shorter[j]);
            }
        }
    }
}

/// The recursive definition yields the stable order of the first `n` indices.
pub proof fn lemma_stable_order_of_first(keys: Seq<i64>, n: nat)
    requires
        n <= keys.len(),
    ensures
        is_stable_order(keys.take(n as int), stable_order_of_first(keys, n)),
    decreases n,
{
    let order = stable_order_of_first(keys, n);
    let prefix = keys.take(n as int);
    if n == 0 {
    } else {
        let before = stable_order_of_first(keys, (n - 1) as nat);
        let key = keys[n - 1];
        let p = insert_position(keys, before, key);
        lemma_stable_order_of_first(keys, (n - 1) as nat);
        lemma_insert_position(keys, before, key);
        let shorter = keys.take(n - 1);
        assert(order == before.insert(p, n - 1));
        assert forall|a: int| 0 <= a < order.len() implies 0 <= #[trigger] order[a]
            < prefix.len() by {
            if a < p {
                assert(order[a] == before[a]);
            } else if a > p {
                assert(order[a] == before[a - 1]);
            }
        }
        assert forall|a: int, b: int| 0 <= a < b < order.len() implies precedes(
            prefix,
            #[trigger] order[a],
            #[trigger] order[b],
        ) by {
            if b < p {
                assert(precedes(shorter, before[a], before[b]));
            } else if b == p {
                // every index placed before the new one has a key that is not greater
                assert(order[a] == before[a]);
                if a < p - 1 {
                    assert(precedes(shorter, before[a], before[p - 1]));
                }
                assert(keys[before[a]] <= key);
            } else if a < p {
                assert(precedes(shorter, before[a], before[b - 1]));
            } else if a == p {
                assert(keys[before[b - 1]] > key);
            } else {
                assert(precedes(shorter, before[a - 1], before[b - 1]));
            }
        }
        assert forall|i: int| 0 <= i < prefix.len() implies #[trigger] order.contains(i) by {
            if i == n - 1 {
                assert(order[p] == i);
            } else {
                assert(before.contains(i));
                let a = choose|a: int| 0 <= a < before.len() && before[a] == i;
                if a < p {
                    assert(order[a] == i);
                } else {
                    assert(order[a + 1] == i);
                }
            }
        }
    }
}

/// The recursive definition yields the stable order of all indices.
pub proof fn lemma_stable_order(keys: Seq<i64>)
    ensures
        is_stable_order(keys, stable_order(keys)),
{
    lemma_stable_order_of_first(keys, keys.len());
    assert(keys.take(keys.len() as int) =~= keys);
}

/// The stable order is the only one: whatever orders the first `n` indices as
/// `is_stable_order` asks is the sequence that the recursive definition yields.
pub proof fn lemma_stable_order_of_first_unique(keys: Seq<i64>, n: nat, order: Seq<int>)
    requires
        n <= keys.len(),
        is_stable_order(keys.take(n as int), order),
    ensures
        order == stable_order_of_first(keys, n),
    decreases n,
{
    let prefix = keys.take(n as int);
    if n == 0 {
        assert(order =~= stable_order_of_first(keys, n));
    } else {
        let last = n - 1;
        let key = keys[last];
        assert(order.contains(last));
        let q = choose|q: int| 0 <= q < order.len() && order[q] == last;
        let rest = order.remove(q);
        let shorter = keys.take(n - 1);
        // No other place of `order` holds the last index.
        assert forall|a: int| 0 <= a < order.len() && a != q implies #[trigger] order[a]
            != last by {
            if a < q {
                assert(precedes(prefix, order[a], order[q]));
            } else {
                assert(precedes(prefix, order[q], order[a]));
            }
        }
        assert(is_stable_order(shorter, rest)) by {
            assert forall|a: int| 0 <= a < rest.len() implies 0 <= #[trigger] rest[a]
                < shorter.len() by {
                if a < q {
                    assert(rest[a] == order[a]);
                } else {
                    assert(rest[a] == order[a + 1]);
                }
            }
            assert forall|a: int, b: int| 0 <= a < b < rest.len() implies precedes(
                shorter,
                #[trigger] rest[a],
                #[trigger] rest[b],
            ) by {
                let from_a = if a < q {
                    a
                } else {
                    a + 1
                };
                let from_b = if b < q {
                    b
                } else {
                    b + 1
                };
                assert(rest[a] == order[from_a] && rest[b] == order[from_b]);
                assert(precedes(prefix, order[from_a], order[from_b]));
            }
            assert forall|i: int| 0 <= i < shorter.len() implies #[trigger] rest.contains(i) by {
                assert(order.contains(i));
                let a = choose|a: int| 0 <= a < order.len() && order[a] == i;
                if a < q {
                    assert(rest[a] == i);
                } else {
                    assert(rest[a - 1] == i);
                }
            }
        }
        lemma_stable_order_of_first_unique(keys, (n - 1) as nat, rest);
        let p = insert_position(keys, rest, key);
        lemma_insert_position(keys, rest, key);
        if q < p {
            // `rest[q]` stands behind the last index in `order`, so its key is greater;
            // yet it stands before the insert position, where keys are not greater.
            assert(rest[q] == order[q + 1]);
            assert(precedes(prefix, order[q], order[q + 1]));
            if q < p - 1 {
                assert(precedes(shorter, rest[q], rest[p - 1]));
            }
        } else if q > p {
            assert(rest[p] == order[p]);
            assert(precedes(prefix, order[p], order[q]));
        }
        assert(order =~= rest.insert(q, last));
    }
}

/// The stable order is the only one that `is_stable_order` admits.
pub proof fn lemma_stable_order_unique(keys: Seq<i64>, order: Seq<int>)
    requires
        is_stable_order(keys, order),
    ensures
        order == stable_order(keys),
{
    assert(keys.take(keys.len() as int) =~= keys);
    lemma_stable_order_of_first_unique(keys, keys.len(), order);
}

/// Arranging items by the stable order of their keys keeps every item, as often
/// as it occurred.
pub proof fn lemma_arranged_keeps_items<T>(items: Seq<T>, keys: Seq<i64>)
    requires
        items.len() == keys.len(),
    ensures
        arranged(items, stable_order(keys)).len() == items.len(),
        arranged(items, stable_order(keys)).to_multiset() == items.to_multiset(),
{
    lemma_arranged_first_keeps_items(items, keys, keys.len());
    assert(items.take(keys.len() as int) =~= items);
}

proof fn lemma_arranged_first_keeps_items<T>(items: Seq<T>, keys: Seq<i64>, n: nat)
    requires
        items.len() == keys.len(),
        n <= keys.len(),
    ensures
        arranged(items, stable_order_of_first(keys, n)).len() == n,
        arranged(items, stable_order_of_first(keys, n)).to_multiset() == items.take(
            n as int,
        ).to_multiset(),
    decreases n,
{
    broadcast use vstd::seq_lib::to_multiset_insert, vstd::seq_lib::to_multiset_build;

    if n == 0 {
        assert(arranged(items, stable_order_of_first(keys, n)) =~= items.take(0));
    } else {
        let before = stable_order_of_first(keys, (n - 1) as nat);
        let p = insert_position(keys, before, keys[n - 1]);
        lemma_arranged_first_keeps_items(items, keys, (n - 1) as nat);
        lemma_stable_order_of_first(keys, (n - 1) as nat);
        lemma_insert_position(keys, before, keys[n - 1]);
        assert(arranged(items, before.insert(p, n - 1)) =~= arranged(items, before).insert(
            p,
            items[n - 1],
        ));
        assert(items.take(n as int) =~= items.take(n - 1).push(items[n - 1]));
    }
}

/// `measure` adds up over concatenation.
pub open spec fn is_additive<T, M>(measure: spec_fn(Seq<T>) -> Multiset<M>) -> bool {
    forall|a: Seq<T>, b: Seq<T>| #[trigger] measure(a + b) == measure(a).add(measure(b))
}

/// Whatever adds up over concatenation does not depend on the order of the
/// items: arranging them by the stable order of their keys keeps it.
pub proof fn lemma_arranged_keeps_additive<T, M>(
    items: Seq<T>,
    keys: Seq<i64>,
    measure: spec_fn(Seq<T>) -> Multiset<M>,
)
    requires
        items.len() == keys.len(),
        is_additive(measure),
    ensures
        measure(arranged(items, stable_order(keys))) == measure(items),
{
    lemma_arranged_first_keeps_additive(items, keys, measure, keys.len());
    assert(items.take(keys.len() as int) =~= items);
}

proof fn lemma_arranged_first_keeps_additive<T, M>(
    items: Seq<T>,
    keys: Seq<i64>,
    measure: spec_fn(Seq<T>) -> Multiset<M>,
    n: nat,
)
    requires
        items.len() == keys.len(),
        n <= keys.len(),
        is_additive(measure),
    ensures
        measure(arranged(items, stable_order_of_first(keys, n))) == measure(items.take(n as int)),
    decreases n,
{
    broadcast use vstd::multiset::group_multiset_axioms;

    if n == 0 {
        assert(arranged(items, stable_order_of_first(keys, n)) =~= items.take(0));
    } else {
        let before = stable_order_of_first(keys, (n - 1) as nat);
        let p = insert_position(keys, before, keys[n - 1]);
        lemma_arranged_first_keeps_additive(items, keys, measure, (n - 1) as nat);
        lemma_stable_order_of_first(keys, (n - 1) as nat);
        lemma_insert_position(keys, before, keys[n - 1]);
        let earlier = arranged(items, before);
        let one = seq![items[n - 1]];
        let head = earlier.take(p);
        let tail = earlier.skip(p);
        assert(arranged(items, before.insert(p, n - 1)) =~= head + (one + tail));
        assert(earlier =~= head + tail);
        assert(items.take(n as int) =~= items.take(n - 1) + one);
        assert(measure(head + (one + tail)) == measure(head).add(measure(one + tail)));
        assert(measure(one + tail) == measure(one).add(measure(tail)));
        assert(measure(head + tail) == measure(head).add(measure(tail)));
        assert(measure(items.take(n - 1) + one) == measure(items.take(n - 1)).add(measure(one)));
        assert(measure(head).add(measure(one).add(measure(tail))) =~= measure(head).add(
            measure(tail),
        ).add(measure(one)));
    }
}

/// Computes the stable order of the indices of `keys`.
pub fn sort_indices(keys: &Vec<i64>) -> (order: Vec<usize>)
    ensures
        as_ints(order@) == stable_order(keys@),
        is_stable_order(keys@, as_ints(order@)),
{
    let n = keys.len();
    let mut order: Vec<usize> = Vec::new();
    let mut i: usize = 0;
    while i < n
        invariant
            i <= n,
            n == keys.len(),
            order.len() == i,
            as_ints(order@) =~= stable_order_of_first(keys@, i as nat),
            forall|a: int| 0 <= a < order.len() ==> #[trigger] order[a] < i,
        decreases n - i,
    {
        let key = keys[i];
        let ghost listed = as_ints(order@);
        let mut j: usize = order.len();
        assert(listed.subrange(0, j as int) =~= listed);
        while j > 0 && keys[order[j - 1]] > key
            invariant
                j <= order.len(),
                order.len() == i,
                i < n,
                n == keys.len(),
                key == keys[i as int],
                listed == as_ints(order@),
                forall|a: int| 0 <= a < order.len() ==> #[trigger] order[a] < i,
                insert_position(keys@, listed, key) == insert_position(
                    keys@,
                    listed.subrange(0, j as int),
                    key,
                ),
            decreases j,
        {
            assert(listed.subrange(0, j as int).drop_last() =~= listed.subrange(0, j - 1));
            j = j - 1;
        }
        order.insert(j, i);
        proof {
            assert(as_ints(order@) =~= listed.insert(j as int, i as int));
        }
        i = i + 1;
    }
    proof {
        lemma_stable_order(keys@);
    }
    order
}

/// Picks the items named by `order`, in that order.
pub fn arrange<T: Copy>(items: &Vec<T>, order: &Vec<usize>) -> (picked: Vec<T>)
    requires
        forall|j: int| 0 <= j < order.len() ==> #[trigger] order[j] < items.len(),
    ensures
        picked@ == arranged(items@, as_ints(order@)),
{
    let mut picked: Vec<T> = Vec::new();
    let mut j: usize = 0;
    while j < order.len()
        invariant
            j <= order.len(),
            picked.len() == j,
            forall|k: int| 0 <= k < order.len() ==> #[trigger] order[k] < items.len(),
            forall|k: int| 0 <= k < j ==> picked[k] == items[order[k] as int],
        decreases order.len() - j,
    {
        picked.push(items[order[j]]);
        j = j + 1;
    }
    assert(picked@ =~= arranged(items@, as_ints(order@)));
    picked
}

} // verus!
