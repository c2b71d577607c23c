//! Putting things in the order of a key, those with the same key in the
//! order in which they came.

use vstd::prelude::*;

verus! {

/// `x` put into `order`, which is ordered by `key`: behind everything whose
/// key is not greater than its own.
pub open spec fn insert_by<T>(order: Seq<T>, x: T, key: spec_fn(T) -> int) -> Seq<T>
    decreases order.len(),
{
    if order.len() == 0 {
        seq![x]
    } else if key(order.last()) <= key(x) {
        order.push(x)
    } else {
        insert_by(order.drop_last(), x, key).push(order.last())
    }
}

/// The first `upto` of `items` in the order of `key`; those with the same
/// key in the order in which they came.
pub open spec fn sorted_by_key<T>(items: Seq<T>, upto: int, key: spec_fn(T) -> int) -> Seq<T>
    decreases upto,
{
    if upto <= 0 {
        Seq::empty()
    } else {
        insert_by(sorted_by_key(items, upto - 1, key), items[upto - 1], key)
    }
}

/// The items stand in the order of `key`.
pub open spec fn ordered_by<T>(items: Seq<T>, key: spec_fn(T) -> int) -> bool {
    forall|i: int, j: int|
        0 <= i < j < items.len() ==> key(#[trigger] items[i]) <= key(#[trigger] items[j])
}

/// Putting `x` into the order is putting it at the place behind the last
/// item whose key is not greater.
pub proof fn lemma_insert_at<T>(order: Seq<T>, x: T, key: spec_fn(T) -> int, at: int)
    requires
        0 <= at <= order.len(),
        forall|j: int| at <= j < order.len() ==> key(#[trigger] order[j]) > key(x),
        at > 0 ==> key(order[at - 1]) <= key(x),
    ensures
        insert_by(order, x, key) == order.insert(at, x),
    decreases order.len() - at,
{
    if order.len() == 0 {
        assert(order.insert(at, x) =~= seq![x]);
    } else if at == order.len() {
        assert(order.insert(at, x) =~= order.push(x));
    } else {
        let front = order.drop_last();
        assert(key(order[order.len() - 1]) > key(x));
        assert forall|j: int| at <= j < front.len() implies key(#[trigger] front[j]) > key(x) by {
            assert(front[j] == order[j]);
        }
        if at > 0 {
            assert(front[at - 1] == order[at - 1]);
        }
        lemma_insert_at(front, x, key, at);
        assert(order.insert(at, x) =~= front.insert(at, x).push(order.last()));
    }
}

/// An item put into an ordered row leaves the row ordered, and the row
/// holds what it held and the item.
#[verifier::rlimit(40)]
pub proof fn lemma_insert_by<T>(order: Seq<T>, x: T, key: spec_fn(T) -> int)
    requires
        ordered_by(order, key),
    ensures
        ordered_by(insert_by(order, x, key), key),
        insert_by(order, x, key).to_multiset() == order.to_multiset().insert(x),
        insert_by(order, x, key).len() == order.len() + 1,
    decreases order.len(),
{
    broadcast use vstd::seq_lib::group_to_multiset_ensures;

    if order.len() == 0 {
        assert(order =~= Seq::empty());
        assert(seq![x] =~= Seq::<T>::empty().push(x));
    } else if key(order.last()) <= key(x) {
        let result = order.push(x);
        assert forall|i: int, j: int| 0 <= i < j < result.len() implies key(#[trigger] result[i])
            <= key(#[trigger] result[j]) by {
            if j == order.len() {
                if i < order.len() - 1 {
                    assert(key(order[i]) <= key(order[order.len() - 1]));
                }
            } else {
                assert(key(order[i]) <= key(order[j]));
            }
        }
    } else {
        let front = order.drop_last();
        assert forall|i: int, j: int| 0 <= i < j < front.len() implies key(#[trigger] front[i])
            <= key(#[trigger] front[j]) by {
            assert(key(order[i]) <= key(order[j]));
        }
        lemma_insert_by(front, x, key);
        let inner = insert_by(front, x, key);
        let result = inner.push(order.last());
        assert(order =~= front.push(order.last()));
        assert forall|i: int, j: int| 0 <= i < j < result.len() implies key(#[trigger] result[i])
            <= key(#[trigger] result[j]) by {
            if j == inner.len() {
                assert(inner.to_multiset().count(inner[i]) > 0);
                if inner[i] == x {
                } else {
                    assert(front.to_multiset().count(inner[i]) > 0);
                    assert(front.contains(inner[i]));
                    let k = choose|k: int| 0 <= k < front.len() && front[k] == inner[i];
                    assert(key(order[k]) <= key(order[order.len() - 1]));
                }
            }
        }
        assert(result.to_multiset() =~= order.to_multiset().insert(x));
    }
}

/// The items in order stand in the order of the key, and are the items
/// that were given, each as often as it was given.
pub proof fn lemma_sorted_by_key<T>(items: Seq<T>, upto: int, key: spec_fn(T) -> int)
    requires
        0 <= upto <= items.len(),
    ensures
        ordered_by(sorted_by_key(items, upto, key), key),
        sorted_by_key(items, upto, key).to_multiset() == items.subrange(0, upto).to_multiset(),
        sorted_by_key(items, upto, key).len() == upto,
    decreases upto,
{
    broadcast use vstd::seq_lib::group_to_multiset_ensures;

    if upto > 0 {
        lemma_sorted_by_key(items, upto - 1, key);
        lemma_insert_by(sorted_by_key(items, upto - 1, key), items[upto - 1], key);
        assert(items.subrange(0, upto) =~= items.subrange(0, upto - 1).push(items[upto - 1]));
    } else {
        assert(items.subrange(0, 0) =~= Seq::empty());
    }
}

/// Items that stand in the order of the key already stay as they are.
pub proof fn lemma_sorted_stays<T>(items: Seq<T>, upto: int, key: spec_fn(T) -> int)
    requires
        0 <= upto <= items.len(),
        ordered_by(items, key),
    ensures
        sorted_by_key(items, upto, key) == items.subrange(0, upto),
    decreases upto,
{
    if upto > 0 {
        lemma_sorted_stays(items, upto - 1, key);
        let front = items.subrange(0, upto - 1);
        if upto - 1 > 0 {
            assert(front.last() == items[upto - 2]);
            assert(key(items[upto - 2]) <= key(items[upto - 1]));
        }
        assert(items.subrange(0, upto) =~= front.push(items[upto - 1]));
    } else {
        assert(items.subrange(0, 0) =~= Seq::<T>::empty());
    }
}

} // verus!
