//! The order in which the hierarchy keeps its primitives.

use vstd::prelude::*;
use crate::bvh::builder::occurrences;

verus! {

/// Whether `order` names each of the positions `0..n` exactly once, and
/// nothing else.
pub open spec fn each_once(order: Seq<usize>, n: int) -> bool {
    &&& order.len() == n
    &&& forall|v: usize|
        #[trigger] occurrences(order, v) == if v < n {
            1nat
        } else {
            0nat
        }
}

/// A sequence that holds each position at that position names each position
/// exactly once.
pub proof fn lemma_identity(s: Seq<usize>)
    requires
        forall|i: int| 0 <= i < s.len() ==> s[i] == i,
    ensures
        each_once(s, s.len() as int),
    decreases s.len(),
{
    if s.len() > 0 {
        lemma_identity(s.drop_last());
        assert forall|v: usize|
            #[trigger] occurrences(s, v) == if v < s.len() {
                1nat
            } else {
                0nat
            } by {
            assert(occurrences(s.drop_last(), v) == if v < s.len() - 1 {
                1nat
            } else {
                0nat
            });
        }
    }
}

/// What stands in a sequence occurs in it.
pub proof fn lemma_occurs(s: Seq<usize>, k: int)
    requires
        0 <= k < s.len(),
    ensures
        occurrences(s, s[k]) >= 1,
    decreases s.len(),
{
    if k < s.len() - 1 {
        lemma_occurs(s.drop_last(), k);
    }
}

/// What occurs at two places of a sequence occurs in it twice or more.
pub proof fn lemma_occurs_twice(s: Seq<usize>, j: int, k: int)
    requires
        0 <= j < k < s.len(),
        s[j] == s[k],
    ensures
        occurrences(s, s[k]) >= 2,
    decreases s.len(),
{
    if k < s.len() - 1 {
        lemma_occurs_twice(s.drop_last(), j, k);
    } else {
        lemma_occurs(s.drop_last(), j);
    }
}

/// An order that names each position once names only positions, and none at
/// two places.
pub proof fn lemma_each_once_distinct(order: Seq<usize>, n: int)
    requires
        each_once(order, n),
    ensures
        forall|k: int| 0 <= k < n ==> #[trigger] order[k] < n,
        forall|j: int, k: int| 0 <= j < k < n ==> order[j] != order[k],
{
    assert forall|k: int| 0 <= k < n implies #[trigger] order[k] < n by {
        lemma_occurs(order, k);
    }
    assert forall|j: int, k: int| 0 <= j < k < n implies order[j] != order[k] by {
        if order[j] == order[k] {
            lemma_occurs_twice(order, j, k);
        }
    }
}

/// The items in the given order: the result holds at each place `k` the item
/// that stood at place `order[k]`.
pub fn reorder<T>(items: Vec<T>, order: &Vec<usize>) -> (r: Vec<T>)
    requires
        order.len() == items.len(),
        forall|k: int| 0 <= k < order.len() ==> #[trigger] order[k] < items.len(),
        forall|j: int, k: int| 0 <= j < k < order.len() ==> order[j] != order[k],
    ensures
        r.len() == items.len(),
        forall|k: int| 0 <= k < r.len() ==> #[trigger] r[k] == items[order[k] as int],
{
    let n: usize = items.len();
    let ghost given = items@;
    let mut rest = items;
    let mut slots: Vec<Option<T>> = Vec::new();
    while rest.len() > 0
        invariant
            slots.len() + rest.len() == n,
            given.len() == n,
            rest@ =~= given.subrange(0, rest.len() as int),
            forall|j: int| 0 <= j < slots.len() ==> #[trigger] slots[j] == Some(given[n - 1 - j]),
        decreases rest.len(),
    {
        let item = rest.pop().unwrap();
        slots.push(Some(item));
    }
    let mut r: Vec<T> = Vec::new();
    let mut k: usize = 0;
    while k < n
        invariant
            k <= n,
            r.len() == k,
            slots.len() == n,
            given.len() == n,
            order.len() == n,
            forall|j: int| 0 <= j < n ==> #[trigger] order[j] < n,
            forall|i: int, j: int| 0 <= i < j < n ==> order[i] != order[j],
            forall|j: int| 0 <= j < k ==> #[trigger] r[j] == given[order[j] as int],
            forall|j: int|
                k <= j < n ==> slots[n - 1 - order[j]] == Some(given[#[trigger] order[j] as int]),
        decreases n - k,
    {
        let at: usize = n - 1 - order[k];
        let item = slots[at].take();
        r.push(item.unwrap());
        k += 1;
    }
    r
}

} // verus!
