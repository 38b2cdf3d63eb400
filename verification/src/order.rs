//! Sorting of lengths, smallest first or largest first.

use vstd::prelude::*;
use vstd::relations::{sorted_by, total_ordering};
use vstd::seq_lib::{lemma_multiset_commutative, lemma_sorted_unique};

verus! {

/// The order `a <= b` on lengths.
pub open spec fn at_most() -> spec_fn(u32, u32) -> bool {
    |a: u32, b: u32| a <= b
}

/// The order `a >= b` on lengths.
pub open spec fn at_least() -> spec_fn(u32, u32) -> bool {
    |a: u32, b: u32| a >= b
}

/// No length in `lengths` is followed by a smaller one.
pub open spec fn is_ascending(lengths: Seq<u32>) -> bool {
    forall|i: int, j: int| 0 <= i < j < lengths.len() ==> lengths[i] <= lengths[j]
}

/// No length in `lengths` is followed by a larger one.
pub open spec fn is_descending(lengths: Seq<u32>) -> bool {
    forall|i: int, j: int| 0 <= i < j < lengths.len() ==> lengths[i] >= lengths[j]
}

/// The lengths of `lengths`, each as often as it occurs there, smallest first.
pub open spec fn ascending(lengths: Seq<u32>) -> Seq<u32> {
    lengths.sort_by(at_most())
}

/// The lengths of `lengths`, each as often as it occurs there, largest first.
pub open spec fn descending(lengths: Seq<u32>) -> Seq<u32> {
    lengths.sort_by(at_least())
}

/// `ascending(lengths)` is in ascending order and holds what `lengths` holds.
pub proof fn ascending_sorts(lengths: Seq<u32>)
    ensures
        is_ascending(ascending(lengths)),
        ascending(lengths).to_multiset() == lengths.to_multiset(),
        ascending(lengths).len() == lengths.len(),
{
    assert(total_ordering(at_most()));
    lengths.lemma_sort_by_ensures(at_most());
    lengths.to_multiset_ensures();
    ascending(lengths).to_multiset_ensures();
    let sorted = ascending(lengths);
    assert forall|i: int, j: int| 0 <= i < j < sorted.len() implies sorted[i] <= sorted[j] by {
        assert(at_most()(sorted[i], sorted[j]));
    }
}

/// `descending(lengths)` is in descending order and holds what `lengths` holds.
pub proof fn descending_sorts(lengths: Seq<u32>)
    ensures
        is_descending(descending(lengths)),
        descending(lengths).to_multiset() == lengths.to_multiset(),
        descending(lengths).len() == lengths.len(),
{
    assert(total_ordering(at_least()));
    lengths.lemma_sort_by_ensures(at_least());
    lengths.to_multiset_ensures();
    descending(lengths).to_multiset_ensures();
    let sorted = descending(lengths);
    assert forall|i: int, j: int| 0 <= i < j < sorted.len() implies sorted[i] >= sorted[j] by {
        assert(at_least()(sorted[i], sorted[j]));
    }
}

/// Any ascending arrangement of the lengths in `lengths` is `ascending(lengths)`.
pub proof fn ascending_is_unique(lengths: Seq<u32>, arranged: Seq<u32>)
    requires
        is_ascending(arranged),
        arranged.to_multiset() == lengths.to_multiset(),
    ensures
        arranged == ascending(lengths),
{
    lengths.lemma_sort_by_ensures(at_most());
    assert(total_ordering(at_most()));
    assert(sorted_by(arranged, at_most()));
    lemma_sorted_unique(arranged, ascending(lengths), at_most());
}

/// Any descending arrangement of the lengths in `lengths` is `descending(lengths)`.
pub proof fn descending_is_unique(lengths: Seq<u32>, arranged: Seq<u32>)
    requires
        is_descending(arranged),
        arranged.to_multiset() == lengths.to_multiset(),
    ensures
        arranged == descending(lengths),
{
    lengths.lemma_sort_by_ensures(at_least());
    assert(total_ordering(at_least()));
    assert(sorted_by(arranged, at_least()));
    lemma_sorted_unique(arranged, descending(lengths), at_least());
}

/// Merges two ascending runs into one.
fn merge(left: &Vec<u32>, right: &Vec<u32>) -> (merged: Vec<u32>)
    requires
        is_ascending(left@),
        is_ascending(right@),
    ensures
        is_ascending(merged@),
        merged@.to_multiset() == left@.to_multiset().add(right@.to_multiset()),
{
    let mut merged: Vec<u32> = Vec::new();
    let mut i: usize = 0;
    let mut j: usize = 0;
    proof {
        assert(left@.take(0).to_multiset().add(right@.take(0).to_multiset())
            =~= merged@.to_multiset()) by {
            broadcast use vstd::seq_lib::group_to_multiset_ensures;
            broadcast use vstd::multiset::group_multiset_axioms;

            left@.take(0).to_multiset_ensures();
            right@.take(0).to_multiset_ensures();
            merged@.to_multiset_ensures();
        }
    }
    while i < left.len() || j < right.len()
        invariant
            i <= left.len(),
            j <= right.len(),
            is_ascending(left@),
            is_ascending(right@),
            is_ascending(merged@),
            merged@.to_multiset() == left@.take(i as int).to_multiset().add(
                right@.take(j as int).to_multiset(),
            ),
            forall|k: int| 0 <= k < merged.len() && i < left.len() ==> merged[k] <= left[i as int],
            forall|k: int| 0 <= k < merged.len() && j < right.len() ==> merged[k] <= right[j as int],
        decreases left.len() - i + (right.len() - j),
    {
        let ghost before = merged@;
        let from_left: bool = if i >= left.len() {
            false
        } else if j >= right.len() {
            true
        } else {
            left[i] <= right[j]
        };
        if from_left {
            let x: u32 = left[i];
            merged.push(x);
            proof {
                assert(left@.take(i + 1) == left@.take(i as int).push(x));
                vstd::seq_lib::to_multiset_build(left@.take(i as int), x);
                vstd::seq_lib::to_multiset_build(before, x);
                assert(merged@.to_multiset() =~= left@.take(i + 1).to_multiset().add(
                    right@.take(j as int).to_multiset(),
                )) by {
                    broadcast use vstd::multiset::group_multiset_axioms;

                }
            }
            i += 1;
        } else {
            let x: u32 = right[j];
            merged.push(x);
            proof {
                assert(right@.take(j + 1) == right@.take(j as int).push(x));
                vstd::seq_lib::to_multiset_build(right@.take(j as int), x);
                vstd::seq_lib::to_multiset_build(before, x);
                assert(merged@.to_multiset() =~= left@.take(i as int).to_multiset().add(
                    right@.take(j + 1).to_multiset(),
                )) by {
                    broadcast use vstd::multiset::group_multiset_axioms;

                }
            }
            j += 1;
        }
    }
    proof {
        assert(left@.take(i as int) == left@);
        assert(right@.take(j as int) == right@);
    }
    merged
}

/// The ascending arrangement of `lengths[from..to]`.
fn sort_range(lengths: &[u32], from: usize, to: usize) -> (sorted: Vec<u32>)
    requires
        from <= to <= lengths.len(),
    ensures
        is_ascending(sorted@),
        sorted@.to_multiset() == lengths@.subrange(from as int, to as int).to_multiset(),
    decreases to - from,
{
    if to - from <= 1 {
        let mut sorted: Vec<u32> = Vec::new();
        if from < to {
            sorted.push(lengths[from]);
        }
        proof {
            assert(sorted@ == lengths@.subrange(from as int, to as int));
        }
        sorted
    } else {
        let middle: usize = from + (to - from) / 2;
        let left = sort_range(lengths, from, middle);
        let right = sort_range(lengths, middle, to);
        proof {
            let low = lengths@.subrange(from as int, middle as int);
            let high = lengths@.subrange(middle as int, to as int);
            assert(lengths@.subrange(from as int, to as int) == low + high);
            lemma_multiset_commutative(low, high);
        }
        merge(&left, &right)
    }
}

/// Returns the lengths of `lengths` in ascending order.
pub fn sorted_ascending(lengths: &[u32]) -> (sorted: Vec<u32>)
    ensures
        sorted@ == ascending(lengths@),
{
    let sorted = sort_range(lengths, 0, lengths.len());
    proof {
        assert(lengths@.subrange(0, lengths.len() as int) == lengths@);
        ascending_is_unique(lengths@, sorted@);
    }
    sorted
}

/// Returns the lengths of `lengths` in descending order.
pub fn sorted_descending(lengths: &[u32]) -> (sorted: Vec<u32>)
    ensures
        sorted@ == descending(lengths@),
{
    let rising = sorted_ascending(lengths);
    let mut sorted: Vec<u32> = Vec::new();
    let mut left: usize = rising.len();
    while left > 0
        invariant
            left <= rising.len(),
            sorted.len() == rising.len() - left,
            forall|k: int| 0 <= k < sorted.len() ==> sorted[k] == rising[rising.len() - 1 - k],
        decreases left,
    {
        left -= 1;
        sorted.push(rising[left]);
    }
    proof {
        ascending_sorts(lengths@);
        assert(sorted@ == rising@.reverse());
        rising@.lemma_reverse_to_multiset();
        descending_is_unique(lengths@, sorted@);
    }
    sorted
}

} // verus!
