//! The numeric preprocessor: it puts the numbers in ascending order, which the
//! pruning bounds of the search lean on.
use vstd::prelude::*;
use vstd::seq_lib::lemma_multiset_commutative;
use vstd::seq_lib::lemma_sorted_unique;
use vstd::seq_lib::to_multiset_build;
use vstd::seq_lib::to_multiset_len;
use crate::paths::is_ascending;

verus! {

/// The numbers of `s` in ascending order.
pub open spec fn ascending_order(s: Seq<i64>) -> Seq<i64> {
    s.sort_by(|a: i64, b: i64| a <= b)
}

/// `ascending_order` keeps every number, as often as it occurs, and its result
/// is ascending.
pub proof fn lemma_ascending_order(s: Seq<i64>)
    ensures
        is_ascending(ascending_order(s)),
        ascending_order(s).to_multiset() == s.to_multiset(),
        ascending_order(s).len() == s.len(),
{
    let leq = |a: i64, b: i64| a <= b;
    s.lemma_sort_by_ensures(leq);
    let sorted = ascending_order(s);
    assert forall|i: int, j: int| 0 <= i <= j < sorted.len() implies sorted[i] <= sorted[j] by {
        if i < j {
            assert(leq(sorted[i], sorted[j]));
        }
    }
    to_multiset_len(s);
    to_multiset_len(sorted);
}

/// There is one ascending arrangement of given numbers: an ascending sequence
/// that holds what `s` holds is `ascending_order(s)`.
pub proof fn lemma_ascending_is_unique(s: Seq<i64>, sorted: Seq<i64>)
    requires
        is_ascending(sorted),
        sorted.to_multiset() == s.to_multiset(),
    ensures
        sorted == ascending_order(s),
{
    let leq = |a: i64, b: i64| a <= b;
    s.lemma_sort_by_ensures(leq);
    lemma_sorted_unique(sorted, ascending_order(s), leq);
}

/// Merges two ascending vectors into one.
fn merge(left: &Vec<i64>, right: &Vec<i64>) -> (merged: Vec<i64>)
    requires
        is_ascending(left@),
        is_ascending(right@),
        left.len() + right.len() <= usize::MAX,
    ensures
        is_ascending(merged@),
        merged@.to_multiset() == left@.to_multiset().add(right@.to_multiset()),
        merged.len() == left.len() + right.len(),
{
    let mut merged: Vec<i64> = Vec::with_capacity(left.len() + right.len());
    let mut l: usize = 0;
    let mut r: usize = 0;
    proof {
        lemma_multiset_commutative(left@.take(0), right@.take(0));
        assert(left@.take(0) + right@.take(0) =~= merged@);
    }
    while l < left.len() || r < right.len()
        invariant
            is_ascending(left@),
            is_ascending(right@),
            is_ascending(merged@),
            l <= left.len(),
            r <= right.len(),
            merged.len() == l + r,
            merged@.to_multiset() == left@.take(l as int).to_multiset().add(
                right@.take(r as int).to_multiset(),
            ),
            forall|k: int| 0 <= k < merged.len() && l < left.len() ==> merged[k] <= left[l as int],
            forall|k: int| 0 <= k < merged.len() && r < right.len() ==> merged[k] <= right[r as int],
        decreases left.len() - l + right.len() - r,
    {
        let from_left: bool = if r >= right.len() {
            true
        } else if l >= left.len() {
            false
        } else {
            left[l] <= right[r]
        };
        if from_left {
            let x: i64 = left[l];
            proof {
                to_multiset_build(merged@, x);
                to_multiset_build(left@.take(l as int), x);
                assert(left@.take(l + 1) =~= left@.take(l as int).push(x));
                assert(merged@.push(x).to_multiset() =~= left@.take(l + 1).to_multiset().add(
                    right@.take(r as int).to_multiset(),
                ));
            }
            merged.push(x);
            l += 1;
        } else {
            let x: i64 = right[r];
            proof {
                to_multiset_build(merged@, x);
                to_multiset_build(right@.take(r as int), x);
                assert(right@.take(r + 1) =~= right@.take(r as int).push(x));
                assert(merged@.push(x).to_multiset() =~= left@.take(l as int).to_multiset().add(
                    right@.take(r + 1).to_multiset(),
                ));
            }
            merged.push(x);
            r += 1;
        }
    }
    assert(left@.take(l as int) =~= left@);
    assert(right@.take(r as int) =~= right@);
    merged
}

/// Sorts the numbers of `numbers` from position `low` up to `high`.
fn sort_range(numbers: &Vec<i64>, low: usize, high: usize) -> (sorted: Vec<i64>)
    requires
        low <= high <= numbers.len(),
    ensures
        is_ascending(sorted@),
        sorted@.to_multiset() == numbers@.subrange(low as int, high as int).to_multiset(),
        sorted.len() == high - low,
    decreases high - low,
{
    if high - low <= 1 {
        let mut sorted: Vec<i64> = Vec::new();
        if low < high {
            sorted.push(numbers[low]);
        }
        assert(sorted@ =~= numbers@.subrange(low as int, high as int));
        sorted
    } else {
        let middle: usize = low + (high - low) / 2;
        let left = sort_range(numbers, low, middle);
        let right = sort_range(numbers, middle, high);
        proof {
            let first = numbers@.subrange(low as int, middle as int);
            let second = numbers@.subrange(middle as int, high as int);
            lemma_multiset_commutative(first, second);
            assert(first + second =~= numbers@.subrange(low as int, high as int));
        }
        merge(&left, &right)
    }
}

/// Puts the numbers in ascending order. Equal numbers stay as many as they
/// were.
pub fn sort_numbers(numbers: &Vec<i64>) -> (sorted: Vec<i64>)
    ensures
        sorted@ == ascending_order(numbers@),
        is_ascending(sorted@),
        sorted@.to_multiset() == numbers@.to_multiset(),
        sorted.len() == numbers.len(),
{
    let sorted = sort_range(numbers, 0, numbers.len());
    proof {
        assert(numbers@.subrange(0, numbers.len() as int) =~= numbers@);
        lemma_ascending_is_unique(numbers@, sorted@);
    }
    sorted
}

} // verus!
