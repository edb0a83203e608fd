//! Sorting a slice: find the permutation that puts it in order, then apply it.

use crate::merge::merge;
use crate::order::comparable;
use crate::order::le;
use crate::order::sorted;
use crate::order::total_order;
use crate::permutation::identity;
use crate::permutation::is_permutation;
use crate::permutation::lemma_each_once_is_permutation;
use crate::permutation::lemma_permuted_by_identity;
use crate::permutation::lemma_permuted_keeps_elements;
use crate::permutation::permuted;
use crate::permutation::positions;
use crate::reorder::reorder;
use crate::run::lemma_sorted_run_elements;
use crate::run::lemma_sorted_run_of_ordered;
use crate::run::lemma_sorted_run_ordered;
use crate::run::lemma_sorted_run_ties_ascend;
use crate::run::ordered;
use crate::run::sorted_run;
use crate::run::ties_ascend;
use crate::run::value_le;
use vstd::prelude::*;
use vstd::seq_lib::group_to_multiset_ensures;

verus! {

/// The permutation that merge sort finds for `s`: the merge sort of all the
/// positions of `s`, by the values of `s`.
pub open spec fn sort_permutation<T: Ord>(s: Seq<T>) -> Seq<usize> {
    sorted_run(s, identity(s.len()))
}

/// `s` as merge sort leaves it.
pub open spec fn merge_sorted<T: Ord>(s: Seq<T>) -> Seq<T> {
    permuted(s, sort_permutation(s))
}

/// The permutation found for `s` holds each position of `s` exactly once,
/// whatever the order of the values is.
pub proof fn lemma_sort_permutation_is_permutation<T: Ord>(s: Seq<T>)
    requires
        s.len() <= usize::MAX,
    ensures
        sort_permutation(s).to_multiset() == identity(s.len()).to_multiset(),
        is_permutation(sort_permutation(s), s.len()),
{
    lemma_sorted_run_elements(s, identity(s.len()));
    lemma_each_once_is_permutation(sort_permutation(s), s.len());
}

/// Sorting keeps the length, and neither loses nor duplicates an element,
/// whatever the order of the values is.
pub proof fn lemma_merge_sorted_keeps_elements<T: Ord>(s: Seq<T>)
    requires
        s.len() <= usize::MAX,
    ensures
        merge_sorted(s).len() == s.len(),
        merge_sorted(s).to_multiset() == s.to_multiset(),
{
    lemma_sort_permutation_is_permutation(s);
    lemma_permuted_keeps_elements(s, sort_permutation(s));
}

/// Under a total order, what sorting leaves is sorted.
pub proof fn lemma_merge_sorted_is_sorted<T: Ord>(s: Seq<T>)
    requires
        total_order::<T>(),
    ensures
        sorted(merge_sorted(s)),
{
    let p = sort_permutation(s);
    lemma_sorted_run_ordered(s, identity(s.len()));
    assert forall|i: int, j: int| 0 <= i < j < merge_sorted(s).len() implies le(
        merge_sorted(s)[i],
        merge_sorted(s)[j],
    ) by {
        assert(value_le(s, p[i], p[j]));
    }
}

/// Under a total order, sorting is stable: of two elements that tie, the one
/// that stood first comes first.
pub proof fn lemma_sort_permutation_is_stable<T: Ord>(s: Seq<T>)
    requires
        s.len() <= usize::MAX,
        total_order::<T>(),
    ensures
        ties_ascend(s, sort_permutation(s)),
{
    lemma_sorted_run_ties_ascend(s, identity(s.len()));
}

/// Sorting a sorted sequence leaves every element where it is.
pub proof fn lemma_merge_sorted_of_sorted<T: Ord>(s: Seq<T>)
    requires
        s.len() <= usize::MAX,
        sorted(s),
    ensures
        merge_sorted(s) == s,
{
    let id = identity(s.len());
    assert(ordered(s, id));
    lemma_sorted_run_of_ordered(s, id);
    lemma_permuted_by_identity(s);
}

/// Sorting a second time changes nothing.
pub proof fn lemma_merge_sorted_twice<T: Ord>(s: Seq<T>)
    requires
        s.len() <= usize::MAX,
        total_order::<T>(),
    ensures
        merge_sorted(merge_sorted(s)) == merge_sorted(s),
{
    lemma_merge_sorted_is_sorted(s);
    lemma_merge_sorted_keeps_elements(s);
    lemma_merge_sorted_of_sorted(merge_sorted(s));
}

/// Sorting a sequence of at most one element leaves it as it is.
pub proof fn lemma_merge_sorted_of_short<T: Ord>(s: Seq<T>)
    requires
        s.len() <= 1,
    ensures
        merge_sorted(s) == s,
{
    lemma_permuted_by_identity(s);
}

/// Finds the permutation that puts `data` in order, without touching `data`
/// but to compare its elements. Of two elements that tie, the one that stands
/// first comes first.
pub fn build_permutation<T: Ord>(data: &[T]) -> (permutation: Vec<usize>)
    ensures
        is_permutation(permutation@, data@.len()),
        permutation@.to_multiset() == identity(data@.len()).to_multiset(),
        comparable::<T>() ==> permutation@ == sort_permutation(data@),
        comparable::<T>() && total_order::<T>() ==> ordered(data@, permutation@),
        comparable::<T>() && total_order::<T>() ==> ties_ascend(data@, permutation@),
        data@.len() <= 1 ==> permutation@ == identity(data@.len()),
{
    broadcast use group_to_multiset_ensures;

    let indexes = positions(data.len());
    let permutation = merge(data, indexes.as_slice()).collect();
    proof {
        lemma_sort_permutation_is_permutation(data@);
        lemma_each_once_is_permutation(permutation@, data@.len());
        if total_order::<T>() {
            lemma_sorted_run_ordered(data@, identity(data@.len()));
            lemma_sort_permutation_is_stable(data@);
        }
        if data@.len() <= 1 {
            assert(permutation@.len() == permutation@.to_multiset().len());
            assert(indexes@.len() == indexes@.to_multiset().len());
            if data@.len() == 1 {
                assert(permutation@.contains(permutation@[0]));
                assert(indexes@.to_multiset().count(permutation@[0]) > 0);
            }
            assert(permutation@ =~= indexes@);
        }
    }
    permutation
}

/// Sorting in place by merge sort over positions.
pub trait Mergesort {
    fn mergesort(&mut self);
}

impl<T: Ord> Mergesort for [T] {
    /// Sorts the slice. Elements are compared and exchanged, nothing else is
    /// done to them.
    fn mergesort(&mut self)
        ensures
            final(self)@.len() == old(self)@.len(),
            final(self)@.to_multiset() == old(self)@.to_multiset(),
            comparable::<T>() ==> final(self)@ == merge_sorted(old(self)@),
            comparable::<T>() && total_order::<T>() ==> sorted(final(self)@),
            comparable::<T>() && sorted(old(self)@) ==> final(self)@ == old(self)@,
            old(self)@.len() <= 1 ==> final(self)@ == old(self)@,
    {
        let indexes = build_permutation(self);
        proof {
            assert(self@.len() == indexes.len() <= usize::MAX);
            lemma_permuted_keeps_elements(self@, indexes@);
            if comparable::<T>() {
                if total_order::<T>() {
                    lemma_merge_sorted_is_sorted(self@);
                }
                if sorted(self@) {
                    lemma_merge_sorted_of_sorted(self@);
                }
            }
            if self@.len() <= 1 {
                lemma_permuted_by_identity(self@);
            }
        }
        reorder(self, indexes.as_slice());
    }
}

} // verus!
