//! Runs of positions, and the merge sort of a run by the values it refers to.
//!
//! A run is a sequence of positions into one sequence of values. Sorting never
//! moves a value: it orders positions, comparing through to the values.

use crate::order::le;
use crate::order::total_order;
use vstd::multiset::group_multiset_axioms;
use vstd::prelude::*;
use vstd::seq_lib::group_to_multiset_ensures;
use vstd::seq_lib::lemma_multiset_commutative;

verus! {

/// The value at position `a` is `le` to the value at position `b`.
pub open spec fn value_le<T: Ord>(data: Seq<T>, a: usize, b: usize) -> bool {
    le(data[a as int], data[b as int])
}

/// Along `run`, no position's value is followed by one it is not `le` to.
pub open spec fn ordered<T: Ord>(data: Seq<T>, run: Seq<usize>) -> bool {
    forall|i: int, j: int| 0 <= i < j < run.len() ==> value_le(data, run[i], run[j])
}

/// The positions of `run` go up from each to the next.
pub open spec fn ascending(run: Seq<usize>) -> bool {
    forall|i: int, j: int| 0 <= i < j < run.len() ==> run[i] < run[j]
}

/// Along `run`, of two positions whose values tie the smaller one comes
/// first: a later position whose value is `le` to that of an earlier one is
/// the greater position.
pub open spec fn ties_ascend<T: Ord>(data: Seq<T>, run: Seq<usize>) -> bool {
    forall|i: int, j: int|
        0 <= i < j < run.len() && value_le(data, run[j], run[i]) ==> run[i] < run[j]
}

/// The merge of two runs: the head of `left` goes first while its value is
/// `le` to that of the head of `right` (so ties go to `left`), else the head of
/// `right`; when one run is used up, the rest of the other follows as it is.
pub open spec fn merged<T: Ord>(data: Seq<T>, left: Seq<usize>, right: Seq<usize>) -> Seq<usize>
    decreases left.len() + right.len(),
{
    if left.len() == 0 {
        right
    } else if right.len() == 0 {
        left
    } else if value_le(data, left[0], right[0]) {
        seq![left[0]] + merged(data, left.skip(1), right)
    } else {
        seq![right[0]] + merged(data, left, right.skip(1))
    }
}

/// The run that merge sort makes of `run`: a run of at most one position is
/// left alone, a longer one is cut at the middle and its two sorted halves are
/// merged.
pub open spec fn sorted_run<T: Ord>(data: Seq<T>, run: Seq<usize>) -> Seq<usize>
    decreases run.len(),
{
    if run.len() <= 1 {
        run
    } else {
        let mid = (run.len() / 2) as int;
        merged(data, sorted_run(data, run.take(mid)), sorted_run(data, run.skip(mid)))
    }
}

/// What one pull does to the run that a producer has left, whatever the
/// comparisons answered: the position handed out leaves the run, and nothing
/// else changes in what the run holds; a pull hands out nothing only when
/// nothing is left.
pub open spec fn pulled(before: Seq<usize>, got: Option<usize>, after: Seq<usize>) -> bool {
    match got {
        Some(i) => before.to_multiset() == after.to_multiset().insert(i),
        None => before.len() == 0 && after.len() == 0,
    }
}

/// What one pull does where comparisons are reliable: the head of the run is
/// handed out and the rest stays, in its order.
pub open spec fn pulled_head(before: Seq<usize>, got: Option<usize>, after: Seq<usize>) -> bool {
    match got {
        Some(i) => before.len() > 0 && before[0] == i && after == before.skip(1),
        None => before.len() == 0 && after.len() == 0,
    }
}

/// One pull took a position out of the run `from` and left what the run
/// `other` holds alone, whatever the comparisons answered.
pub open spec fn took(
    from: Seq<usize>,
    other: Seq<usize>,
    got: Option<usize>,
    from_after: Seq<usize>,
    other_after: Seq<usize>,
) -> bool {
    &&& from.len() > 0
    &&& got is Some
    &&& pulled(from, got, from_after)
    &&& other_after.to_multiset() == other.to_multiset()
}

/// One pull took the head of the run `from`, which keeps its rest in order,
/// and left the run `other` as it was.
pub open spec fn took_head(
    from: Seq<usize>,
    other: Seq<usize>,
    got: Option<usize>,
    from_after: Seq<usize>,
    other_after: Seq<usize>,
) -> bool {
    &&& from.len() > 0
    &&& got == Some(from[0])
    &&& from_after == from.skip(1)
    &&& other_after == other
}

/// The merge of `left` and `right` begins with the head of `left`: `left` has
/// one, and `right` has none or one whose value is not smaller.
pub open spec fn left_first<T: Ord>(data: Seq<T>, left: Seq<usize>, right: Seq<usize>) -> bool {
    left.len() > 0 && (right.len() == 0 || value_le(data, left[0], right[0]))
}

/// The merge of `left` and `right` begins with the head of `right`: `right`
/// has one, and `left` has none or one whose value is greater.
pub open spec fn right_first<T: Ord>(data: Seq<T>, left: Seq<usize>, right: Seq<usize>) -> bool {
    right.len() > 0 && (left.len() == 0 || !value_le(data, left[0], right[0]))
}

/// A merge holds exactly the positions of its two runs, whatever the order of
/// the values is.
pub proof fn lemma_merged_elements<T: Ord>(data: Seq<T>, left: Seq<usize>, right: Seq<usize>)
    ensures
        merged(data, left, right).to_multiset() == left.to_multiset().add(right.to_multiset()),
        merged(data, left, right).len() == left.len() + right.len(),
    decreases left.len() + right.len(),
{
    broadcast use group_to_multiset_ensures;

    let m = merged(data, left, right);
    if left.len() == 0 {
        assert(left.to_multiset().len() == 0);
        assert(m.to_multiset() =~= left.to_multiset().add(right.to_multiset()));
    } else if right.len() == 0 {
        assert(right.to_multiset().len() == 0);
        assert(m.to_multiset() =~= left.to_multiset().add(right.to_multiset()));
    } else if value_le(data, left[0], right[0]) {
        let rest = merged(data, left.skip(1), right);
        lemma_merged_elements(data, left.skip(1), right);
        assert(m =~= rest.insert(0, left[0]));
        assert(left =~= left.skip(1).insert(0, left[0]));
        assert(m.to_multiset() =~= left.to_multiset().add(right.to_multiset()));
    } else {
        let rest = merged(data, left, right.skip(1));
        lemma_merged_elements(data, left, right.skip(1));
        assert(m =~= rest.insert(0, right[0]));
        assert(right =~= right.skip(1).insert(0, right[0]));
        assert(m.to_multiset() =~= left.to_multiset().add(right.to_multiset()));
    }
}

/// Merge sort keeps exactly the positions it was given, whatever the order of
/// the values is.
pub proof fn lemma_sorted_run_elements<T: Ord>(data: Seq<T>, run: Seq<usize>)
    ensures
        sorted_run(data, run).to_multiset() == run.to_multiset(),
        sorted_run(data, run).len() == run.len(),
    decreases run.len(),
{
    if run.len() > 1 {
        let mid = (run.len() / 2) as int;
        let lo = run.take(mid);
        let hi = run.skip(mid);
        lemma_sorted_run_elements(data, lo);
        lemma_sorted_run_elements(data, hi);
        lemma_merged_elements(data, sorted_run(data, lo), sorted_run(data, hi));
        lemma_multiset_commutative(lo, hi);
        assert(run =~= lo + hi);
    }
}

/// Pulling from the left run of a merge is a pull from the merge, whatever
/// the order of the values is.
pub proof fn lemma_pull_left<T: Ord>(
    data: Seq<T>,
    left: Seq<usize>,
    right: Seq<usize>,
    got: Option<usize>,
    rest: Seq<usize>,
)
    requires
        left.len() > 0,
        pulled(left, got, rest),
    ensures
        pulled(merged(data, left, right), got, merged(data, rest, right)),
{
    broadcast use group_to_multiset_ensures, group_multiset_axioms;

    lemma_merged_elements(data, left, right);
    lemma_merged_elements(data, rest, right);
    assert(merged(data, left, right).to_multiset() =~= merged(
        data,
        rest,
        right,
    ).to_multiset().insert(got->0));
}

/// Pulling from the right run of a merge is a pull from the merge, whatever
/// the order of the values is.
pub proof fn lemma_pull_right<T: Ord>(
    data: Seq<T>,
    left: Seq<usize>,
    right: Seq<usize>,
    got: Option<usize>,
    rest: Seq<usize>,
)
    requires
        right.len() > 0,
        pulled(right, got, rest),
    ensures
        pulled(merged(data, left, right), got, merged(data, left, rest)),
{
    broadcast use group_to_multiset_ensures, group_multiset_axioms;

    lemma_merged_elements(data, left, right);
    lemma_merged_elements(data, left, rest);
    assert(merged(data, left, right).to_multiset() =~= merged(
        data,
        left,
        rest,
    ).to_multiset().insert(got->0));
}

/// Pulling the head of the left run, where the merge takes it first, pulls the
/// head of the merge.
pub proof fn lemma_pull_left_head<T: Ord>(
    data: Seq<T>,
    left: Seq<usize>,
    right: Seq<usize>,
    got: Option<usize>,
    rest: Seq<usize>,
)
    requires
        left_first(data, left, right),
        pulled_head(left, got, rest),
    ensures
        pulled_head(merged(data, left, right), got, merged(data, rest, right)),
{
    assert(merged(data, rest, right) =~= merged(data, left, right).skip(1));
}

/// Pulling the head of the right run, where the merge takes it first, pulls
/// the head of the merge.
pub proof fn lemma_pull_right_head<T: Ord>(
    data: Seq<T>,
    left: Seq<usize>,
    right: Seq<usize>,
    got: Option<usize>,
    rest: Seq<usize>,
)
    requires
        right_first(data, left, right),
        pulled_head(right, got, rest),
    ensures
        pulled_head(merged(data, left, right), got, merged(data, left, rest)),
{
    assert(merged(data, left, rest) =~= merged(data, left, right).skip(1));
}

/// Every position of a merge comes from one of its two runs.
proof fn lemma_merged_member<T: Ord>(data: Seq<T>, left: Seq<usize>, right: Seq<usize>, k: int)
    requires
        0 <= k < merged(data, left, right).len(),
    ensures
        left.contains(merged(data, left, right)[k]) || right.contains(merged(data, left, right)[k]),
{
    broadcast use group_to_multiset_ensures;

    let m = merged(data, left, right);
    lemma_merged_elements(data, left, right);
    assert(m.contains(m[k]));
    assert(m.to_multiset().count(m[k]) > 0);
    assert(left.to_multiset().count(m[k]) > 0 || right.to_multiset().count(m[k]) > 0);
}

/// Under a total order, the merge of two ordered runs is ordered.
pub proof fn lemma_merged_ordered<T: Ord>(data: Seq<T>, left: Seq<usize>, right: Seq<usize>)
    requires
        total_order::<T>(),
        ordered(data, left),
        ordered(data, right),
    ensures
        ordered(data, merged(data, left, right)),
    decreases left.len() + right.len(),
{
    let m = merged(data, left, right);
    if left.len() == 0 || right.len() == 0 {
    } else if value_le(data, left[0], right[0]) {
        let rest = merged(data, left.skip(1), right);
        lemma_merged_ordered(data, left.skip(1), right);
        assert forall|i: int, j: int| 0 <= i < j < m.len() implies value_le(data, m[i], m[j]) by {
            if i == 0 {
                lemma_merged_member(data, left.skip(1), right, j - 1);
                let y = rest[j - 1];
                if left.skip(1).contains(y) {
                    let a = choose|a: int| 0 <= a < left.skip(1).len() && left.skip(1)[a] == y;
                    assert(value_le(data, left[0], left[a + 1]));
                } else {
                    let b = choose|b: int| 0 <= b < right.len() && right[b] == y;
                    if b > 0 {
                        assert(value_le(data, right[0], right[b]));
                    }
                }
            } else {
                assert(value_le(data, rest[i - 1], rest[j - 1]));
            }
        }
    } else {
        let rest = merged(data, left, right.skip(1));
        lemma_merged_ordered(data, left, right.skip(1));
        assert(value_le(data, right[0], left[0]));
        assert forall|i: int, j: int| 0 <= i < j < m.len() implies value_le(data, m[i], m[j]) by {
            if i == 0 {
                lemma_merged_member(data, left, right.skip(1), j - 1);
                let y = rest[j - 1];
                if right.skip(1).contains(y) {
                    let b = choose|b: int| 0 <= b < right.skip(1).len() && right.skip(1)[b] == y;
                    assert(value_le(data, right[0], right[b + 1]));
                } else {
                    let a = choose|a: int| 0 <= a < left.len() && left[a] == y;
                    if a > 0 {
                        assert(value_le(data, left[0], left[a]));
                    }
                }
            } else {
                assert(value_le(data, rest[i - 1], rest[j - 1]));
            }
        }
    }
}

/// Under a total order, merge sort makes an ordered run of any run.
pub proof fn lemma_sorted_run_ordered<T: Ord>(data: Seq<T>, run: Seq<usize>)
    requires
        total_order::<T>(),
    ensures
        ordered(data, sorted_run(data, run)),
    decreases run.len(),
{
    if run.len() > 1 {
        let mid = (run.len() / 2) as int;
        lemma_sorted_run_ordered(data, run.take(mid));
        lemma_sorted_run_ordered(data, run.skip(mid));
        lemma_merged_ordered(data, sorted_run(data, run.take(mid)), sorted_run(data, run.skip(mid)));
    }
}

/// Where no value of `left` is above a value of `right`, the merge is `left`
/// followed by `right`.
pub proof fn lemma_merged_in_sequence<T: Ord>(data: Seq<T>, left: Seq<usize>, right: Seq<usize>)
    requires
        forall|i: int, j: int|
            0 <= i < left.len() && 0 <= j < right.len() ==> value_le(data, left[i], right[j]),
    ensures
        merged(data, left, right) == left + right,
    decreases left.len(),
{
    if left.len() == 0 || right.len() == 0 {
        assert(merged(data, left, right) =~= left + right);
    } else {
        assert(value_le(data, left[0], right[0]));
        let tail = left.skip(1);
        assert forall|i: int, j: int| 0 <= i < tail.len() && 0 <= j < right.len() implies value_le(
            data,
            tail[i],
            right[j],
        ) by {
            assert(value_le(data, left[i + 1], right[j]));
        }
        lemma_merged_in_sequence(data, tail, right);
        assert(merged(data, left, right) =~= left + right);
    }
}

/// Merge sort leaves an ordered run as it is.
pub proof fn lemma_sorted_run_of_ordered<T: Ord>(data: Seq<T>, run: Seq<usize>)
    requires
        ordered(data, run),
    ensures
        sorted_run(data, run) == run,
    decreases run.len(),
{
    if run.len() > 1 {
        let mid = (run.len() / 2) as int;
        let lo = run.take(mid);
        let hi = run.skip(mid);
        assert forall|i: int, j: int| 0 <= i < j < lo.len() implies value_le(data, lo[i], lo[j]) by {
            assert(value_le(data, run[i], run[j]));
        }
        assert forall|i: int, j: int| 0 <= i < j < hi.len() implies value_le(data, hi[i], hi[j]) by {
            assert(value_le(data, run[mid + i], run[mid + j]));
        }
        lemma_sorted_run_of_ordered(data, lo);
        lemma_sorted_run_of_ordered(data, hi);
        assert forall|i: int, j: int| 0 <= i < lo.len() && 0 <= j < hi.len() implies value_le(
            data,
            lo[i],
            hi[j],
        ) by {
            assert(value_le(data, run[i], run[mid + j]));
        }
        lemma_merged_in_sequence(data, lo, hi);
        assert(run =~= lo + hi);
    }
}

/// Every position of a sorted run is a position of the run it was made of.
proof fn lemma_sorted_run_member<T: Ord>(data: Seq<T>, run: Seq<usize>, k: int)
    requires
        0 <= k < sorted_run(data, run).len(),
    ensures
        run.contains(sorted_run(data, run)[k]),
{
    broadcast use group_to_multiset_ensures;

    let out = sorted_run(data, run);
    lemma_sorted_run_elements(data, run);
    assert(out.contains(out[k]));
    assert(out.to_multiset().count(out[k]) > 0);
}

/// Under a total order, a merge keeps tied positions in ascending order,
/// where both runs are ordered and do so and every position of `left` is
/// smaller than every position of `right`.
pub proof fn lemma_merged_ties_ascend<T: Ord>(data: Seq<T>, left: Seq<usize>, right: Seq<usize>)
    requires
        total_order::<T>(),
        ordered(data, left),
        ordered(data, right),
        ties_ascend(data, left),
        ties_ascend(data, right),
        forall|i: int, j: int| 0 <= i < left.len() && 0 <= j < right.len() ==> left[i] < right[j],
    ensures
        ties_ascend(data, merged(data, left, right)),
    decreases left.len() + right.len(),
{
    let m = merged(data, left, right);
    if left.len() == 0 || right.len() == 0 {
    } else if value_le(data, left[0], right[0]) {
        let tail = left.skip(1);
        let rest = merged(data, tail, right);
        assert forall|i: int, j: int| 0 <= i < tail.len() && 0 <= j < right.len() implies tail[i]
            < right[j] by {
            assert(left[i + 1] < right[j]);
        }
        assert(ties_ascend(data, tail)) by {
            assert forall|i: int, j: int|
                0 <= i < j < tail.len() && value_le(data, tail[j], tail[i]) implies tail[i]
                < tail[j] by {
                assert(value_le(data, left[j + 1], left[i + 1]));
            }
        }
        lemma_merged_ties_ascend(data, tail, right);
        assert forall|i: int, j: int|
            0 <= i < j < m.len() && value_le(data, m[j], m[i]) implies m[i] < m[j] by {
            if i == 0 {
                lemma_merged_member(data, tail, right, j - 1);
                let y = rest[j - 1];
                if tail.contains(y) {
                    let a = choose|a: int| 0 <= a < tail.len() && tail[a] == y;
                    assert(value_le(data, left[a + 1], left[0]));
                } else {
                    let b = choose|b: int| 0 <= b < right.len() && right[b] == y;
                    assert(left[0] < right[b]);
                }
            } else {
                assert(value_le(data, rest[j - 1], rest[i - 1]));
            }
        }
    } else {
        let tail = right.skip(1);
        let rest = merged(data, left, tail);
        assert forall|i: int, j: int| 0 <= i < left.len() && 0 <= j < tail.len() implies left[i]
            < tail[j] by {
            assert(left[i] < right[j + 1]);
        }
        assert(ties_ascend(data, tail)) by {
            assert forall|i: int, j: int|
                0 <= i < j < tail.len() && value_le(data, tail[j], tail[i]) implies tail[i]
                < tail[j] by {
                assert(value_le(data, right[j + 1], right[i + 1]));
            }
        }
        lemma_merged_ties_ascend(data, left, tail);
        assert forall|i: int, j: int|
            0 <= i < j < m.len() && value_le(data, m[j], m[i]) implies m[i] < m[j] by {
            if i == 0 {
                lemma_merged_member(data, left, tail, j - 1);
                let y = rest[j - 1];
                if tail.contains(y) {
                    let b = choose|b: int| 0 <= b < tail.len() && tail[b] == y;
                    assert(value_le(data, right[b + 1], right[0]));
                } else {
                    // a value of `left` is never tied with the head of `right`
                    let a = choose|a: int| 0 <= a < left.len() && left[a] == y;
                    if a > 0 {
                        assert(value_le(data, left[0], left[a]));
                    }
                    assert(value_le(data, left[0], right[0]));
                }
            } else {
                assert(value_le(data, rest[j - 1], rest[i - 1]));
            }
        }
    }
}

/// Under a total order, merge sort is stable: in the sorted run of an
/// ascending run, positions whose values tie stay in ascending order.
pub proof fn lemma_sorted_run_ties_ascend<T: Ord>(data: Seq<T>, run: Seq<usize>)
    requires
        total_order::<T>(),
        ascending(run),
    ensures
        ties_ascend(data, sorted_run(data, run)),
    decreases run.len(),
{
    if run.len() > 1 {
        let mid = (run.len() / 2) as int;
        let lo = run.take(mid);
        let hi = run.skip(mid);
        let left = sorted_run(data, lo);
        let right = sorted_run(data, hi);
        assert(ascending(lo)) by {
            assert forall|i: int, j: int| 0 <= i < j < lo.len() implies lo[i] < lo[j] by {
                assert(run[i] < run[j]);
            }
        }
        assert(ascending(hi)) by {
            assert forall|i: int, j: int| 0 <= i < j < hi.len() implies hi[i] < hi[j] by {
                assert(run[mid + i] < run[mid + j]);
            }
        }
        lemma_sorted_run_ties_ascend(data, lo);
        lemma_sorted_run_ties_ascend(data, hi);
        lemma_sorted_run_ordered(data, lo);
        lemma_sorted_run_ordered(data, hi);
        assert forall|i: int, j: int| 0 <= i < left.len() && 0 <= j < right.len() implies left[i]
            < right[j] by {
            lemma_sorted_run_member(data, lo, i);
            lemma_sorted_run_member(data, hi, j);
            let a = choose|a: int| 0 <= a < lo.len() && lo[a] == left[i];
            let b = choose|b: int| 0 <= b < hi.len() && hi[b] == right[j];
            assert(run[a] < run[mid + b]);
        }
        lemma_merged_ties_ascend(data, left, right);
    }
}

} // verus!
