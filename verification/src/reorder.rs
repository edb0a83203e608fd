//! Applying a permutation to a slice, in place and without copying an element.

use crate::permutation::is_permutation;
use crate::permutation::permuted;
use crate::permutation::positions;
use vstd::multiset::group_multiset_axioms;
use vstd::prelude::*;
use vstd::seq_lib::group_to_multiset_ensures;
use vstd::seq_lib::to_multiset_update;

verus! {

/// Exchanges the elements at positions `i` and `j`.
fn exchange<T>(data: &mut [T], i: usize, j: usize)
    requires
        i < j < old(data)@.len(),
    ensures
        final(data)@ == old(data)@.update(i as int, old(data)@[j as int]).update(
            j as int,
            old(data)@[i as int],
        ),
        final(data)@.to_multiset() == old(data)@.to_multiset(),
{
    let (lower, upper) = data.split_at_mut(j);
    core::mem::swap(&mut lower[i], &mut upper[0]);
    proof {
        broadcast use group_to_multiset_ensures, group_multiset_axioms;

        let before = old(data)@;
        let half = before.update(i as int, before[j as int]);
        to_multiset_update(before, i as int, before[j as int]);
        to_multiset_update(half, j as int, before[i as int]);
        assert(before.contains(before[i as int]));
        assert(before.contains(before[j as int]));
        assert(data@ =~= half.update(j as int, before[i as int]));
        assert(data@.to_multiset() =~= before.to_multiset());
    }
}

/// Reorders the elements of `data` by `indexes`: afterwards position `i` holds
/// the element that stood at position `indexes[i]`.
///
/// Elements are only ever exchanged, so each of them is in `data` exactly once
/// at every moment. Two tables of positions keep track of where each element
/// stood at first and where it is now; position `i` is settled in step `i` by
/// at most one exchange with a later position.
pub fn reorder<T>(data: &mut [T], indexes: &[usize])
    requires
        is_permutation(indexes@, old(data)@.len()),
    ensures
        final(data)@ == permuted(old(data)@, indexes@),
        final(data)@.to_multiset() == old(data)@.to_multiset(),
{
    let len = data.len();
    let ghost start = data@;
    // origin[k]: where the element that is now at position k stood at first
    let mut origin = positions(len);
    // place[e]: where the element that stood at position e at first is now
    let mut place = positions(len);
    let mut i: usize = 0;
    while i < len
        invariant
            i <= len,
            len == start.len(),
            data@.len() == len,
            data@.to_multiset() == start.to_multiset(),
            origin@.len() == len,
            place@.len() == len,
            is_permutation(indexes@, len as nat),
            forall|k: int| 0 <= k < len ==> origin@[k] < len && place@[origin@[k] as int] == k,
            forall|e: int| 0 <= e < len ==> place@[e] < len && origin@[place@[e] as int] == e,
            forall|k: int| 0 <= k < len ==> data@[k] == start[origin@[k] as int],
            forall|k: int| 0 <= k < i ==> origin@[k] == indexes@[k],
        decreases len - i,
    {
        let wanted = indexes[i];
        let found = place[wanted];
        if found != i {
            assert(found > i) by {
                if found < i {
                    assert(origin@[found as int] == indexes@[found as int]);
                }
            }
            let displaced = origin[i];
            exchange(data, i, found);
            origin[i] = wanted;
            origin[found] = displaced;
            place[wanted] = i;
            place[displaced] = found;
        }
        i += 1;
    }
    assert(data@ =~= permuted(start, indexes@));
}

} // verus!
