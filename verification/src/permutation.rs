//! Permutations of positions, and what applying one does to a sequence.

use vstd::multiset::Multiset;
use vstd::prelude::*;
use vstd::seq_lib::group_to_multiset_ensures;

verus! {

/// The positions `0, 1, .., n - 1` in their own order.
pub open spec fn identity(n: nat) -> Seq<usize> {
    Seq::new(n, |i: int| i as usize)
}

/// Every entry of `s` is a position below `n`.
pub open spec fn in_range(s: Seq<usize>, n: nat) -> bool {
    forall|i: int| 0 <= i < s.len() ==> s[i] < n
}

/// `p` is a bijection on the positions below `n`: it has `n` entries, all of
/// them below `n`, and no two alike.
pub open spec fn is_permutation(p: Seq<usize>, n: nat) -> bool {
    &&& p.len() == n
    &&& in_range(p, n)
    &&& forall|i: int, j: int| 0 <= i < j < p.len() ==> p[i] != p[j]
}

/// `s` rearranged by `p`: position `i` of the result holds `s[p[i]]`.
pub open spec fn permuted<T>(s: Seq<T>, p: Seq<usize>) -> Seq<T> {
    Seq::new(p.len(), |i: int| s[p[i] as int])
}

/// The positions below `n`, in their own order.
pub fn positions(n: usize) -> (run: Vec<usize>)
    ensures
        run@ == identity(n as nat),
{
    let mut run: Vec<usize> = Vec::new();
    let mut i: usize = 0;
    while i < n
        invariant
            i <= n,
            run@ == identity(i as nat),
        decreases n - i,
    {
        run.push(i);
        i += 1;
        assert(run@ =~= identity(i as nat));
    }
    run
}

/// The identity leaves every sequence as it is.
pub proof fn lemma_permuted_by_identity<T>(s: Seq<T>)
    requires
        s.len() <= usize::MAX,
    ensures
        is_permutation(identity(s.len()), s.len()),
        permuted(s, identity(s.len())) == s,
{
    assert(permuted(s, identity(s.len())) =~= s);
}

/// Sequences with the same elements, counted, still have the same elements
/// after one function has been applied to each entry of both.
pub proof fn lemma_map_keeps_same_elements<A, B>(a: Seq<A>, b: Seq<A>, f: spec_fn(A) -> B)
    requires
        a.to_multiset() == b.to_multiset(),
    ensures
        a.map_values(f).to_multiset() == b.map_values(f).to_multiset(),
    decreases a.len(),
{
    broadcast use group_to_multiset_ensures;

    if a.len() == 0 {
        assert(b.len() == b.to_multiset().len());
        assert(a.len() == a.to_multiset().len());
        assert(a.map_values(f) =~= b.map_values(f));
    } else {
        let x = a.last();
        let a0 = a.drop_last();
        assert(a =~= a0.push(x));
        assert(a.contains(x));
        assert(b.to_multiset().count(x) > 0);
        let k = choose|k: int| 0 <= k < b.len() && b[k] == x;
        let b0 = b.remove(k);
        assert(a0.to_multiset() =~= a.to_multiset().remove(x));
        assert(a0.to_multiset() == b0.to_multiset());
        lemma_map_keeps_same_elements(a0, b0, f);
        assert(a.map_values(f) =~= a0.map_values(f).push(f(x)));
        assert(b.map_values(f).remove(k) =~= b0.map_values(f));
        assert(b.map_values(f)[k] == f(x));
        assert(b.map_values(f).contains(f(x)));
        assert(b.map_values(f).to_multiset().count(f(x)) > 0);
        assert(b.map_values(f).to_multiset() =~= b0.map_values(f).to_multiset().insert(f(x)));
    }
}

/// Positions stay below `n` however they are rearranged.
pub proof fn lemma_same_elements_in_range(a: Seq<usize>, b: Seq<usize>, n: nat)
    requires
        in_range(a, n),
        forall|x: usize| b.to_multiset().count(x) > 0 ==> a.to_multiset().count(x) > 0,
    ensures
        in_range(b, n),
{
    broadcast use group_to_multiset_ensures;

    assert forall|i: int| 0 <= i < b.len() implies b[i] < n by {
        assert(b.contains(b[i]));
        assert(b.to_multiset().count(b[i]) > 0);
        assert(a.contains(b[i]));
    }
}

/// A sequence that holds each position below `n` exactly once is a permutation.
pub proof fn lemma_each_once_is_permutation(p: Seq<usize>, n: nat)
    requires
        n <= usize::MAX,
        p.to_multiset() == identity(n).to_multiset(),
    ensures
        is_permutation(p, n),
{
    broadcast use group_to_multiset_ensures;

    let id = identity(n);
    assert(id.no_duplicates());
    id.lemma_multiset_has_no_duplicates();
    p.lemma_multiset_has_no_duplicates_conv();
    assert(p.len() == p.to_multiset().len());
    assert(id.len() == id.to_multiset().len());
    assert forall|i: int| 0 <= i < p.len() implies p[i] < n by {
        assert(p.contains(p[i]));
        assert(id.to_multiset().count(p[i]) > 0);
        let k = choose|k: int| 0 <= k < id.len() && id[k] == p[i];
        assert(id[k] == k);
    }
}

/// Rearranging by a sequence that holds each position exactly once neither
/// loses nor duplicates an element.
pub proof fn lemma_permuted_keeps_elements<T>(s: Seq<T>, p: Seq<usize>)
    requires
        s.len() <= usize::MAX,
        p.to_multiset() == identity(s.len()).to_multiset(),
    ensures
        permuted(s, p).len() == s.len(),
        permuted(s, p).to_multiset() == s.to_multiset(),
{
    broadcast use group_to_multiset_ensures;

    let f = |i: usize| s[i as int];
    assert(p.len() == p.to_multiset().len());
    assert(identity(s.len()).len() == identity(s.len()).to_multiset().len());
    lemma_map_keeps_same_elements(p, identity(s.len()), f);
    assert(permuted(s, p) =~= p.map_values(f));
    assert(s =~= identity(s.len()).map_values(f));
}

} // verus!
