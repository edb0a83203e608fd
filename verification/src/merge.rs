//! Producers of positions: a tree that hands out, one pull at a time, the
//! positions of a run in the order of the values they refer to.
//!
//! A leaf hands out a run of at most one position as it is. A join holds two
//! producers, looks one position ahead into each, and hands out the one whose
//! value is smaller. Nothing is compared before the first pull.

use crate::order::comparable;
use crate::permutation::in_range;
use crate::permutation::lemma_same_elements_in_range;
use crate::run::left_first;
use crate::run::lemma_merged_elements;
use crate::run::lemma_pull_left;
use crate::run::lemma_pull_left_head;
use crate::run::lemma_pull_right;
use crate::run::lemma_pull_right_head;
use crate::run::lemma_sorted_run_elements;
use crate::run::merged;
use crate::run::pulled;
use crate::run::pulled_head;
use crate::run::right_first;
use crate::run::sorted_run;
use crate::run::took;
use crate::run::took_head;
use vstd::multiset::group_multiset_axioms;
use vstd::prelude::*;
use vstd::seq_lib::group_to_multiset_ensures;

verus! {

/// A producer with one position of lookahead.
pub struct Peekable<'a, T: Ord> {
    pub iter: Merge<'a, T>,
    /// `None`: nothing was looked at. `Some(None)`: `iter` was found used up.
    /// `Some(Some(i))`: `i` was taken out of `iter` and not handed out yet.
    pub peeked: Option<Option<usize>>,
}

/// A producer that picks positions from two others, by which of the two has
/// the smaller value in `data` at its head.
pub struct Join<'a, T: Ord> {
    pub data: &'a [T],
    pub left: Box<Peekable<'a, T>>,
    pub right: Box<Peekable<'a, T>>,
}

/// Either a join of two smaller producers, or a run that is handed out as it
/// is.
pub enum Merge<'a, T: Ord> {
    Join(Join<'a, T>),
    Iter(&'a [usize]),
}

impl<'a, T: Ord> Peekable<'a, T> {
    /// How many producers are nested in this one, itself counted.
    pub open spec fn depth(&self) -> nat
        decreases self,
    {
        1 + self.iter.depth()
    }

    /// The run that is still to be handed out: the position looked at, if one
    /// is held, then what `iter` has left.
    pub open spec fn yields(&self) -> Seq<usize>
        decreases self,
    {
        match self.peeked {
            Some(Some(i)) => seq![i] + self.iter.yields(),
            _ => self.iter.yields(),
        }
    }

    /// `iter` is well formed, and has nothing left where it was found used up.
    pub open spec fn wf(&self) -> bool
        decreases self,
    {
        &&& self.iter.wf()
        &&& self.peeked == Some(None::<usize>) ==> self.iter.yields().len() == 0
    }

    /// What the next pull hands out hangs on no comparison that may answer
    /// anything: comparisons are reliable, or nothing is left, or a position
    /// is held, or the same is true of `iter`.
    pub open spec fn decided(&self) -> bool
        decreases self,
    {
        ||| comparable::<T>()
        ||| self.yields().len() == 0
        ||| self.peeked is Some
        ||| self.iter.decided()
    }

    pub fn new(iter: Merge<'a, T>) -> (p: Self)
        requires
            iter.wf(),
        ensures
            p == (Peekable { iter, peeked: None }),
            p.wf(),
            p.yields() == iter.yields(),
    {
        Peekable { iter, peeked: None }
    }

    /// The position that the next pull hands out, without handing it out.
    pub fn peek(&mut self) -> (r: Option<usize>)
        requires
            old(self).wf(),
        ensures
            final(self).wf(),
            final(self).depth() == old(self).depth(),
            final(self).peeked == Some(r),
            old(self).peeked is Some ==> *final(self) == *old(self),
            final(self).yields().to_multiset() == old(self).yields().to_multiset(),
            old(self).decided() ==> final(self).yields() == old(self).yields(),
            match r {
                Some(i) => final(self).yields().len() > 0 && final(self).yields()[0] == i,
                None => final(self).yields().len() == 0,
            },
        decreases old(self).depth(),
    {
        broadcast use group_to_multiset_ensures, group_multiset_axioms;

        match self.peeked {
            Some(p) => p,
            None => {
                let ghost before = self.iter.yields();
                let p = self.iter.next();
                self.peeked = Some(p);
                proof {
                    assert(before.len() == before.to_multiset().len());
                    match p {
                        Some(i) => {
                            assert(self.yields() =~= self.iter.yields().insert(0, i));
                            if old(self).decided() {
                                assert(self.yields() =~= before);
                            }
                        },
                        None => {
                            assert(before =~= self.yields());
                        },
                    }
                }
                p
            },
        }
    }

    /// Hands out the next position: the one looked at, if one is held, else
    /// the next of `iter`.
    pub fn next(&mut self) -> (r: Option<usize>)
        requires
            old(self).wf(),
        ensures
            final(self).wf(),
            final(self).depth() == old(self).depth(),
            final(self).peeked is None,
            old(self).peeked is Some ==> r == old(self).peeked->0 && final(self).iter == old(
                self,
            ).iter,
            pulled(old(self).yields(), r, final(self).yields()),
            old(self).decided() ==> pulled_head(old(self).yields(), r, final(self).yields()),
        decreases old(self).depth(),
    {
        broadcast use group_to_multiset_ensures, group_multiset_axioms;

        match self.peeked.take() {
            Some(p) => {
                proof {
                    match p {
                        Some(i) => {
                            assert(old(self).yields() =~= self.yields().insert(0, i));
                            assert(self.yields() =~= old(self).yields().skip(1));
                        },
                        None => {},
                    }
                }
                p
            },
            None => {
                let ghost before = self.iter.yields();
                let got = self.iter.next();
                proof {
                    assert(before.len() == before.to_multiset().len());
                }
                got
            },
        }
    }
}

impl<'a, T: Ord> Join<'a, T> {
    /// How many producers are nested in this one, itself counted.
    pub open spec fn depth(&self) -> nat
        decreases self,
    {
        1 + self.left.depth() + self.right.depth()
    }

    /// The run that is still to be handed out: the merge of what the two
    /// sides have left.
    pub open spec fn yields(&self) -> Seq<usize>
        decreases self,
    {
        merged(self.data@, self.left.yields(), self.right.yields())
    }

    /// Both sides are well formed, and every position that they have left is a
    /// position of `data`.
    pub open spec fn wf(&self) -> bool
        decreases self,
    {
        &&& self.left.wf()
        &&& self.right.wf()
        &&& in_range(self.left.yields(), self.data@.len())
        &&& in_range(self.right.yields(), self.data@.len())
    }

    /// What the next pull hands out hangs on no comparison that may answer
    /// anything: comparisons are reliable, or the same is true of both sides
    /// and one of them has nothing left, so that none is compared here.
    pub open spec fn decided(&self) -> bool
        decreases self,
    {
        ||| comparable::<T>()
        ||| {
            &&& self.left.decided()
            &&& self.right.decided()
            &&& self.left.yields().len() == 0 || self.right.yields().len() == 0
        }
    }

    /// What one pull makes of the join `self`: it hands out `got` and leaves
    /// the join `after`.
    ///
    /// Whatever the comparisons answer, a position is handed out unless both
    /// sides have nothing left; it leaves one side, and the other side holds
    /// what it held. Where the next pull of both sides is decided, it is the
    /// head of one side, whose rest stays in order, and the other side is as it
    /// was. Where comparisons are reliable, it is the head of the left side
    /// unless the head of the right side has the smaller value.
    pub open spec fn pull(&self, got: Option<usize>, after: &Self) -> bool {
        let left = self.left.yields();
        let right = self.right.yields();
        let left_after = after.left.yields();
        let right_after = after.right.yields();
        &&& after.data == self.data
        &&& pulled(self.yields(), got, after.yields())
        &&& self.decided() ==> pulled_head(self.yields(), got, after.yields())
        &&& got is None <==> left.len() == 0 && right.len() == 0
        &&& got is None ==> left_after.len() == 0 && right_after.len() == 0
        &&& got is Some ==> {
            ||| took(left, right, got, left_after, right_after)
            ||| took(right, left, got, right_after, left_after)
        }
        &&& got is Some && self.left.decided() && self.right.decided() ==> {
            ||| took_head(left, right, got, left_after, right_after)
            ||| took_head(right, left, got, right_after, left_after)
        }
        &&& comparable::<T>() && left_first(self.data@, left, right) ==> took_head(
            left,
            right,
            got,
            left_after,
            right_after,
        )
        &&& comparable::<T>() && right_first(self.data@, left, right) ==> took_head(
            right,
            left,
            got,
            right_after,
            left_after,
        )
    }

    /// Hands out the next position: the head of `left` unless the head of
    /// `right` has the smaller value.
    pub fn next(&mut self) -> (r: Option<usize>)
        requires
            old(self).wf(),
        ensures
            final(self).wf(),
            final(self).depth() == old(self).depth(),
            old(self).pull(r, final(self)),
        decreases old(self).depth(),
    {
        broadcast use group_to_multiset_ensures, group_multiset_axioms;

        let ghost data = self.data@;
        let ghost before = self.yields();
        let ghost left_before = self.left.yields();
        let ghost right_before = self.right.yields();
        let left = self.left.peek();
        let right = self.right.peek();
        let ghost left_run = self.left.yields();
        let ghost right_run = self.right.yields();
        proof {
            // looking ahead changes nothing in what the two sides hold
            lemma_same_elements_in_range(left_before, left_run, data.len());
            lemma_same_elements_in_range(right_before, right_run, data.len());
            lemma_merged_elements(data, left_before, right_before);
            lemma_merged_elements(data, left_run, right_run);
            assert(before.to_multiset() == merged(data, left_run, right_run).to_multiset());
            assert(before.len() == before.to_multiset().len());
            assert(left_before.len() == left_before.to_multiset().len());
            assert(right_before.len() == right_before.to_multiset().len());
            assert(left_run.len() == left_run.to_multiset().len());
            assert(right_run.len() == right_run.to_multiset().len());
        }
        let from_left = match left {
            Some(l) => match right {
                Some(r) => self.data[l] <= self.data[r],
                None => true,
            },
            None => false,
        };
        let r = if from_left {
            let got = self.left.next();
            proof {
                lemma_pull_left(data, left_run, right_run, got, self.left.yields());
                if comparable::<T>() || right_run.len() == 0 {
                    lemma_pull_left_head(data, left_run, right_run, got, self.left.yields());
                }
            }
            got
        } else if right.is_some() {
            let got = self.right.next();
            proof {
                lemma_pull_right(data, left_run, right_run, got, self.right.yields());
                if comparable::<T>() || left_run.len() == 0 {
                    lemma_pull_right_head(data, left_run, right_run, got, self.right.yields());
                }
            }
            got
        } else {
            None
        };
        proof {
            lemma_same_elements_in_range(left_run, self.left.yields(), data.len());
            lemma_same_elements_in_range(right_run, self.right.yields(), data.len());
        }
        r
    }
}

impl<'a, T: Ord> Merge<'a, T> {
    /// How many producers are nested in this one, itself counted.
    pub open spec fn depth(&self) -> nat
        decreases self,
    {
        match self {
            Merge::Join(join) => 1 + join.depth(),
            Merge::Iter(_) => 1,
        }
    }

    /// The run that is still to be handed out, in the order in which reliable
    /// comparisons hand it out.
    pub open spec fn yields(&self) -> Seq<usize>
        decreases self,
    {
        match self {
            Merge::Join(join) => join.yields(),
            Merge::Iter(run) => run@,
        }
    }

    /// Every join in the tree looks only at positions of its `data`.
    pub open spec fn wf(&self) -> bool
        decreases self,
    {
        match self {
            Merge::Join(join) => join.wf(),
            Merge::Iter(_) => true,
        }
    }

    /// What the next pull hands out hangs on no comparison that may answer
    /// anything: this is a leaf, which compares nothing, or a join of which
    /// the same is true.
    pub open spec fn decided(&self) -> bool
        decreases self,
    {
        match self {
            Merge::Join(join) => join.decided(),
            Merge::Iter(_) => true,
        }
    }

    /// Hands out the next position. A leaf hands out the head of its run and
    /// keeps the rest; a join does what `Join::next` does.
    pub fn next(&mut self) -> (r: Option<usize>)
        requires
            old(self).wf(),
        ensures
            final(self).wf(),
            final(self).depth() == old(self).depth(),
            pulled(old(self).yields(), r, final(self).yields()),
            old(self).decided() ==> pulled_head(old(self).yields(), r, final(self).yields()),
            (*old(self)) is Iter ==> (*final(self)) is Iter && pulled_head(
                old(self).yields(),
                r,
                final(self).yields(),
            ),
            (*old(self)) is Join ==> (*final(self)) is Join && old(self)->Join_0.pull(
                r,
                &final(self)->Join_0,
            ),
        decreases old(self).depth(),
    {
        broadcast use group_to_multiset_ensures, group_multiset_axioms;

        match self {
            Merge::Join(join) => join.next(),
            Merge::Iter(run) => {
                if run.len() == 0 {
                    None
                } else {
                    let (head, rest) = run.split_at(1);
                    *run = rest;
                    proof {
                        assert(old(self).yields() =~= rest@.insert(0, head@[0]));
                        assert(rest@ =~= old(self).yields().skip(1));
                    }
                    Some(head[0])
                }
            },
        }
    }

    /// Pulls until nothing is left, and returns the positions in the order in
    /// which they were handed out.
    pub fn collect(self) -> (run: Vec<usize>)
        requires
            self.wf(),
        ensures
            run@.to_multiset() == self.yields().to_multiset(),
            comparable::<T>() || self is Iter ==> run@ == self.yields(),
    {
        broadcast use group_to_multiset_ensures, group_multiset_axioms;

        let mut producer = self;
        let mut run: Vec<usize> = Vec::new();
        loop
            invariant_except_break
                producer.wf(),
                self is Iter ==> producer is Iter,
                run@.to_multiset().add(producer.yields().to_multiset())
                    == self.yields().to_multiset(),
                comparable::<T>() || self is Iter ==> run@ + producer.yields() == self.yields(),
            ensures
                run@.to_multiset() == self.yields().to_multiset(),
                comparable::<T>() || self is Iter ==> run@ == self.yields(),
            decreases producer.yields().len(),
        {
            broadcast use group_to_multiset_ensures, group_multiset_axioms;

            let ghost left = producer.yields();
            let ghost done = run@;
            match producer.next() {
                Some(i) => {
                    run.push(i);
                    proof {
                        assert(left.len() == left.to_multiset().len());
                        assert(producer.yields().len() == producer.yields().to_multiset().len());
                        assert(run@.to_multiset().add(producer.yields().to_multiset())
                            =~= done.to_multiset().add(left.to_multiset()));
                        if comparable::<T>() || self is Iter {
                            assert(run@ + producer.yields() =~= done + left);
                        }
                    }
                },
                None => {
                    proof {
                        assert(left.to_multiset().len() == left.len());
                        assert(run@.to_multiset() =~= done.to_multiset().add(left.to_multiset()));
                        if comparable::<T>() || self is Iter {
                            assert(run@ =~= run@ + left);
                        }
                    }
                    break ;
                },
            }
        }
        run
    }
}

/// Makes the producer that hands out the positions in `indexes` in the order
/// of the values they refer to in `data`, by merge sort.
///
/// A run of at most one position becomes a leaf. A longer run is cut at half
/// its length, and becomes the join of the producers of its two parts, neither
/// of which has been looked into.
pub fn merge<'a, T: Ord>(data: &'a [T], indexes: &'a [usize]) -> (producer: Merge<'a, T>)
    requires
        in_range(indexes@, data@.len()),
    ensures
        producer.wf(),
        producer.yields() == sorted_run(data@, indexes@),
        producer.yields().to_multiset() == indexes@.to_multiset(),
        indexes@.len() <= 1 ==> (producer matches Merge::Iter(run) && run@ == indexes@),
        indexes@.len() > 1 ==> (producer matches Merge::Join(join) && {
            let mid = (indexes@.len() / 2) as int;
            &&& join.data == data
            &&& join.left.peeked is None
            &&& join.right.peeked is None
            &&& join.left.yields() == sorted_run(data@, indexes@.take(mid))
            &&& join.right.yields() == sorted_run(data@, indexes@.skip(mid))
        }),
    decreases indexes@.len(),
{
    proof {
        lemma_sorted_run_elements(data@, indexes@);
    }
    let len = indexes.len();
    if len <= 1 {
        Merge::Iter(indexes)
    } else {
        let midpoint = len / 2;
        let (lower, upper) = indexes.split_at(midpoint);
        proof {
            assert(lower@ =~= indexes@.take(midpoint as int));
            assert(upper@ =~= indexes@.skip(midpoint as int));
            lemma_sorted_run_elements(data@, lower@);
            lemma_sorted_run_elements(data@, upper@);
            lemma_same_elements_in_range(lower@, sorted_run(data@, lower@), data@.len());
            lemma_same_elements_in_range(upper@, sorted_run(data@, upper@), data@.len());
        }
        Merge::Join(
            Join {
                data,
                left: Box::new(Peekable::new(merge(data, lower))),
                right: Box::new(Peekable::new(merge(data, upper))),
            },
        )
    }
}

} // verus!
