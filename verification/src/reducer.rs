//! The decisions of simplification by effective area, taken one at a
//! time: which candidate is looked at next, whether it is stale, and which
//! point leaves.

use crate::adjacency::Adjacency;
use crate::indices::{all_indices, as_ints};
use crate::queue::{Candidate, CandidateQueue};
use vstd::multiset::Multiset;
use vstd::prelude::*;

verus! {

/// What one step of the reduction did.
#[derive(Clone, Copy, Debug, PartialEq, Eq, Structural)]
pub enum Step {
    /// No queued candidate has an area below the tolerance: nothing changed.
    AtRest,
    /// The least candidate no longer described the neighbours of its
    /// point: it was dropped from the queue and nothing else changed.
    Discarded(Candidate),
    /// The point of the least candidate was removed, together with the
    /// candidate. Its two former neighbours have a new triangle each.
    Removed(Candidate),
}

/// The state of a reduction: the adjacency records of the points and the
/// queue of candidate removals.
///
/// The structure decides; whoever drives it computes the areas. After
/// [`Step::Removed`] the driver offers a fresh candidate for each former
/// neighbour that [`Reducer::triangle`] reports.
pub struct Reducer {
    adjacency: Adjacency,
    queue: CandidateQueue,
}

impl Reducer {
    /// The adjacency records.
    pub closed spec fn adjacency(&self) -> Adjacency {
        self.adjacency
    }

    /// The queue of candidates.
    pub closed spec fn queue(&self) -> CandidateQueue {
        self.queue
    }

    /// Both parts are well formed and every queued candidate names three
    /// indices of the input in increasing order.
    pub open spec fn well_formed(&self) -> bool {
        &&& self.adjacency().well_formed()
        &&& self.queue().well_formed()
        &&& forall|c: Candidate|
            self.queue()@.contains(c) ==> c.left < c.index < c.right < self.adjacency().len()
    }

    /// The candidate is queued and none of the queue comes before it.
    pub open spec fn is_least(&self, c: Candidate) -> bool {
        &&& self.queue()@.contains(c)
        &&& forall|x: Candidate| self.queue()@.contains(x) ==> c.before(x)
    }

    /// The candidate still describes its point: the point survives and
    /// has the neighbours that the candidate names.
    pub open spec fn fits(&self, c: Candidate) -> bool {
        self.adjacency().record(c.index as int) == Some((c.left, c.right))
    }

    /// The neighbours of `t` where it survives with one on either side.
    pub open spec fn triangle_of(&self, t: int) -> Option<(usize, usize)> {
        match self.adjacency().record(t) {
            Some((a, b)) => if a < self.adjacency().len() && b < self.adjacency().len() {
                Some((a, b))
            } else {
                None
            },
            None => None,
        }
    }

    /// A reduction of `n` points, all surviving, with nothing queued.
    pub fn new(n: usize) -> (r: Reducer)
        ensures
            r.well_formed(),
            r.adjacency().len() == n,
            r.adjacency().survivors() == all_indices(n as nat),
            r.queue()@ == Multiset::<Candidate>::empty(),
    {
        let r = Reducer { adjacency: Adjacency::new(n), queue: CandidateQueue::new() };
        proof {
            broadcast use vstd::multiset::group_multiset_axioms;

        }
        r
    }

    /// Queues a candidate.
    pub fn offer(&mut self, c: Candidate)
        requires
            old(self).well_formed(),
            c.left < c.index < c.right < old(self).adjacency().len(),
        ensures
            final(self).well_formed(),
            final(self).adjacency() == old(self).adjacency(),
            final(self).queue()@ == old(self).queue()@.insert(c),
    {
        let ghost queued = self.queue@;
        self.queue.push(c);
        proof {
            broadcast use vstd::multiset::group_multiset_axioms;

            assert forall|x: Candidate| self.queue@.contains(x) implies x.left < x.index < x.right
                < self.adjacency.len() by {
                if x != c {
                    assert(queued.contains(x));
                }
            }
        }
    }

    /// The neighbours of the index `t`, if it survives and has one on
    /// either side: the triangle whose area a candidate for `t` carries.
    pub fn triangle(&self, t: usize) -> (r: Option<(usize, usize)>)
        requires
            self.well_formed(),
            t < self.adjacency().len(),
        ensures
            r == self.triangle_of(t as int),
    {
        let n: usize = self.adjacency.size();
        match self.adjacency.neighbours(t) {
            Some((a, b)) => if a < n && b < n {
                Some((a, b))
            } else {
                None
            },
            None => None,
        }
    }

    /// Takes one decision. While the least candidate has an area below
    /// `eps` it leaves the queue; its point is removed if the candidate
    /// still fits, else the candidate is only discarded.
    pub fn step(&mut self, eps: u128) -> (s: Step)
        requires
            old(self).well_formed(),
        ensures
            final(self).well_formed(),
            final(self).adjacency().len() == old(self).adjacency().len(),
            match s {
                Step::AtRest => {
                    &&& final(self).adjacency() == old(self).adjacency()
                    &&& final(self).queue()@ == old(self).queue()@
                    &&& forall|x: Candidate| old(self).queue()@.contains(x) ==> x.area >= eps
                },
                Step::Discarded(c) => {
                    &&& old(self).is_least(c)
                    &&& c.area < eps
                    &&& !old(self).fits(c)
                    &&& final(self).adjacency() == old(self).adjacency()
                    &&& final(self).queue()@ == old(self).queue()@.remove(c)
                },
                Step::Removed(c) => {
                    &&& old(self).is_least(c)
                    &&& c.area < eps
                    &&& old(self).fits(c)
                    &&& final(self).adjacency().survivors() == old(self).adjacency().survivors().remove(
                        old(self).adjacency().survivors().index_of(c.index as int),
                    )
                    &&& final(self).queue()@ == old(self).queue()@.remove(c)
                },
            },
    {
        let top: Option<Candidate> = self.queue.peek();
        let at_rest: bool = match top {
            None => true,
            Some(t) => t.area >= eps,
        };
        if at_rest {
            proof {
                broadcast use vstd::multiset::group_multiset_axioms;

                assert forall|x: Candidate| self.queue@.contains(x) implies x.area >= eps by {
                    assert(top is Some);
                    assert(top->0.before(x));
                }
            }
            return Step::AtRest;
        }
        let ghost queued = self.queue@;
        let c: Candidate = self.queue.pop().unwrap();
        proof {
            broadcast use vstd::multiset::group_multiset_axioms;

            assert(c.before(top->0));
            assert forall|x: Candidate| self.queue@.contains(x) implies x.left < x.index < x.right
                < self.adjacency.len() by {
                assert(queued.contains(x));
            }
        }
        let fresh: bool = match self.adjacency.neighbours(c.index) {
            Some((l, r)) => l == c.left && r == c.right,
            None => false,
        };
        if fresh {
            self.adjacency.remove(c.index);
            Step::Removed(c)
        } else {
            Step::Discarded(c)
        }
    }

    /// The surviving indices in increasing order.
    pub fn surviving(&self) -> (v: Vec<usize>)
        requires
            self.well_formed(),
        ensures
            as_ints(v@) == self.adjacency().survivors(),
    {
        self.adjacency.surviving()
    }
}

} // verus!
