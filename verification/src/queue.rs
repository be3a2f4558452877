//! The priority queue of candidate removals: a binary min-heap in a vector.

use vstd::multiset::Multiset;
use vstd::prelude::*;
use vstd::seq_lib::{to_multiset_build, to_multiset_contains, to_multiset_remove, to_multiset_update};

verus! {

/// A candidate removal: the effective area of the point `index` as it was
/// when `left` and `right` were its nearest surviving neighbours.
#[derive(Clone, Copy, Debug, PartialEq, Eq, Structural)]
pub struct Candidate {
    pub area: u128,
    pub index: usize,
    pub left: usize,
    pub right: usize,
}

impl Candidate {
    /// The order of the queue: smaller area first and, among equal areas,
    /// lower point index first.
    pub open spec fn before(self, other: Candidate) -> bool {
        self.area < other.area || (self.area == other.area && self.index <= other.index)
    }

    /// Decides [`Candidate::before`].
    pub fn is_before(&self, other: &Candidate) -> (b: bool)
        ensures
            b == self.before(*other),
    {
        self.area < other.area || (self.area == other.area && self.index <= other.index)
    }
}

/// A priority queue of candidates that hands out a least one first.
///
/// Its view is the multiset of the candidates it holds.
pub struct CandidateQueue {
    items: Vec<Candidate>,
}

/// The entry at `i` does not come before its parent in the heap.
spec fn above_ok(s: Seq<Candidate>, i: int) -> bool {
    s[(i - 1) / 2].before(s[i])
}

/// The heap order: no entry comes before its parent.
spec fn ordered(s: Seq<Candidate>) -> bool {
    forall|i: int| 1 <= i < s.len() ==> #[trigger] above_ok(s, i)
}

/// The heap order but for the entry at `k`, which may come before its parent.
spec fn ordered_but_above(s: Seq<Candidate>, k: int) -> bool {
    forall|i: int| 1 <= i < s.len() && i != k ==> #[trigger] above_ok(s, i)
}

/// The heap order but for the children of `k`, which may come before it.
spec fn ordered_but_below(s: Seq<Candidate>, k: int) -> bool {
    forall|i: int| 1 <= i < s.len() && (i - 1) / 2 != k ==> #[trigger] above_ok(s, i)
}

/// The children of `k` do not come before the parent of `k`.
spec fn bridged(s: Seq<Candidate>, k: int) -> bool {
    forall|i: int|
        1 <= k && 1 <= i < s.len() && (i - 1) / 2 == k ==> s[(k - 1) / 2].before(#[trigger] s[i])
}

/// In an ordered heap the root comes before every entry.
proof fn lemma_root_least(s: Seq<Candidate>, j: int)
    requires
        ordered(s),
        0 <= j < s.len(),
    ensures
        s[0].before(s[j]),
    decreases j,
{
    if j > 0 {
        assert(above_ok(s, j));
        lemma_root_least(s, (j - 1) / 2);
    }
}

/// Exchanging two entries keeps the multiset of entries.
proof fn lemma_exchange_keeps_multiset(s: Seq<Candidate>, i: int, j: int)
    requires
        0 <= i < s.len(),
        0 <= j < s.len(),
    ensures
        s.update(i, s[j]).update(j, s[i]).to_multiset() == s.to_multiset(),
{
    broadcast use vstd::multiset::group_multiset_axioms;

    to_multiset_update(s, i, s[j]);
    to_multiset_update(s.update(i, s[j]), j, s[i]);
    to_multiset_contains(s, s[i]);
    to_multiset_contains(s, s[j]);
    assert(s.contains(s[i]));
    assert(s.contains(s[j]));
    assert(s.update(i, s[j]).update(j, s[i]).to_multiset() =~= s.to_multiset());
}

/// Moves the entry at `k` up until its parent no longer comes after it.
fn sift_up(items: &mut Vec<Candidate>, k: usize)
    requires
        k < old(items)@.len(),
        ordered_but_above(old(items)@, k as int),
        bridged(old(items)@, k as int),
    ensures
        ordered(final(items)@),
        final(items)@.to_multiset() == old(items)@.to_multiset(),
        final(items)@.len() == old(items)@.len(),
{
    let mut i: usize = k;
    while i > 0
        invariant
            i < items@.len(),
            items@.len() == old(items)@.len(),
            items@.to_multiset() == old(items)@.to_multiset(),
            ordered_but_above(items@, i as int),
            bridged(items@, i as int),
        ensures
            ordered(items@),
            items@.len() == old(items)@.len(),
            items@.to_multiset() == old(items)@.to_multiset(),
        decreases i,
    {
        let p: usize = (i - 1) / 2;
        let child: Candidate = items[i];
        let up: Candidate = items[p];
        if up.is_before(&child) {
            assert(above_ok(items@, i as int));
            break ;
        }
        let ghost before = items@;
        items[i] = up;
        items[p] = child;
        proof {
            lemma_exchange_keeps_multiset(before, i as int, p as int);
            assert forall|j: int| 1 <= j < items@.len() && j != p implies #[trigger] above_ok(
                items@,
                j,
            ) by {
                if j != i {
                    assert(above_ok(before, j));
                }
            }
            assert forall|j: int|
                1 <= p && 1 <= j < items@.len() && (j - 1) / 2 == p implies items@[(p - 1)
                / 2].before(#[trigger] items@[j]) by {
                assert(above_ok(before, p as int));
                if j != i {
                    assert(above_ok(before, j));
                }
            }
        }
        i = p;
    }
}

/// Moves the entry at `k` down until no child comes before it.
fn sift_down(items: &mut Vec<Candidate>, k: usize)
    requires
        k < old(items)@.len(),
        ordered_but_below(old(items)@, k as int),
        bridged(old(items)@, k as int),
    ensures
        ordered(final(items)@),
        final(items)@.to_multiset() == old(items)@.to_multiset(),
        final(items)@.len() == old(items)@.len(),
{
    let n: usize = items.len();
    let mut i: usize = k;
    loop
        invariant
            i < n,
            n == items@.len(),
            items@.len() == old(items)@.len(),
            items@.to_multiset() == old(items)@.to_multiset(),
            ordered_but_below(items@, i as int),
            bridged(items@, i as int),
        ensures
            ordered(items@),
            items@.len() == old(items)@.len(),
            items@.to_multiset() == old(items)@.to_multiset(),
        decreases n - i,
    {
        if i >= (n - 1) / 2 && (n < 2 || i > (n - 2) / 2) {
            // No child of `i` lies inside the heap.
            assert forall|j: int| 1 <= j < items@.len() implies #[trigger] above_ok(items@, j) by {
                assert((j - 1) / 2 != i);
            }
            break ;
        }
        let l: usize = 2 * i + 1;
        let mut m: usize = l;
        if l + 1 < n {
            let a: Candidate = items[l];
            let b: Candidate = items[l + 1];
            if !a.is_before(&b) {
                m = l + 1;
            }
        }
        let down: Candidate = items[m];
        let here: Candidate = items[i];
        if here.is_before(&down) {
            assert forall|j: int| 1 <= j < items@.len() implies #[trigger] above_ok(items@, j) by {
                if (j - 1) / 2 == i {
                    assert(j == l || j == l + 1);
                }
            }
            break ;
        }
        let ghost before = items@;
        items[i] = down;
        items[m] = here;
        proof {
            lemma_exchange_keeps_multiset(before, i as int, m as int);
            assert forall|j: int|
                1 <= j < items@.len() && (j - 1) / 2 != m implies #[trigger] above_ok(
                items@,
                j,
            ) by {
                if (j - 1) / 2 == i {
                    assert(j == l || j == l + 1);
                } else if j == i {
                    assert(before[(i - 1) / 2].before(before[m as int]));
                } else {
                    assert(above_ok(before, j));
                }
            }
            assert forall|j: int|
                1 <= m && 1 <= j < items@.len() && (j - 1) / 2 == m implies items@[(m - 1)
                / 2].before(#[trigger] items@[j]) by {
                assert(above_ok(before, j));
            }
        }
        i = m;
    }
}

impl View for CandidateQueue {
    type V = Multiset<Candidate>;

    closed spec fn view(&self) -> Multiset<Candidate> {
        self.items@.to_multiset()
    }
}

impl CandidateQueue {
    /// The heap order holds among the stored entries.
    pub closed spec fn well_formed(&self) -> bool {
        ordered(self.items@)
    }

    /// An empty queue.
    pub fn new() -> (q: CandidateQueue)
        ensures
            q.well_formed(),
            q@ == Multiset::<Candidate>::empty(),
    {
        let q = CandidateQueue { items: Vec::new() };
        proof {
            broadcast use vstd::multiset::group_multiset_axioms;

            assert(q.items@.to_multiset().len() == 0) by {
                vstd::seq_lib::to_multiset_len(q.items@);
            }
            assert(q@ =~= Multiset::<Candidate>::empty());
        }
        q
    }

    /// The number of candidates held, each counted as often as it was pushed.
    pub fn len(&self) -> (n: usize)
        ensures
            n == self@.len(),
    {
        proof {
            vstd::seq_lib::to_multiset_len(self.items@);
        }
        self.items.len()
    }

    /// Whether the queue holds no candidate.
    pub fn is_empty(&self) -> (b: bool)
        ensures
            b == (self@.len() == 0),
    {
        proof {
            vstd::seq_lib::to_multiset_len(self.items@);
        }
        self.items.len() == 0
    }

    /// A least candidate of the queue, which stays in it; `None` when the
    /// queue is empty.
    pub fn peek(&self) -> (top: Option<Candidate>)
        requires
            self.well_formed(),
        ensures
            top is None <==> self@.len() == 0,
            top matches Some(c) ==> self@.contains(c) && forall|x: Candidate|
                self@.contains(x) ==> c.before(x),
    {
        proof {
            vstd::seq_lib::to_multiset_len(self.items@);
        }
        if self.items.len() == 0 {
            None
        } else {
            let c: Candidate = self.items[0];
            proof {
                self.lemma_first_least();
            }
            Some(c)
        }
    }

    /// The first stored entry is in the queue and comes before all the others.
    proof fn lemma_first_least(&self)
        requires
            self.well_formed(),
            self.items@.len() > 0,
        ensures
            self@.contains(self.items@[0]),
            forall|x: Candidate| self@.contains(x) ==> self.items@[0].before(x),
    {
        let s = self.items@;
        to_multiset_contains(s, s[0]);
        assert(s.contains(s[0]));
        assert forall|x: Candidate| self@.contains(x) implies s[0].before(x) by {
            to_multiset_contains(s, x);
            let j = choose|j: int| 0 <= j < s.len() && s[j] == x;
            lemma_root_least(s, j);
        }
    }

    /// Adds a candidate.
    pub fn push(&mut self, c: Candidate)
        requires
            old(self).well_formed(),
        ensures
            final(self).well_formed(),
            final(self)@ == old(self)@.insert(c),
    {
        let ghost before = self.items@;
        self.items.push(c);
        proof {
            to_multiset_build(before, c);
            assert forall|i: int|
                1 <= i < self.items@.len() && i != self.items@.len() - 1 implies #[trigger] above_ok(
                self.items@,
                i,
            ) by {
                assert(above_ok(before, i));
            }
        }
        let k: usize = self.items.len() - 1;
        sift_up(&mut self.items, k);
    }

    /// Removes a least candidate and returns it; `None`, with the queue
    /// unchanged, when it is empty.
    pub fn pop(&mut self) -> (top: Option<Candidate>)
        requires
            old(self).well_formed(),
        ensures
            final(self).well_formed(),
            top is None <==> old(self)@.len() == 0,
            top is None ==> final(self)@ == old(self)@,
            top matches Some(c) ==> old(self)@.contains(c) && final(self)@ == old(self)@.remove(c)
                && forall|x: Candidate| old(self)@.contains(x) ==> c.before(x),
    {
        proof {
            vstd::seq_lib::to_multiset_len(self.items@);
        }
        let n: usize = self.items.len();
        if n == 0 {
            return None;
        }
        let ghost before = self.items@;
        let c: Candidate = self.items[0];
        proof {
            self.lemma_first_least();
        }
        let last: Candidate = self.items.pop().unwrap();
        proof {
            to_multiset_remove(before, n - 1);
            assert(before.remove(n - 1) =~= self.items@);
        }
        if n > 1 {
            let ghost shorter = self.items@;
            self.items[0] = last;
            proof {
                broadcast use vstd::multiset::group_multiset_axioms;

                to_multiset_update(shorter, 0, last);
                to_multiset_contains(before, c);
                to_multiset_contains(before, last);
                assert(before.contains(last));
                assert(self.items@.to_multiset() =~= before.to_multiset().remove(c));
                assert forall|i: int|
                    1 <= i < self.items@.len() && (i - 1) / 2 != 0 implies #[trigger] above_ok(
                    self.items@,
                    i,
                ) by {
                    assert(above_ok(before, i));
                }
            }
            sift_down(&mut self.items, 0);
        }
        Some(c)
    }
}

} // verus!
