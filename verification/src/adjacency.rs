//! The adjacency records of a shrinking polyline: a doubly linked list
//! over the indices of the input, kept in a flat vector.

use crate::indices::{all_indices, as_ints, increasing_below, lemma_index_of_entry, lemma_remove_entry};
use vstd::prelude::*;

verus! {

/// The entries before and after position `k` of `s`, with `n` standing
/// for "none" at either end.
pub open spec fn neighbours_at(s: Seq<int>, k: int, n: int) -> (int, int) {
    (
        if k == 0 {
            n
        } else {
            s[k - 1]
        },
        if k == s.len() - 1 {
            n
        } else {
            s[k + 1]
        },
    )
}

/// One adjacency record for each index of the input: the nearest surviving
/// neighbours of a surviving index, or `None` once the index is removed.
///
/// The surviving indices form a doubly linked list in increasing order. A
/// neighbour equal to the number of records means that there is none on
/// that side.
pub struct Adjacency {
    links: Vec<Option<(usize, usize)>>,
    survivors: Ghost<Seq<int>>,
}

impl Adjacency {
    /// The number of records, removed ones included.
    pub closed spec fn len(&self) -> nat {
        self.links@.len()
    }

    /// The surviving indices in increasing order.
    pub closed spec fn survivors(&self) -> Seq<int> {
        self.survivors@
    }

    /// The record of index `i`: its neighbours among the survivors, or
    /// `None` when `i` is not one of them.
    pub open spec fn record(&self, i: int) -> Option<(usize, usize)> {
        let s = self.survivors();
        if s.contains(i) {
            let (l, r) = neighbours_at(s, s.index_of(i), self.len() as int);
            Some((l as usize, r as usize))
        } else {
            None
        }
    }

    /// The left neighbour of the index `i`, if `i` survives.
    pub open spec fn left_neighbour(&self, i: int) -> Option<int> {
        match self.record(i) {
            Some((l, _)) => Some(l as int),
            None => None,
        }
    }

    /// The right neighbour of the index `i`, if `i` survives.
    pub open spec fn right_neighbour(&self, i: int) -> Option<int> {
        match self.record(i) {
            Some((_, r)) => Some(r as int),
            None => None,
        }
    }

    /// The survivors are strictly increasing indices, the first and the
    /// last index among them, and every stored record is the one that
    /// [`Adjacency::record`] describes.
    pub closed spec fn well_formed(&self) -> bool {
        &&& self.links@.len() <= usize::MAX
        &&& increasing_below(self.survivors@, self.links@.len() as int)
        &&& self.links@.len() > 0 ==> self.survivors@.len() > 0 && self.survivors@.first() == 0
            && self.survivors@.last() == self.links@.len() - 1
        &&& forall|i: int| 0 <= i < self.links@.len() ==> #[trigger] self.links@[i] == self.record(i)
    }

    /// The survivors of a well-formed structure are strictly increasing
    /// indices of the input.
    pub proof fn lemma_survivors_increasing(&self)
        requires
            self.well_formed(),
        ensures
            increasing_below(self.survivors(), self.len() as int),
    {
    }

    /// The first and the last index are never removed.
    pub proof fn lemma_ends_survive(&self)
        requires
            self.well_formed(),
            self.len() > 0,
        ensures
            self.survivors().len() > 0,
            self.survivors().first() == 0,
            self.survivors().last() == self.len() - 1,
    {
    }

    /// The survivors form a doubly linked list: a surviving index is the
    /// left neighbour of its right neighbour and the right neighbour of
    /// its left one.
    pub proof fn lemma_links_agree(&self, i: int)
        requires
            self.well_formed(),
            self.record(i) is Some,
        ensures
            0 <= i < self.len(),
            self.record(i) matches Some((l, r)) && (l == self.len() || (l < i
                && self.right_neighbour(l as int) == Some(i))) && (r == self.len() || (i < r
                < self.len() && self.left_neighbour(r as int) == Some(i))),
    {
        let s = self.survivors@;
        let n = self.links@.len() as int;
        let k = s.index_of(i);
        assert(0 <= k < s.len() && s[k] == i);
        if k > 0 {
            lemma_index_of_entry(s, n, k - 1);
        }
        if k < s.len() - 1 {
            lemma_index_of_entry(s, n, k + 1);
        }
    }

    /// The records of the indices `0..n`, all surviving: each index lies
    /// between its predecessor and its successor.
    pub fn new(n: usize) -> (a: Adjacency)
        ensures
            a.well_formed(),
            a.len() == n,
            a.survivors() == all_indices(n as nat),
    {
        let mut links: Vec<Option<(usize, usize)>> = Vec::new();
        let mut i: usize = 0;
        while i < n
            invariant
                i <= n,
                links@.len() == i,
                forall|j: int|
                    0 <= j < i ==> #[trigger] links@[j] == Some(
                        (
                            if j == 0 {
                                n
                            } else {
                                (j - 1) as usize
                            },
                            (j + 1) as usize,
                        ),
                    ),
            decreases n - i,
        {
            let l: usize = if i == 0 {
                n
            } else {
                i - 1
            };
            links.push(Some((l, i + 1)));
            i += 1;
        }
        let a = Adjacency { links, survivors: Ghost(all_indices(n as nat)) };
        proof {
            let s = all_indices(n as nat);
            assert(increasing_below(s, n as int));
            assert forall|j: int| 0 <= j < n implies #[trigger] a.links@[j] == a.record(j) by {
                assert(s[j] == j);
                lemma_index_of_entry(s, n as int, j);
                if j > 0 {
                    assert(s[j - 1] == j - 1);
                }
                if j < n - 1 {
                    assert(s[j + 1] == j + 1);
                }
            }
        }
        a
    }

    /// The number of records.
    pub fn size(&self) -> (n: usize)
        ensures
            n == self.len(),
    {
        self.links.len()
    }

    /// The record of index `i`.
    pub fn neighbours(&self, i: usize) -> (r: Option<(usize, usize)>)
        requires
            self.well_formed(),
            i < self.len(),
        ensures
            r == self.record(i as int),
    {
        self.links[i]
    }

    /// Splices the surviving index `i` out of the list and marks it as
    /// removed. It must have a neighbour on both sides.
    pub fn remove(&mut self, i: usize)
        requires
            old(self).well_formed(),
            i < old(self).len(),
            old(self).record(i as int) matches Some((l, r)) && l < old(self).len() && r < old(self).len(),
        ensures
            final(self).well_formed(),
            final(self).len() == old(self).len(),
            final(self).survivors() == old(self).survivors().remove(
                old(self).survivors().index_of(i as int),
            ),
    {
        let ghost s = self.survivors@;
        let ghost k = s.index_of(i as int);
        let ghost before = self.links@;
        let size: usize = self.links.len();
        let ghost n = size as int;
        proof {
            assert(before[i as int] == self.record(i as int));
        }
        let (l, r) = self.links[i].unwrap();
        proof {
            assert(s.contains(i as int));
            assert(0 <= k < s.len() && s[k] == i);
            assert(0 < k < s.len() - 1);
            assert(l == s[k - 1] && r == s[k + 1]);
            lemma_index_of_entry(s, n, k - 1);
            lemma_index_of_entry(s, n, k + 1);
            assert(before[l as int] == self.record(l as int));
            assert(before[r as int] == self.record(r as int));
        }
        let (ll, _) = self.links[l].unwrap();
        let (_, rr) = self.links[r].unwrap();
        self.links[l] = Some((ll, r));
        self.links[r] = Some((l, rr));
        self.links[i] = None;
        self.survivors = Ghost(s.remove(k));
        proof {
            let t = s.remove(k);
            lemma_remove_entry(s, n, k);
            assert forall|j: int| 0 <= j < n implies #[trigger] self.links@[j] == self.record(
                j,
            ) by {
                if t.contains(j) {
                    let p = t.index_of(j);
                    assert(0 <= p < t.len() && t[p] == j);
                    let q = if p < k {
                        p
                    } else {
                        p + 1
                    };
                    assert(s[q] == j);
                    lemma_index_of_entry(s, n, q);
                    assert(before[j] == old(self).record(j));
                    if p > 0 {
                        assert(t[p - 1] == s[if p - 1 < k {
                            p - 1
                        } else {
                            p
                        }]);
                    }
                    if p < t.len() - 1 {
                        assert(t[p + 1] == s[if p + 1 < k {
                            p + 1
                        } else {
                            p + 2
                        }]);
                    }
                } else {
                    if j != i {
                        assert(!s.contains(j));
                        assert(before[j] == old(self).record(j));
                    }
                }
            }
        }
    }

    /// The surviving indices in increasing order.
    pub fn surviving(&self) -> (v: Vec<usize>)
        requires
            self.well_formed(),
        ensures
            as_ints(v@) == self.survivors(),
    {
        let ghost s = self.survivors@;
        let n: usize = self.links.len();
        let mut v: Vec<usize> = Vec::new();
        let mut i: usize = 0;
        while i < n
            invariant
                self.well_formed(),
                s == self.survivors@,
                n == self.links@.len(),
                i <= n,
                v@.len() <= s.len(),
                as_ints(v@) == s.subrange(0, v@.len() as int),
                forall|p: int| 0 <= p < v@.len() ==> #[trigger] s[p] < i,
                forall|p: int| v@.len() <= p < s.len() ==> i <= #[trigger] s[p],
            decreases n - i,
        {
            let ghost m = v@.len() as int;
            match self.links[i] {
                Some(_) => {
                    proof {
                        assert(self.links@[i as int] == self.record(i as int));
                        let p = s.index_of(i as int);
                        assert(0 <= p < s.len() && s[p] == i);
                        assert(p >= m);
                        if p > m {
                            assert(s[m] < s[p]);
                        }
                        assert(p == m);
                    }
                    v.push(i);
                    proof {
                        assert(as_ints(v@) =~= s.subrange(0, m + 1));
                    }
                },
                None => {
                    proof {
                        assert(self.links@[i as int] == self.record(i as int));
                        assert(!s.contains(i as int));
                    }
                },
            }
            i += 1;
        }
        proof {
            if v@.len() < s.len() {
                assert(n <= s[v@.len() as int]);
            }
            assert(as_ints(v@) =~= s);
        }
        v
    }
}

} // verus!
