//! Sequences of indices into a polyline, and the points that they select.

use crate::geometry::Point;
use vstd::prelude::*;

verus! {

/// The indices `0, 1, .., n - 1` in order.
pub open spec fn all_indices(n: nat) -> Seq<int> {
    Seq::new(n, |i: int| i)
}

/// The usize values of `v` as mathematical integers.
pub open spec fn as_ints(v: Seq<usize>) -> Seq<int> {
    v.map_values(|x: usize| x as int)
}

/// `s` is strictly increasing and all its entries lie in `0..n`.
pub open spec fn increasing_below(s: Seq<int>, n: int) -> bool {
    &&& forall|a: int| 0 <= a < s.len() ==> 0 <= #[trigger] s[a] < n
    &&& forall|a: int, b: int| 0 <= a < b < s.len() ==> s[a] < s[b]
}

/// In a strictly increasing sequence an entry is found where it stands.
pub proof fn lemma_index_of_entry(s: Seq<int>, n: int, k: int)
    requires
        increasing_below(s, n),
        0 <= k < s.len(),
    ensures
        s.contains(s[k]),
        s.index_of(s[k]) == k,
{
    let j = s.index_of(s[k]);
    assert(0 <= j < s.len() && s[j] == s[k]);
    if j < k {
        assert(s[j] < s[k]);
    }
    if k < j {
        assert(s[k] < s[j]);
    }
}

/// What is left of a strictly increasing sequence when the entry at `k`
/// is taken out.
pub proof fn lemma_remove_entry(s: Seq<int>, n: int, k: int)
    requires
        increasing_below(s, n),
        0 <= k < s.len(),
    ensures
        increasing_below(s.remove(k), n),
        s.remove(k).len() == s.len() - 1,
        forall|p: int| 0 <= p < k ==> s.remove(k)[p] == s[p],
        forall|p: int| k <= p < s.len() - 1 ==> s.remove(k)[p] == s[p + 1],
        !s.remove(k).contains(s[k]),
        forall|j: int| j != s[k] ==> (s.remove(k).contains(j) <==> s.contains(j)),
{
    let t = s.remove(k);
    assert(t.len() == s.len() - 1);
    assert forall|p: int| 0 <= p < k implies t[p] == s[p] by {}
    assert forall|p: int| k <= p < s.len() - 1 implies t[p] == s[p + 1] by {}
    assert forall|a: int| 0 <= a < t.len() implies 0 <= #[trigger] t[a] < n by {
        if a < k {
            assert(t[a] == s[a]);
        } else {
            assert(t[a] == s[a + 1]);
        }
    }
    assert forall|a: int, b: int| 0 <= a < b < t.len() implies t[a] < t[b] by {
        let a_at = if a < k {
            a
        } else {
            a + 1
        };
        let b_at = if b < k {
            b
        } else {
            b + 1
        };
        assert(t[a] == s[a_at] && t[b] == s[b_at]);
    }
    if t.contains(s[k]) {
        let p = choose|p: int| 0 <= p < t.len() && t[p] == s[k];
        let q = if p < k {
            p
        } else {
            p + 1
        };
        assert(t[p] == s[q]);
        if q < k {
            assert(s[q] < s[k]);
        } else {
            assert(s[k] < s[q]);
        }
    }
    assert forall|j: int| j != s[k] implies (t.contains(j) <==> s.contains(j)) by {
        if t.contains(j) {
            let p = choose|p: int| 0 <= p < t.len() && t[p] == j;
            let q = if p < k {
                p
            } else {
                p + 1
            };
            assert(s[q] == j);
        }
        if s.contains(j) {
            let p = choose|p: int| 0 <= p < s.len() && s[p] == j;
            let q = if p < k {
                p
            } else {
                p - 1
            };
            assert(t[q] == j);
        }
    }
}

/// The points of `pts` at the indices `idx`, in the order of `idx`.
pub open spec fn select(pts: Seq<Point>, idx: Seq<int>) -> Seq<Point> {
    Seq::new(idx.len(), |k: int| pts[idx[k]])
}

/// `out` holds points of `pts` in the order in which they stand there:
/// it is what some strictly increasing indices select.
pub open spec fn subsequence_of(out: Seq<Point>, pts: Seq<Point>) -> bool {
    exists|idx: Seq<int>| increasing_below(idx, pts.len() as int) && out == select(pts, idx)
}

/// Collects the points of `xs` at the indices `keep`, in the order of
/// `keep`.
pub fn select_points(xs: &[Point], keep: &Vec<usize>) -> (out: Vec<Point>)
    requires
        forall|j: int| 0 <= j < keep@.len() ==> #[trigger] keep@[j] < xs@.len(),
    ensures
        out@ == select(xs@, as_ints(keep@)),
{
    let ghost idx = as_ints(keep@);
    let mut out: Vec<Point> = Vec::new();
    let mut j: usize = 0;
    while j < keep.len()
        invariant
            j <= keep@.len(),
            idx == as_ints(keep@),
            forall|j: int| 0 <= j < keep@.len() ==> #[trigger] keep@[j] < xs@.len(),
            out@ == select(xs@, idx.subrange(0, j as int)),
        decreases keep@.len() - j,
    {
        let i: usize = keep[j];
        out.push(xs[i]);
        proof {
            assert(out@ =~= select(xs@, idx.subrange(0, j + 1)));
        }
        j += 1;
    }
    proof {
        assert(idx.subrange(0, idx.len() as int) =~= idx);
    }
    out
}

} // verus!
