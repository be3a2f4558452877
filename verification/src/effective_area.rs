//! Simplification by effective area: the point whose triangle with its two
//! current neighbours is smallest leaves first, until no triangle is
//! smaller than the tolerance.

use crate::adjacency::neighbours_at;
use crate::indices::{
    all_indices, as_ints, increasing_below, lemma_index_of_entry, lemma_remove_entry, select,
    select_points, subsequence_of,
};
use crate::geometry::{effective_area, lemma_effective_area_bound, triangle_area, Point};
use crate::queue::Candidate;
use crate::reducer::{Reducer, Step};
use vstd::multiset::Multiset;
use vstd::prelude::*;

verus! {

/// The effective area of the point at position `k` of `kept`: the area of
/// the triangle that it forms with the entries before and after it.
pub open spec fn area_at(pts: Seq<Point>, kept: Seq<int>, k: int) -> nat {
    effective_area(pts[kept[k - 1]], pts[kept[k]], pts[kept[k + 1]])
}

/// Among the positions `1..=m` of `kept`, the first one of least
/// effective area.
pub open spec fn least_upto(pts: Seq<Point>, kept: Seq<int>, m: int) -> int
    decreases m,
{
    if m <= 1 {
        1
    } else {
        let j = least_upto(pts, kept, m - 1);
        if area_at(pts, kept, m) < area_at(pts, kept, j) {
            m
        } else {
            j
        }
    }
}

/// The interior position of `kept` with the least effective area; among
/// equal areas the first.
pub open spec fn least(pts: Seq<Point>, kept: Seq<int>) -> int {
    least_upto(pts, kept, kept.len() - 2)
}

/// [`least_upto`] stays inside the positions that it looks at.
pub proof fn lemma_least_upto_bounds(pts: Seq<Point>, kept: Seq<int>, m: int)
    requires
        1 <= m,
    ensures
        1 <= least_upto(pts, kept, m) <= m,
    decreases m,
{
    if m > 1 {
        lemma_least_upto_bounds(pts, kept, m - 1);
    }
}

/// What is left of the indices `kept` when, again and again, the interior
/// entry of least effective area is taken out, as long as that area is
/// below `tol`.
pub open spec fn eliminate(pts: Seq<Point>, kept: Seq<int>, tol: int) -> Seq<int>
    decreases kept.len(),
{
    if kept.len() < 3 {
        kept
    } else {
        let k = least(pts, kept);
        if area_at(pts, kept, k) < tol {
            proof {
                lemma_least_upto_bounds(pts, kept, kept.len() - 2);
            }
            eliminate(pts, kept.remove(k), tol)
        } else {
            kept
        }
    }
}

/// The polyline that simplification by effective area makes of `pts`.
pub open spec fn visvalingam_spec(pts: Seq<Point>, tol: int) -> Seq<Point> {
    select(pts, eliminate(pts, all_indices(pts.len()), tol))
}

/// An interior position of `kept` that no other one beats, neither by a
/// smaller area nor, among equal areas, by standing earlier, is the one
/// that [`least`] picks.
pub proof fn lemma_least_is(pts: Seq<Point>, kept: Seq<int>, k: int)
    requires
        0 < k < kept.len() - 1,
        forall|j: int|
            0 < j < kept.len() - 1 ==> area_at(pts, kept, k) < #[trigger] area_at(pts, kept, j) || (
            area_at(pts, kept, k) == area_at(pts, kept, j) && k <= j),
    ensures
        least(pts, kept) == k,
{
    lemma_least_upto_is(pts, kept, k, kept.len() - 2);
}

proof fn lemma_least_upto_is(pts: Seq<Point>, kept: Seq<int>, k: int, m: int)
    requires
        0 < k < kept.len() - 1,
        1 <= m < kept.len() - 1,
        forall|j: int|
            0 < j < kept.len() - 1 ==> area_at(pts, kept, k) < #[trigger] area_at(pts, kept, j) || (
            area_at(pts, kept, k) == area_at(pts, kept, j) && k <= j),
    ensures
        k <= m ==> least_upto(pts, kept, m) == k,
    decreases m,
{
    if m > 1 {
        lemma_least_upto_is(pts, kept, k, m - 1);
        lemma_least_upto_bounds(pts, kept, m - 1);
        let j = least_upto(pts, kept, m - 1);
        assert(area_at(pts, kept, k) < area_at(pts, kept, j) || (area_at(pts, kept, k) == area_at(
            pts,
            kept,
            j,
        ) && k <= j));
        assert(area_at(pts, kept, k) < area_at(pts, kept, m) || (area_at(pts, kept, k) == area_at(
            pts,
            kept,
            m,
        ) && k <= m));
    }
}

/// Elimination only takes interior entries out: the result is no longer
/// than `kept`, begins and ends as `kept` does, and holds entries of
/// `kept` in their order. It changes nothing when `kept` has fewer than
/// three entries or when the tolerance is zero.
pub proof fn lemma_eliminate_shape(pts: Seq<Point>, kept: Seq<int>, tol: int, n: int)
    requires
        increasing_below(kept, n),
    ensures
        eliminate(pts, kept, tol).len() <= kept.len(),
        increasing_below(eliminate(pts, kept, tol), n),
        forall|j: int| eliminate(pts, kept, tol).contains(j) ==> kept.contains(j),
        kept.len() >= 2 ==> eliminate(pts, kept, tol).len() >= 2,
        kept.len() >= 1 ==> eliminate(pts, kept, tol).len() >= 1 && eliminate(
            pts,
            kept,
            tol,
        ).first() == kept.first() && eliminate(pts, kept, tol).last() == kept.last(),
        kept.len() < 3 || tol <= 0 ==> eliminate(pts, kept, tol) == kept,
    decreases kept.len(),
{
    if kept.len() >= 3 {
        let k = least(pts, kept);
        if area_at(pts, kept, k) < tol {
            lemma_least_upto_bounds(pts, kept, kept.len() - 2);
            lemma_remove_entry(kept, n, k);
            lemma_eliminate_shape(pts, kept.remove(k), tol, n);
            assert(kept.remove(k).first() == kept.first());
            assert(kept.remove(k).last() == kept.last());
        }
    }
}

/// A larger tolerance continues the elimination where a smaller one
/// stopped.
pub proof fn lemma_eliminate_continues(pts: Seq<Point>, kept: Seq<int>, tol1: int, tol2: int)
    requires
        tol1 <= tol2,
    ensures
        eliminate(pts, kept, tol2) == eliminate(pts, eliminate(pts, kept, tol1), tol2),
    decreases kept.len(),
{
    if kept.len() >= 3 {
        let k = least(pts, kept);
        if area_at(pts, kept, k) < tol1 {
            lemma_least_upto_bounds(pts, kept, kept.len() - 2);
            lemma_eliminate_continues(pts, kept.remove(k), tol1, tol2);
        }
    }
}

/// The candidate that stands for position `k` of `kept`: its effective
/// area with the neighbours that it has there.
pub open spec fn candidate_at(pts: Seq<Point>, kept: Seq<int>, k: int) -> Candidate {
    Candidate {
        area: area_at(pts, kept, k) as u128,
        index: kept[k] as usize,
        left: kept[k - 1] as usize,
        right: kept[k + 1] as usize,
    }
}

/// The candidate names three indices of `pts` in increasing order and
/// carries the effective area of the middle one between the other two.
pub open spec fn sound(pts: Seq<Point>, c: Candidate) -> bool {
    &&& c.left < c.index < c.right < pts.len()
    &&& c.area == effective_area(pts[c.left as int], pts[c.index as int], pts[c.right as int])
}

/// The candidate of an interior position is sound.
pub proof fn lemma_candidate_sound(pts: Seq<Point>, kept: Seq<int>, k: int)
    requires
        increasing_below(kept, pts.len() as int),
        pts.len() <= usize::MAX,
        0 < k < kept.len() - 1,
    ensures
        sound(pts, candidate_at(pts, kept, k)),
{
    lemma_effective_area_bound(pts[kept[k - 1]], pts[kept[k]], pts[kept[k + 1]]);
    assert(kept[k - 1] < kept[k] < kept[k + 1]);
}

/// Every candidate of the queue is sound.
pub open spec fn all_sound(pts: Seq<Point>, q: Multiset<Candidate>) -> bool {
    forall|c: Candidate| q.contains(c) ==> sound(pts, c)
}

/// The queue holds the candidate of every interior position of `kept`.
pub open spec fn covers(pts: Seq<Point>, kept: Seq<int>, q: Multiset<Candidate>) -> bool {
    forall|k: int| 0 < k < kept.len() - 1 ==> q.contains(#[trigger] candidate_at(pts, kept, k))
}

/// When no candidate of a covering queue has an area below `tol`,
/// elimination takes nothing out of `kept`.
proof fn lemma_at_rest(pts: Seq<Point>, kept: Seq<int>, q: Multiset<Candidate>, tol: int)
    requires
        pts.len() <= usize::MAX,
        increasing_below(kept, pts.len() as int),
        covers(pts, kept, q),
        forall|x: Candidate| q.contains(x) ==> x.area >= tol,
    ensures
        eliminate(pts, kept, tol) == kept,
{
    if kept.len() >= 3 {
        lemma_least_upto_bounds(pts, kept, kept.len() - 2);
        let k = least(pts, kept);
        let other = candidate_at(pts, kept, k);
        assert(q.contains(other));
        lemma_effective_area_bound(pts[kept[k - 1]], pts[kept[k]], pts[kept[k + 1]]);
    }
}

/// A least candidate of a covering queue that still describes the
/// neighbours of its point stands for the position that elimination
/// takes out next.
proof fn lemma_fresh(
    pts: Seq<Point>,
    kept: Seq<int>,
    q: Multiset<Candidate>,
    c: Candidate,
    k: int,
    tol: int,
)
    requires
        pts.len() <= usize::MAX,
        increasing_below(kept, pts.len() as int),
        covers(pts, kept, q),
        sound(pts, c),
        forall|x: Candidate| q.contains(x) ==> c.before(x),
        0 <= k < kept.len(),
        kept[k] == c.index,
        neighbours_at(kept, k, pts.len() as int) == (c.left as int, c.right as int),
        c.area < tol,
    ensures
        0 < k < kept.len() - 1,
        c == candidate_at(pts, kept, k),
        eliminate(pts, kept, tol) == eliminate(pts, kept.remove(k), tol),
{
    assert(0 < k < kept.len() - 1);
    lemma_effective_area_bound(pts[kept[k - 1]], pts[kept[k]], pts[kept[k + 1]]);
    assert(c == candidate_at(pts, kept, k));
    assert forall|j: int| 0 < j < kept.len() - 1 implies area_at(pts, kept, k) < #[trigger] area_at(
        pts,
        kept,
        j,
    ) || (area_at(pts, kept, k) == area_at(pts, kept, j) && k <= j) by {
        let other = candidate_at(pts, kept, j);
        assert(q.contains(other));
        assert(c.before(other));
        lemma_effective_area_bound(pts[kept[j - 1]], pts[kept[j]], pts[kept[j + 1]]);
        if j < k {
            assert(kept[j] < kept[k]);
        }
    }
    lemma_least_is(pts, kept, k);
}

/// The queue after a removal: without the candidate of the removed
/// position `k` and with those of its two neighbours, it covers what is
/// left of `kept`.
proof fn lemma_refreshed(
    pts: Seq<Point>,
    kept: Seq<int>,
    k: int,
    q: Multiset<Candidate>,
    q2: Multiset<Candidate>,
)
    requires
        pts.len() <= usize::MAX,
        increasing_below(kept, pts.len() as int),
        covers(pts, kept, q),
        all_sound(pts, q),
        0 < k < kept.len() - 1,
        ({
            let rest = kept.remove(k);
            let q0 = q.remove(candidate_at(pts, kept, k));
            let q1 = if 0 < k - 1 {
                q0.insert(candidate_at(pts, rest, k - 1))
            } else {
                q0
            };
            q2 == if k < rest.len() - 1 {
                q1.insert(candidate_at(pts, rest, k))
            } else {
                q1
            }
        }),
    ensures
        covers(pts, kept.remove(k), q2),
        all_sound(pts, q2),
        q2.len() <= q.len() + 1,
{
    broadcast use vstd::multiset::group_multiset_axioms;

    let n = pts.len() as int;
    let rest = kept.remove(k);
    let c = candidate_at(pts, kept, k);
    let q0 = q.remove(c);
    let q1 = if 0 < k - 1 {
        q0.insert(candidate_at(pts, rest, k - 1))
    } else {
        q0
    };
    lemma_remove_entry(kept, n, k);
    assert(q.contains(c));
    assert forall|x: Candidate| q2.contains(x) implies sound(pts, x) by {
        if 0 < k - 1 {
            lemma_candidate_sound(pts, rest, k - 1);
        }
        if k < rest.len() - 1 {
            lemma_candidate_sound(pts, rest, k);
        }
        if !q0.contains(x) {
            if q1.contains(x) {
                assert(x == candidate_at(pts, rest, k - 1));
            } else {
                assert(x == candidate_at(pts, rest, k));
            }
        } else {
            assert(q.contains(x));
        }
    }
    assert forall|p: int| 0 < p < rest.len() - 1 implies q2.contains(
        #[trigger] candidate_at(pts, rest, p),
    ) by {
        if p < k - 1 {
            assert(candidate_at(pts, rest, p) == candidate_at(pts, kept, p));
            assert(q.contains(candidate_at(pts, kept, p)));
            assert(kept[p] < kept[k]);
            assert(q0.contains(candidate_at(pts, kept, p)));
        } else if p > k {
            assert(candidate_at(pts, rest, p) == candidate_at(pts, kept, p + 1));
            assert(q.contains(candidate_at(pts, kept, p + 1)));
            assert(kept[k] < kept[p + 1]);
            assert(q0.contains(candidate_at(pts, kept, p + 1)));
        } else if p == k - 1 {
            assert(q1.contains(candidate_at(pts, rest, p)));
        }
    }
}

/// A candidate that no longer describes the neighbours of its point is
/// the candidate of no position: without it the queue still covers `kept`.
proof fn lemma_stale(pts: Seq<Point>, kept: Seq<int>, q: Multiset<Candidate>, c: Candidate)
    requires
        pts.len() <= usize::MAX,
        increasing_below(kept, pts.len() as int),
        covers(pts, kept, q),
        all_sound(pts, q),
        q.contains(c),
        forall|k: int|
            0 <= k < kept.len() && kept[k] == c.index ==> neighbours_at(kept, k, pts.len() as int)
                != (c.left as int, c.right as int),
    ensures
        covers(pts, kept, q.remove(c)),
        all_sound(pts, q.remove(c)),
        q.remove(c).len() == q.len() - 1,
{
    broadcast use vstd::multiset::group_multiset_axioms;

    assert forall|p: int| 0 < p < kept.len() - 1 implies q.remove(c).contains(
        #[trigger] candidate_at(pts, kept, p),
    ) by {
        let other = candidate_at(pts, kept, p);
        assert(q.contains(other));
        assert(kept[p - 1] < kept[p] < kept[p + 1]);
        if other == c {
            assert(neighbours_at(kept, p, pts.len() as int) == (c.left as int, c.right as int));
        }
    }
}

/// Queues the candidate of the surviving index `t`, with the neighbours
/// that `t` has now; nothing when `t` has none on either side.
fn refresh(xs: &[Point], reducer: &mut Reducer, t: usize, Ghost(k): Ghost<int>)
    requires
        old(reducer).well_formed(),
        old(reducer).adjacency().len() == xs@.len(),
        0 <= k < old(reducer).adjacency().survivors().len(),
        old(reducer).adjacency().survivors()[k] == t,
    ensures
        final(reducer).well_formed(),
        final(reducer).adjacency() == old(reducer).adjacency(),
        final(reducer).queue()@ == if 0 < k < old(reducer).adjacency().survivors().len() - 1 {
            old(reducer).queue()@.insert(
                candidate_at(xs@, old(reducer).adjacency().survivors(), k),
            )
        } else {
            old(reducer).queue()@
        },
{
    let ghost kept = reducer.adjacency().survivors();
    proof {
        reducer.adjacency().lemma_survivors_increasing();
        lemma_index_of_entry(kept, xs@.len() as int, k);
    }
    match reducer.triangle(t) {
        Some((a, b)) => {
            proof {
                lemma_effective_area_bound(xs@[a as int], xs@[t as int], xs@[b as int]);
            }
            let area: u128 = triangle_area(xs[a], xs[t], xs[b]);
            reducer.offer(Candidate { area, index: t, left: a, right: b });
        },
        None => {},
    }
}

/// The indices of the points of `xs` that simplification by effective
/// area keeps, in increasing order.
///
/// A point leaves while its effective area is below `eps`; of two points
/// of equal area the one with the lower index leaves first. The first and
/// the last point always stay.
pub fn visvalingam_indices(xs: &[Point], eps: u128) -> (keep: Vec<usize>)
    ensures
        as_ints(keep@) == eliminate(xs@, all_indices(xs@.len()), eps as int),
        increasing_below(as_ints(keep@), xs@.len() as int),
{
    let n: usize = xs.len();
    let ghost pts = xs@;
    let ghost all = all_indices(n as nat);
    let mut reducer = Reducer::new(n);
    proof {
        broadcast use vstd::multiset::group_multiset_axioms;

        assert(increasing_below(all, n as int));
        assert(all_sound(pts, reducer.queue()@));
    }
    if n >= 3 {
        let mut i: usize = 1;
        while i < n - 1
            invariant
                pts == xs@,
                n == pts.len(),
                n >= 3,
                1 <= i <= n - 1,
                all == all_indices(n as nat),
                reducer.well_formed(),
                reducer.adjacency().len() == n,
                reducer.adjacency().survivors() == all,
                all_sound(pts, reducer.queue()@),
                forall|k: int|
                    0 < k < i ==> reducer.queue()@.contains(#[trigger] candidate_at(pts, all, k)),
            decreases n - i,
        {
            let area: u128 = triangle_area(xs[i - 1], xs[i], xs[i + 1]);
            let c = Candidate { area, index: i, left: i - 1, right: i + 1 };
            proof {
                broadcast use vstd::multiset::group_multiset_axioms;

                assert(c == candidate_at(pts, all, i as int));
            }
            reducer.offer(c);
            i += 1;
        }
    }
    loop
        invariant
            pts == xs@,
            n == pts.len(),
            reducer.well_formed(),
            reducer.adjacency().len() == n,
            all_sound(pts, reducer.queue()@),
            covers(pts, reducer.adjacency().survivors(), reducer.queue()@),
            eliminate(pts, reducer.adjacency().survivors(), eps as int) == eliminate(
                pts,
                all,
                eps as int,
            ),
        ensures
            reducer.well_formed(),
            reducer.adjacency().len() == n,
            reducer.adjacency().survivors() == eliminate(pts, all, eps as int),
        decreases 2 * reducer.adjacency().survivors().len() + reducer.queue()@.len(),
    {
        let ghost kept = reducer.adjacency().survivors();
        let ghost queued = reducer.queue()@;
        proof {
            reducer.adjacency().lemma_survivors_increasing();
        }
        match reducer.step(eps) {
            Step::AtRest => {
                proof {
                    lemma_at_rest(pts, kept, queued, eps as int);
                }
                break ;
            },
            Step::Discarded(c) => {
                proof {
                    assert forall|k: int|
                        0 <= k < kept.len() && kept[k] == c.index implies neighbours_at(
                        kept,
                        k,
                        n as int,
                    ) != (c.left as int, c.right as int) by {
                        lemma_index_of_entry(kept, n as int, k);
                    }
                    lemma_stale(pts, kept, queued, c);
                }
            },
            Step::Removed(c) => {
                let ghost k = kept.index_of(c.index as int);
                proof {
                    lemma_fresh(pts, kept, queued, c, k, eps as int);
                    lemma_remove_entry(kept, n as int, k);
                }
                refresh(xs, &mut reducer, c.left, Ghost(k - 1));
                refresh(xs, &mut reducer, c.right, Ghost(k));
                proof {
                    lemma_refreshed(pts, kept, k, queued, reducer.queue()@);
                }
            },
        }
    }
    proof {
        reducer.adjacency().lemma_survivors_increasing();
    }
    reducer.surviving()
}

/// Simplifies the polyline `xs` by effective area (Visvalingam).
///
/// The point whose triangle with its two current neighbours has the least
/// area leaves, again and again, as long as that area is below `eps`; of
/// two points of equal area the one with the lower index leaves first.
/// What is returned are the points that stay, in their order.
pub fn visvalingam(xs: &[Point], eps: u128) -> (out: Vec<Point>)
    ensures
        out@ == visvalingam_spec(xs@, eps as int),
        subsequence_of(out@, xs@),
        out@.len() <= xs@.len(),
        xs@.len() >= 1 ==> out@.len() >= 1 && out@.first() == xs@.first() && out@.last()
            == xs@.last(),
        xs@.len() < 3 || eps == 0 ==> out@ == xs@,
{
    let keep: Vec<usize> = visvalingam_indices(xs, eps);
    proof {
        assert forall|j: int| 0 <= j < keep@.len() implies #[trigger] keep@[j] < xs@.len() by {
            assert(as_ints(keep@)[j] == keep@[j]);
        }
    }
    let out: Vec<Point> = select_points(xs, &keep);
    proof {
        assert(increasing_below(as_ints(keep@), xs@.len() as int) && out@ == select(
            xs@,
            as_ints(keep@),
        ));
        let all = all_indices(xs@.len());
        assert(increasing_below(all, xs@.len() as int));
        lemma_eliminate_shape(xs@, all, eps as int, xs@.len() as int);
        if xs@.len() < 3 || eps == 0 {
            assert(select(xs@, all) =~= xs@);
        }
    }
    out
}

/// Of three points the middle one leaves exactly when its effective area
/// is below the tolerance; a point on the line between its neighbours has
/// the area zero and leaves at any tolerance above zero.
pub proof fn lemma_visvalingam_of_three(a: Point, t: Point, b: Point, tol: int)
    ensures
        visvalingam_spec(seq![a, t, b], tol) == if effective_area(a, t, b) < tol {
            seq![a, b]
        } else {
            seq![a, t, b]
        },
{
    let pts = seq![a, t, b];
    let all = all_indices(3);
    reveal_with_fuel(eliminate, 2);
    assert(least(pts, all) == 1);
    assert(area_at(pts, all, 1) == effective_area(a, t, b));
    if effective_area(a, t, b) < tol {
        assert(all.remove(1) =~= seq![0int, 2int]);
        assert(select(pts, seq![0int, 2int]) =~= seq![a, b]);
    } else {
        assert(select(pts, all) =~= pts);
    }
}

/// A smaller tolerance keeps at least as many points as a larger one:
/// the larger one goes on where the smaller one stopped.
pub proof fn lemma_visvalingam_monotone(pts: Seq<Point>, tol1: int, tol2: int)
    requires
        tol1 <= tol2,
    ensures
        visvalingam_spec(pts, tol1).len() >= visvalingam_spec(pts, tol2).len(),
        eliminate(pts, all_indices(pts.len()), tol2) == eliminate(
            pts,
            eliminate(pts, all_indices(pts.len()), tol1),
            tol2,
        ),
{
    let all = all_indices(pts.len());
    let first = eliminate(pts, all, tol1);
    assert(increasing_below(all, pts.len() as int));
    lemma_eliminate_continues(pts, all, tol1, tol2);
    lemma_eliminate_shape(pts, all, tol1, pts.len() as int);
    lemma_eliminate_shape(pts, first, tol2, pts.len() as int);
}

} // verus!
