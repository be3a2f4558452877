//! Simplification by perpendicular distance: a range of the polyline
//! collapses to its chord unless some point between its ends lies farther
//! from the chord than the tolerance; then it splits at the farthest one.

use crate::geometry::{
    chord_length_sq, chord_sq, exceeds, farther_than, lemma_offset_of_origin, line_offset,
    offset_from_line, Point,
};
use crate::indices::{
    all_indices, as_ints, increasing_below, select, select_points, subsequence_of,
};
use vstd::prelude::*;

verus! {

/// Among the indices `lo..=m`, the first whose point has the greatest
/// offset from the line through `pts[lo]` and `pts[hi]`; `lo` itself when
/// none of them lies off that line.
pub open spec fn farthest_upto(pts: Seq<Point>, lo: int, hi: int, m: int) -> int
    decreases m - lo,
{
    if m <= lo {
        lo
    } else {
        let j = farthest_upto(pts, lo, hi, m - 1);
        if line_offset(pts[lo], pts[hi], pts[m]) > line_offset(pts[lo], pts[hi], pts[j]) {
            m
        } else {
            j
        }
    }
}

/// The point farthest from the chord of the range `lo..=hi`, among those
/// strictly between its ends.
pub open spec fn farthest(pts: Seq<Point>, lo: int, hi: int) -> int {
    farthest_upto(pts, lo, hi, hi - 1)
}

/// [`farthest_upto`] stays inside the indices that it looks at.
pub proof fn lemma_farthest_upto_bounds(pts: Seq<Point>, lo: int, hi: int, m: int)
    ensures
        lo <= farthest_upto(pts, lo, hi, m),
        farthest_upto(pts, lo, hi, m) <= m || farthest_upto(pts, lo, hi, m) == lo,
    decreases m - lo,
{
    if m > lo {
        lemma_farthest_upto_bounds(pts, lo, hi, m - 1);
    }
}

/// A farthest point that exceeds a tolerance lies strictly between the
/// ends of its range.
pub proof fn lemma_split_inside(pts: Seq<Point>, lo: int, hi: int, tol: int)
    requires
        farther_than(pts[lo], pts[hi], pts[farthest(pts, lo, hi)], tol),
    ensures
        lo < farthest(pts, lo, hi) < hi,
{
    let m = farthest(pts, lo, hi);
    lemma_farthest_upto_bounds(pts, lo, hi, hi - 1);
    if m == lo {
        lemma_still(pts, lo, hi, tol);
    }
}

/// The indices that simplification keeps of the range `lo..=hi`, the
/// index `hi` itself only where `include_end` asks for it.
///
/// Where the farthest point between the ends lies farther than `tol` from
/// the chord, the range splits there and the two parts are simplified on
/// their own, the first without its end, which begins the second. Else
/// only the ends are kept.
pub open spec fn rdp_range(pts: Seq<Point>, lo: int, hi: int, tol: int, include_end: bool) -> Seq<
    int,
>
    decreases hi - lo,
{
    let m = farthest(pts, lo, hi);
    if farther_than(pts[lo], pts[hi], pts[m], tol) {
        proof {
            lemma_split_inside(pts, lo, hi, tol);
        }
        rdp_range(pts, lo, m, tol, false) + rdp_range(pts, m, hi, tol, include_end)
    } else if include_end {
        seq![lo, hi]
    } else {
        seq![lo]
    }
}

/// The indices of `pts` that simplification by perpendicular distance
/// keeps: all of them when there are fewer than two.
pub open spec fn rdp_kept(pts: Seq<Point>, tol: int) -> Seq<int> {
    if pts.len() < 2 {
        all_indices(pts.len())
    } else {
        rdp_range(pts, 0, pts.len() - 1, tol, true)
    }
}

/// The polyline that simplification by perpendicular distance makes of
/// `pts`.
pub open spec fn rdp_spec(pts: Seq<Point>, tol: int) -> Seq<Point> {
    select(pts, rdp_kept(pts, tol))
}

/// One for a kept end, zero for an omitted one.
pub open spec fn end_count(include_end: bool) -> int {
    if include_end {
        1
    } else {
        0
    }
}

/// What a simplified range looks like: it begins with `lo`, ends with
/// `hi` where the end is included, is strictly increasing inside
/// `lo..=hi`, and holds no more indices than the range has.
pub proof fn lemma_rdp_range_shape(pts: Seq<Point>, lo: int, hi: int, tol: int, include_end: bool)
    requires
        lo < hi,
    ensures
        ({
            let r = rdp_range(pts, lo, hi, tol, include_end);
            &&& 1 + end_count(include_end) <= r.len() <= hi - lo + end_count(include_end)
            &&& r.first() == lo
            &&& include_end ==> r.last() == hi
            &&& forall|j: int| 0 <= j < r.len() ==> lo <= #[trigger] r[j] < hi + end_count(include_end)
            &&& forall|a: int, b: int| 0 <= a < b < r.len() ==> r[a] < r[b]
        }),
    decreases hi - lo,
{
    let m = farthest(pts, lo, hi);
    let r = rdp_range(pts, lo, hi, tol, include_end);
    if farther_than(pts[lo], pts[hi], pts[m], tol) {
        lemma_split_inside(pts, lo, hi, tol);
        lemma_rdp_range_shape(pts, lo, m, tol, false);
        lemma_rdp_range_shape(pts, m, hi, tol, include_end);
        let x = rdp_range(pts, lo, m, tol, false);
        let y = rdp_range(pts, m, hi, tol, include_end);
        assert(r == x + y);
        assert forall|j: int| 0 <= j < r.len() implies lo <= #[trigger] r[j] < hi + end_count(
            include_end,
        ) by {
            if j < x.len() {
                assert(r[j] == x[j]);
            } else {
                assert(r[j] == y[j - x.len()]);
            }
        }
        assert forall|a: int, b: int| 0 <= a < b < r.len() implies r[a] < r[b] by {
            if b < x.len() {
                assert(r[a] == x[a] && r[b] == x[b]);
            } else if a >= x.len() {
                assert(r[a] == y[a - x.len()] && r[b] == y[b - x.len()]);
            } else {
                assert(r[a] == x[a] && r[b] == y[b - x.len()]);
            }
        }
        assert(r.first() == x.first());
        assert(r.last() == y.last());
    }
}

/// A smaller tolerance keeps at least as many indices of a range as a
/// larger one.
pub proof fn lemma_rdp_range_monotone(
    pts: Seq<Point>,
    lo: int,
    hi: int,
    tol1: int,
    tol2: int,
    include_end: bool,
)
    requires
        lo < hi,
        0 <= tol1 <= tol2,
    ensures
        rdp_range(pts, lo, hi, tol1, include_end).len() >= rdp_range(
            pts,
            lo,
            hi,
            tol2,
            include_end,
        ).len(),
    decreases hi - lo,
{
    let m = farthest(pts, lo, hi);
    if farther_than(pts[lo], pts[hi], pts[m], tol2) {
        let chord = chord_sq(pts[lo], pts[hi]) as int;
        assert(tol1 * tol1 * chord <= tol2 * tol2 * chord) by (nonlinear_arith)
            requires
                0 <= tol1 <= tol2,
                0 <= chord,
        ;
        lemma_split_inside(pts, lo, hi, tol2);
        lemma_rdp_range_monotone(pts, lo, m, tol1, tol2, false);
        lemma_rdp_range_monotone(pts, m, hi, tol1, tol2, include_end);
    } else {
        lemma_rdp_range_shape(pts, lo, hi, tol1, include_end);
    }
}

/// A range `lo..=hi` that waits to be simplified, and whether its end is
/// to be kept with it.
type Range = (usize, usize, bool);

/// The indices that simplification keeps of the waiting ranges, the last
/// of `stack` first.
spec fn pending(pts: Seq<Point>, stack: Seq<Range>, tol: int) -> Seq<int>
    decreases stack.len(),
{
    if stack.len() == 0 {
        Seq::empty()
    } else {
        let (lo, hi, include_end) = stack.last();
        rdp_range(pts, lo as int, hi as int, tol, include_end) + pending(
            pts,
            stack.drop_last(),
            tol,
        )
    }
}

/// The work that the waiting ranges still take: a range of `d` steps
/// splits at most `d - 1` times into `d` ranges that collapse.
spec fn work(stack: Seq<Range>) -> int
    decreases stack.len(),
{
    if stack.len() == 0 {
        0
    } else {
        2 * (stack.last().1 - stack.last().0) - 1 + work(stack.drop_last())
    }
}

/// Every waiting range has its end behind its start and inside `n`
/// points.
spec fn ranges_inside(stack: Seq<Range>, n: int) -> bool {
    forall|i: int| 0 <= i < stack.len() ==> (#[trigger] stack[i]).0 < stack[i].1 < n
}

/// Ranges that have their end behind their start take work that is not
/// negative.
proof fn lemma_work_bounded(stack: Seq<Range>, n: int)
    requires
        ranges_inside(stack, n),
    ensures
        work(stack) >= 0,
    decreases stack.len(),
{
    if stack.len() > 0 {
        assert(stack.last() == stack[stack.len() - 1]);
        lemma_work_bounded(stack.drop_last(), n);
    }
}

/// The point of `xs` farthest from the chord of the range `lo..=hi`,
/// among those strictly between its ends, and its offset from the line
/// through the ends.
fn farthest_point(xs: &[Point], lo: usize, hi: usize) -> (found: (usize, u128))
    requires
        lo < hi < xs@.len(),
    ensures
        found.0 == farthest(xs@, lo as int, hi as int),
        found.1 == line_offset(xs@[lo as int], xs@[hi as int], xs@[found.0 as int]),
        lo <= found.0 < hi,
{
    let ghost pts = xs@;
    let l: Point = xs[lo];
    let r: Point = xs[hi];
    let mut idx: usize = lo;
    let mut d_max: u128 = 0;
    proof {
        lemma_offset_of_origin(l, r);
    }
    let mut i: usize = lo + 1;
    while i < hi
        invariant
            pts == xs@,
            lo < i <= hi < pts.len(),
            l == pts[lo as int],
            r == pts[hi as int],
            lo <= idx < i,
            idx == farthest_upto(pts, lo as int, hi as int, i - 1),
            d_max == line_offset(l, r, pts[idx as int]),
        decreases hi - i,
    {
        let d: u128 = offset_from_line(l, r, xs[i]);
        if d > d_max {
            idx = i;
            d_max = d;
        }
        i += 1;
    }
    (idx, d_max)
}

/// The indices of the points of `xs` that simplification by
/// perpendicular distance keeps, in increasing order.
///
/// The ranges that wait to be simplified are kept on a stack of their
/// own, so that a polyline that splits again and again does not exhaust
/// the call stack.
pub fn rdp_indices(xs: &[Point], eps: u64) -> (keep: Vec<usize>)
    ensures
        as_ints(keep@) == rdp_kept(xs@, eps as int),
        increasing_below(as_ints(keep@), xs@.len() as int),
{
    let n: usize = xs.len();
    let ghost pts = xs@;
    let ghost tol = eps as int;
    let mut keep: Vec<usize> = Vec::new();
    if n < 2 {
        if n == 1 {
            keep.push(0);
        }
        proof {
            assert(as_ints(keep@) =~= all_indices(n as nat));
        }
        return keep;
    }
    let mut stack: Vec<Range> = Vec::new();
    stack.push((0, n - 1, true));
    proof {
        let whole = rdp_range(pts, 0, n - 1, tol, true);
        reveal_with_fuel(pending, 2);
        assert(stack@.drop_last() =~= Seq::<Range>::empty());
        assert(as_ints(keep@) + pending(pts, stack@, tol) =~= whole);
    }
    while stack.len() > 0
        invariant
            pts == xs@,
            n == pts.len(),
            tol == eps as int,
            ranges_inside(stack@, n as int),
            as_ints(keep@) + pending(pts, stack@, tol) == rdp_range(pts, 0, n - 1, tol, true),
        decreases work(stack@),
    {
        let ghost before = stack@;
        let ghost kept = as_ints(keep@);
        let (lo, hi, include_end) = stack.pop().unwrap();
        let ghost rest = stack@;
        proof {
            assert(before.last() == (lo, hi, include_end));
            assert(before.drop_last() =~= rest);
            assert(work(before) == 2 * (hi - lo) - 1 + work(rest));
            lemma_work_bounded(rest, n as int);
        }
        let (m, offset) = farthest_point(xs, lo, hi);
        if exceeds(offset, chord_length_sq(xs[lo], xs[hi]), eps) {
            proof {
                lemma_split_inside(pts, lo as int, hi as int, tol);
            }
            stack.push((m, hi, include_end));
            let ghost half = stack@;
            stack.push((lo, m, false));
            proof {
                let x = rdp_range(pts, lo as int, m as int, tol, false);
                let y = rdp_range(pts, m as int, hi as int, tol, include_end);
                assert(half.drop_last() =~= rest);
                assert(half.last() == (m, hi, include_end));
                assert(stack@.drop_last() =~= half);
                assert(stack@.last() == (lo, m, false));
                assert(pending(pts, half, tol) == y + pending(pts, rest, tol));
                assert(pending(pts, stack@, tol) == x + pending(pts, half, tol));
                assert(work(half) == 2 * (hi - m) - 1 + work(rest));
                assert(work(stack@) == 2 * (m - lo) - 1 + work(half));
                assert(kept + (x + (y + pending(pts, rest, tol))) =~= kept + ((x + y) + pending(
                    pts,
                    rest,
                    tol,
                )));
                assert forall|i: int| 0 <= i < stack@.len() implies (#[trigger] stack@[i]).0
                    < stack@[i].1 < n by {
                    if i < rest.len() {
                        assert(stack@[i] == before[i]);
                    }
                }
            }
        } else {
            keep.push(lo);
            if include_end {
                keep.push(hi);
            }
            proof {
                let collapsed = rdp_range(pts, lo as int, hi as int, tol, include_end);
                assert(as_ints(keep@) =~= kept + collapsed);
                assert((kept + collapsed) + pending(pts, rest, tol) =~= kept + (collapsed
                    + pending(pts, rest, tol)));
                assert forall|i: int| 0 <= i < stack@.len() implies (#[trigger] stack@[i]).0
                    < stack@[i].1 < n by {
                    assert(stack@[i] == before[i]);
                }
            }
        }
    }
    proof {
        assert(pending(pts, stack@, tol) =~= Seq::<int>::empty());
        assert(as_ints(keep@) + Seq::<int>::empty() =~= as_ints(keep@));
        lemma_rdp_range_shape(pts, 0, n - 1, tol, true);
    }
    keep
}

/// Simplifies the polyline `xs` by perpendicular distance
/// (Ramer-Douglas-Peucker).
///
/// A polyline of fewer than two points is returned as it is. Else the
/// range from the first to the last point is simplified: where the point
/// farthest from the chord between the ends of a range lies farther from
/// it than `eps`, the range splits at that point, the first of them among
/// equally far ones; else only its two ends stay.
pub fn rdp(xs: &[Point], eps: u64) -> (out: Vec<Point>)
    ensures
        out@ == rdp_spec(xs@, eps as int),
        subsequence_of(out@, xs@),
        out@.len() <= xs@.len(),
        xs@.len() >= 1 ==> out@.len() >= 1 && out@.first() == xs@.first() && out@.last()
            == xs@.last(),
        xs@.len() < 2 ==> out@ == xs@,
{
    let keep: Vec<usize> = rdp_indices(xs, eps);
    proof {
        assert forall|j: int| 0 <= j < keep@.len() implies #[trigger] keep@[j] < xs@.len() by {
            assert(as_ints(keep@)[j] == keep@[j]);
        }
    }
    let out: Vec<Point> = select_points(xs, &keep);
    proof {
        assert(increasing_below(as_ints(keep@), xs@.len() as int) && out@ == select(
            xs@,
            as_ints(keep@),
        ));
        if xs@.len() < 2 {
            assert(select(xs@, all_indices(xs@.len())) =~= xs@);
        } else {
            lemma_rdp_range_shape(xs@, 0, xs@.len() - 1, eps as int, true);
        }
    }
    out
}

/// Of three points the middle one stays exactly when it lies farther
/// from the chord between the other two than the tolerance.
pub proof fn lemma_rdp_of_three(a: Point, t: Point, b: Point, tol: int)
    ensures
        rdp_spec(seq![a, t, b], tol) == if farther_than(a, b, t, tol) {
            seq![a, t, b]
        } else {
            seq![a, b]
        },
{
    let pts = seq![a, t, b];
    reveal_with_fuel(farthest_upto, 3);
    reveal_with_fuel(rdp_range, 2);
    lemma_offset_of_origin(a, b);
    lemma_still(pts, 0, 1, tol);
    lemma_still(pts, 1, 2, tol);
    if line_offset(a, b, t) > 0 {
        assert(farthest(pts, 0, 2) == 1);
    } else {
        assert(farthest(pts, 0, 2) == 0);
        lemma_still(pts, 0, 2, tol);
        assert(!farther_than(a, b, t, tol)) by (nonlinear_arith)
            requires
                line_offset(a, b, t) == 0,
                chord_sq(a, b) >= 0,
        ;
    }
    if farther_than(a, b, t, tol) {
        assert(rdp_range(pts, 0, 2, tol, true) =~= seq![0int, 1int, 2int]);
        assert(select(pts, seq![0int, 1int, 2int]) =~= pts);
    } else {
        assert(select(pts, seq![0int, 2int]) =~= seq![a, b]);
    }
}

/// The first point of a range never lies farther from its chord than a
/// tolerance.
proof fn lemma_still(pts: Seq<Point>, lo: int, hi: int, tol: int)
    ensures
        !farther_than(pts[lo], pts[hi], pts[lo], tol),
{
    let chord = chord_sq(pts[lo], pts[hi]) as int;
    let offset = line_offset(pts[lo], pts[hi], pts[lo]) as int;
    lemma_offset_of_origin(pts[lo], pts[hi]);
    assert(tol * tol * chord >= 0) by (nonlinear_arith)
        requires
            chord >= 0,
    ;
    assert(offset * offset == 0) by (nonlinear_arith)
        requires
            offset == 0,
    ;
}

/// A smaller tolerance keeps at least as many points as a larger one.
pub proof fn lemma_rdp_monotone(pts: Seq<Point>, tol1: u64, tol2: u64)
    requires
        tol1 <= tol2,
    ensures
        rdp_spec(pts, tol1 as int).len() >= rdp_spec(pts, tol2 as int).len(),
{
    if pts.len() >= 2 {
        lemma_rdp_range_monotone(pts, 0, pts.len() - 1, tol1 as int, tol2 as int, true);
    }
}

} // verus!
