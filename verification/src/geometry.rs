//! Exact geometry of three points: the area of their triangle and the
//! offset of one of them from the line through the other two.

use crate::wide::{mul_wide, wide_greater};
use vstd::prelude::*;

verus! {

/// A point of the plane, `(x, y)`.
pub type Point = (i32, i32);

/// The absolute value of an integer.
pub open spec fn magnitude(v: int) -> nat {
    if v < 0 {
        (-v) as nat
    } else {
        v as nat
    }
}

/// The effective area of `t` between its neighbours `a` and `b`:
/// `|(a.x - t.x)(b.y - t.y) - (b.x - t.x)(a.y - t.y)|`.
pub open spec fn effective_area(a: Point, t: Point, b: Point) -> nat {
    magnitude((a.0 - t.0) * (b.1 - t.1) - (b.0 - t.0) * (a.1 - t.1))
}

/// Every effective area of three points fits well inside a `u128`.
pub proof fn lemma_effective_area_bound(a: Point, t: Point, b: Point)
    ensures
        effective_area(a, t, b) <= 0x2_0000_0000_0000_0000,
{
    let p: int = a.0 - t.0;
    let q: int = b.1 - t.1;
    let r: int = b.0 - t.0;
    let s: int = a.1 - t.1;
    lemma_product_bound(p, q);
    lemma_product_bound(r, s);
}

/// The product of two coordinate differences stays within 64 bits of magnitude.
pub proof fn lemma_product_bound(p: int, q: int)
    requires
        -0x1_0000_0000 < p < 0x1_0000_0000,
        -0x1_0000_0000 < q < 0x1_0000_0000,
    ensures
        -0x1_0000_0000_0000_0000 < p * q < 0x1_0000_0000_0000_0000,
{
    assert(-0x1_0000_0000_0000_0000 < p * q < 0x1_0000_0000_0000_0000) by (nonlinear_arith)
        requires
            -0x1_0000_0000 < p < 0x1_0000_0000,
            -0x1_0000_0000 < q < 0x1_0000_0000,
    ;
}

/// Computes the effective area of `t` between `a` and `b`.
pub fn triangle_area(a: Point, t: Point, b: Point) -> (area: u128)
    ensures
        area == effective_area(a, t, b),
{
    let p: i128 = a.0 as i128 - t.0 as i128;
    let q: i128 = b.1 as i128 - t.1 as i128;
    let r: i128 = b.0 as i128 - t.0 as i128;
    let s: i128 = a.1 as i128 - t.1 as i128;
    proof {
        lemma_product_bound(p as int, q as int);
        lemma_product_bound(r as int, s as int);
    }
    let d: i128 = p * q - r * s;
    if d < 0 {
        (-d) as u128
    } else {
        d as u128
    }
}

/// The offset of `t` from the line through `l` and `r`, before division
/// by the length of the chord: `|a * t.x + b * t.y + c|`, where
/// `(a, b, c) = (dy, -dx, dx * l.y - dy * l.x)` and `(dx, dy) = r - l`.
pub open spec fn line_offset(l: Point, r: Point, t: Point) -> nat {
    let dx = r.0 - l.0;
    let dy = r.1 - l.1;
    magnitude(dy * t.0 + (-dx) * t.1 + (dx * l.1 - dy * l.0))
}

/// The squared length of the chord from `l` to `r`: `a * a + b * b` for
/// the `a` and `b` of [`line_offset`].
pub open spec fn chord_sq(l: Point, r: Point) -> nat {
    let dx = r.0 - l.0;
    let dy = r.1 - l.1;
    (dy * dy + dx * dx) as nat
}

/// Whether `t` lies farther than `tol` from the line through `l` and `r`:
/// `line_offset / sqrt(chord_sq) > tol`, with both sides squared. A chord
/// of length zero has no point farther from it than any tolerance.
pub open spec fn farther_than(l: Point, r: Point, t: Point, tol: int) -> bool {
    line_offset(l, r, t) * line_offset(l, r, t) > tol * tol * chord_sq(l, r)
}

/// The first point of a chord has no offset from its line.
pub proof fn lemma_offset_of_origin(l: Point, r: Point)
    ensures
        line_offset(l, r, l) == 0,
{
    let dx = r.0 - l.0;
    let dy = r.1 - l.1;
    assert(dy * l.0 + (-dx) * l.1 + (dx * l.1 - dy * l.0) == 0) by (nonlinear_arith);
}

/// Computes the offset of `t` from the line through `l` and `r`.
pub fn offset_from_line(l: Point, r: Point, t: Point) -> (offset: u128)
    ensures
        offset == line_offset(l, r, t),
{
    let dx: i128 = r.0 as i128 - l.0 as i128;
    let dy: i128 = r.1 as i128 - l.1 as i128;
    proof {
        lemma_product_bound(dy as int, t.0 as int);
        lemma_product_bound(-dx as int, t.1 as int);
        lemma_product_bound(dx as int, l.1 as int);
        lemma_product_bound(dy as int, l.0 as int);
    }
    let a: i128 = dy;
    let b: i128 = -dx;
    let c: i128 = dx * (l.1 as i128) - dy * (l.0 as i128);
    let d: i128 = a * (t.0 as i128) + b * (t.1 as i128) + c;
    if d < 0 {
        (-d) as u128
    } else {
        d as u128
    }
}

/// Computes the squared length of the chord from `l` to `r`.
pub fn chord_length_sq(l: Point, r: Point) -> (sq: u128)
    ensures
        sq == chord_sq(l, r),
{
    let dx: i128 = r.0 as i128 - l.0 as i128;
    let dy: i128 = r.1 as i128 - l.1 as i128;
    proof {
        lemma_product_bound(dx as int, dx as int);
        lemma_product_bound(dy as int, dy as int);
        assert(dx * dx >= 0 && dy * dy >= 0) by (nonlinear_arith);
    }
    (dy * dy + dx * dx) as u128
}

/// Decides whether an offset, divided by the length of a chord whose
/// square is `chord`, exceeds `tol`.
pub fn exceeds(offset: u128, chord: u128, tol: u64) -> (b: bool)
    ensures
        b == (offset * offset > tol * tol * chord),
{
    proof {
        assert(tol * tol <= 0xffff_ffff_ffff_ffff * 0xffff_ffff_ffff_ffff) by (nonlinear_arith)
            requires
                0 <= tol <= 0xffff_ffff_ffff_ffff,
        ;
    }
    let squared: u128 = (tol as u128) * (tol as u128);
    wide_greater(mul_wide(offset, offset), mul_wide(squared, chord))
}

} // verus!
