//! Products of two 128-bit numbers, held as two 128-bit halves.

use vstd::prelude::*;

verus! {

/// Two to the power 64.
pub open spec fn pow64() -> int {
    0x1_0000_0000_0000_0000
}

/// Two to the power 128.
pub open spec fn pow128() -> int {
    pow64() * pow64()
}

/// The number that the halves `(high, low)` stand for.
pub open spec fn wide_value(w: (u128, u128)) -> int {
    w.0 * pow128() + w.1
}

/// How a product splits over the 64-bit halves of its factors.
proof fn lemma_split_product(a: int, a1: int, a0: int, b: int, b1: int, b0: int, base: int)
    requires
        a == a1 * base + a0,
        b == b1 * base + b0,
    ensures
        a * b == (a1 * b1) * (base * base) + (a0 * b1 + a1 * b0) * base + a0 * b0,
{
    let x = a1 * base;
    let y = b1 * base;
    assert((x + a0) * (y + b0) == x * y + x * b0 + a0 * y + a0 * b0) by (nonlinear_arith);
    assert(x * y == (a1 * b1) * (base * base)) by (nonlinear_arith)
        requires
            x == a1 * base,
            y == b1 * base,
    ;
    assert(x * b0 == (a1 * b0) * base) by (nonlinear_arith)
        requires
            x == a1 * base,
    ;
    assert(a0 * y == (a0 * b1) * base) by (nonlinear_arith)
        requires
            y == b1 * base,
    ;
    assert((a0 * b1 + a1 * b0) * base == (a0 * b1) * base + (a1 * b0) * base)
        by (nonlinear_arith);
}

/// The product of two numbers below `2^64` is at most `(2^64 - 1)^2`.
proof fn lemma_half_product(x: int, y: int)
    requires
        0 <= x < pow64(),
        0 <= y < pow64(),
    ensures
        0 <= x * y <= 0xffff_ffff_ffff_fffe_0000_0000_0000_0001,
{
    assert(0 <= x * y <= 0xffff_ffff_ffff_ffff * 0xffff_ffff_ffff_ffff) by (nonlinear_arith)
        requires
            0 <= x <= 0xffff_ffff_ffff_ffff,
            0 <= y <= 0xffff_ffff_ffff_ffff,
    ;
}

/// The full product of `a` and `b`, as `(high, low)` halves.
pub fn mul_wide(a: u128, b: u128) -> (w: (u128, u128))
    ensures
        wide_value(w) == a * b,
{
    let a1: u128 = a / 0x1_0000_0000_0000_0000;
    let a0: u128 = a % 0x1_0000_0000_0000_0000;
    let b1: u128 = b / 0x1_0000_0000_0000_0000;
    let b0: u128 = b % 0x1_0000_0000_0000_0000;
    proof {
        lemma_half_product(a0 as int, b0 as int);
        lemma_half_product(a0 as int, b1 as int);
        lemma_half_product(a1 as int, b0 as int);
        lemma_half_product(a1 as int, b1 as int);
        lemma_split_product(a as int, a1 as int, a0 as int, b as int, b1 as int, b0 as int, pow64());
    }
    let p00: u128 = a0 * b0;
    let p01: u128 = a0 * b1;
    let p10: u128 = a1 * b0;
    let p11: u128 = a1 * b1;
    let mid: u128 = p00 / 0x1_0000_0000_0000_0000 + p01 % 0x1_0000_0000_0000_0000 + p10
        % 0x1_0000_0000_0000_0000;
    let low: u128 = (mid % 0x1_0000_0000_0000_0000) * 0x1_0000_0000_0000_0000 + p00
        % 0x1_0000_0000_0000_0000;
    let high: u128 = p11 + p01 / 0x1_0000_0000_0000_0000 + p10 / 0x1_0000_0000_0000_0000 + mid
        / 0x1_0000_0000_0000_0000;
    proof {
        assert(pow128() == 0x1_0000_0000_0000_0000 * 0x1_0000_0000_0000_0000);
        assert((a0 * b1 + a1 * b0) * pow64() == p01 * pow64() + p10 * pow64()) by (nonlinear_arith)
            requires
                p01 == a0 * b1,
                p10 == a1 * b0,
        ;
        assert(high * pow128() == p11 * pow128() + (p01 / 0x1_0000_0000_0000_0000) * pow128() + (
        p10 / 0x1_0000_0000_0000_0000) * pow128() + (mid / 0x1_0000_0000_0000_0000) * pow128())
            by (nonlinear_arith)
            requires
                high == p11 + p01 / 0x1_0000_0000_0000_0000 + p10 / 0x1_0000_0000_0000_0000 + mid
                    / 0x1_0000_0000_0000_0000,
        ;
    }
    (high, low)
}

/// Whether the number of the halves `x` is greater than that of `y`.
pub fn wide_greater(x: (u128, u128), y: (u128, u128)) -> (b: bool)
    ensures
        b == (wide_value(x) > wide_value(y)),
{
    proof {
        assert(pow128() == 0x1_0000_0000_0000_0000 * 0x1_0000_0000_0000_0000);
        assert(x.0 > y.0 ==> x.0 * pow128() >= y.0 * pow128() + pow128()) by (nonlinear_arith);
        assert(y.0 > x.0 ==> y.0 * pow128() >= x.0 * pow128() + pow128()) by (nonlinear_arith);
    }
    x.0 > y.0 || (x.0 == y.0 && x.1 > y.1)
}

} // verus!
