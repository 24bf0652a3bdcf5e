//! Fixed-point scalar arithmetic.
//!
//! A scalar is an `i64` counting units of `1 / SCALE`; the value
//! `SCALE` stands for one physical unit.  Products of two scalars are
//! divided by `SCALE` again, with truncation toward zero, mirroring the
//! rounding of machine integer division.

use vstd::arithmetic::div_mod::{lemma_div_is_ordered, lemma_div_multiples_vanish};
use vstd::arithmetic::mul::lemma_mul_inequality;
use vstd::prelude::*;

verus! {

/// Number of fixed-point units in one physical unit.
pub const SCALE: i64 = 1_000_000;

/// Magnitude of an integer.
pub open spec fn mag(a: int) -> int {
    if a >= 0 {
        a
    } else {
        -a
    }
}

/// Division with truncation toward zero, the rounding used by machine
/// integer division.
pub open spec fn tdiv(a: int, d: int) -> int {
    if a >= 0 {
        a / d
    } else {
        -((-a) / d)
    }
}

/// Floor of the square root of a non-negative integer.
pub open spec fn sqrt_floor(n: int) -> int
    decreases n,
{
    if n <= 0 {
        0
    } else if (sqrt_floor(n - 1) + 1) * (sqrt_floor(n - 1) + 1) <= n {
        sqrt_floor(n - 1) + 1
    } else {
        sqrt_floor(n - 1)
    }
}

/// Ceiling of the square root of a non-negative integer.
pub open spec fn sqrt_ceil(n: int) -> int {
    if sqrt_floor(n) * sqrt_floor(n) == n {
        sqrt_floor(n)
    } else {
        sqrt_floor(n) + 1
    }
}

/// The defining property of `sqrt_floor`.
pub proof fn lemma_sqrt_floor(n: int)
    requires
        n >= 0,
    ensures
        0 <= sqrt_floor(n),
        sqrt_floor(n) * sqrt_floor(n) <= n,
        n < (sqrt_floor(n) + 1) * (sqrt_floor(n) + 1),
    decreases n,
{
    if n > 0 {
        lemma_sqrt_floor(n - 1);
        let r = sqrt_floor(n - 1);
        assert(r * r <= n - 1 < (r + 1) * (r + 1));
        if (r + 1) * (r + 1) <= n {
            assert(sqrt_floor(n) == r + 1);
            assert(n - 1 < (r + 1) * (r + 1)) by (nonlinear_arith)
                requires n - 1 < (r + 1) * (r + 1);
            assert(n < (r + 2) * (r + 2)) by (nonlinear_arith)
                requires n <= (r + 1) * (r + 1), r >= 0;
        } else {
            assert(sqrt_floor(n) == r);
        }
    }
}

/// `sqrt_floor` is the only non-negative integer whose square brackets `n`.
pub proof fn lemma_sqrt_floor_unique(n: int, r: int)
    requires
        n >= 0,
        r >= 0,
        r * r <= n,
        n < (r + 1) * (r + 1),
    ensures
        r == sqrt_floor(n),
{
    lemma_sqrt_floor(n);
    let s = sqrt_floor(n);
    if r < s {
        assert((r + 1) * (r + 1) <= s * s) by (nonlinear_arith)
            requires 0 <= r, r < s;
    }
    if s < r {
        assert((s + 1) * (s + 1) <= r * r) by (nonlinear_arith)
            requires 0 <= s, s < r;
    }
}

/// The magnitude of a truncated quotient is the floor quotient of the
/// magnitude.
pub proof fn lemma_tdiv_mag(a: int, d: int)
    requires
        d >= 1,
    ensures
        mag(tdiv(a, d)) == mag(a) / d,
        mag(tdiv(a, d)) * d <= mag(a),
{
    if a >= 0 {
        assert(a / d >= 0) by {
            lemma_div_is_ordered(0, a, d);
        }
    } else {
        assert((-a) / d >= 0) by {
            lemma_div_is_ordered(0, -a, d);
        }
    }
    vstd::arithmetic::div_mod::lemma_fundamental_div_mod(mag(a), d);
    vstd::arithmetic::div_mod::lemma_mod_bound(mag(a), d);
    assert((mag(a) / d) * d <= mag(a));
}

/// A truncated quotient of a bounded dividend is bounded by the floor
/// quotient of the bound.
pub proof fn lemma_tdiv_bound(a: int, d: int, b: int)
    requires
        d >= 1,
        mag(a) <= b,
    ensures
        mag(tdiv(a, d)) <= b / d,
        mag(tdiv(a, d)) <= b,
{
    lemma_tdiv_mag(a, d);
    lemma_div_is_ordered(mag(a), b, d);
    assert(b <= b * d) by (nonlinear_arith)
        requires b >= 0, d >= 1;
    lemma_div_is_ordered(b, b * d, d);
    lemma_div_multiples_vanish(b, d);
}

/// Truncating division of `i128` values.
fn tdiv128(a: i128, d: i128) -> (r: i128)
    requires
        d > 0,
        a > i128::MIN,
    ensures
        r as int == tdiv(a as int, d as int),
{
    if a >= 0 {
        let q: u128 = (a as u128) / (d as u128);
        proof {
            lemma_div_is_ordered(a as int, i128::MAX as int, d as int);
            lemma_div_is_ordered(0, a as int, d as int);
            lemma_div_multiples_vanish(i128::MAX as int, d as int);
            lemma_mul_inequality(1, d as int, i128::MAX as int);
        }
        q as i128
    } else {
        let n: i128 = -a;
        let q: u128 = (n as u128) / (d as u128);
        proof {
            lemma_div_is_ordered(n as int, i128::MAX as int, d as int);
            lemma_div_is_ordered(0, n as int, d as int);
            lemma_div_multiples_vanish(i128::MAX as int, d as int);
            lemma_mul_inequality(1, d as int, i128::MAX as int);
        }
        -(q as i128)
    }
}

/// `a * b / d` with truncation toward zero and an exact 128-bit product.
pub fn muldiv(a: i64, b: i64, d: i64) -> (r: i64)
    requires
        d > 0,
        mag(a as int * b as int) <= i64::MAX as int * d as int,
    ensures
        r as int == tdiv(a as int * b as int, d as int),
{
    let p: i128 = (a as i128) * (b as i128);
    proof {
        lemma_tdiv_bound(p as int, d as int, i64::MAX as int * d as int);
        assert((i64::MAX as int * d as int) / (d as int) == i64::MAX as int) by {
            lemma_div_multiples_vanish(i64::MAX as int, d as int);
        }
    }
    let q: i128 = tdiv128(p, d as i128);
    q as i64
}

/// `(ax * bx + ay * by) / d` with truncation toward zero: the scaled dot
/// product of two fixed-point vectors.
pub fn dotdiv(ax: i64, ay: i64, bx: i64, by: i64, d: i64) -> (r: i64)
    requires
        d > 0,
        mag(ax as int) <= 3_000_000_000_000_000_000,
        mag(ay as int) <= 3_000_000_000_000_000_000,
        mag(bx as int) <= 3_000_000_000_000_000_000,
        mag(by as int) <= 3_000_000_000_000_000_000,
        mag(ax as int * bx as int + ay as int * by as int) <= i64::MAX as int * d as int,
    ensures
        r as int == tdiv(ax as int * bx as int + ay as int * by as int, d as int),
{
    proof {
        lemma_mag_mul_bound(ax as int, bx as int, 3_000_000_000_000_000_000,
            3_000_000_000_000_000_000);
        lemma_mag_mul_bound(ay as int, by as int, 3_000_000_000_000_000_000,
            3_000_000_000_000_000_000);
    }
    let p: i128 = (ax as i128) * (bx as i128) + (ay as i128) * (by as i128);
    proof {
        lemma_tdiv_bound(p as int, d as int, i64::MAX as int * d as int);
        assert((i64::MAX as int * d as int) / (d as int) == i64::MAX as int) by {
            lemma_div_multiples_vanish(i64::MAX as int, d as int);
        }
    }
    let q: i128 = tdiv128(p, d as i128);
    q as i64
}

/// Bound on the magnitude of a product from bounds on the factors.
pub proof fn lemma_mag_mul_bound(a: int, b: int, ba: int, bb: int)
    requires
        mag(a) <= ba,
        mag(b) <= bb,
    ensures
        mag(a * b) <= ba * bb,
    {
    assert(mag(a * b) <= ba * bb) by (nonlinear_arith)
        requires mag(a) <= ba, mag(b) <= bb;
}

/// Floor square root by binary search over 128-bit integers.
fn isqrt128(n: i128) -> (r: i128)
    requires
        0 <= n,
        n < 0x4000_0000_0000_0000_0000_0000_0000_0000,
    ensures
        r as int == sqrt_floor(n as int),
        0 <= r,
{
    let mut lo: i128 = 0;
    let mut hi: i128 = 0x8000_0000_0000_0000;
    proof {
        assert((0x8000_0000_0000_0000 as int) * (0x8000_0000_0000_0000 as int)
            == 0x4000_0000_0000_0000_0000_0000_0000_0000);
    }
    while lo + 1 < hi
        invariant
            0 <= lo < hi <= 0x8000_0000_0000_0000,
            lo as int * (lo as int) <= n as int,
            (n as int) < hi as int * hi as int,
            n < 0x4000_0000_0000_0000_0000_0000_0000_0000,
        decreases hi - lo,
    {
        let mid: i128 = lo + (hi - lo) / 2;
        proof {
            assert(mid as int * (mid as int) < 0x4000_0000_0000_0000_0000_0000_0000_0000)
                by (nonlinear_arith)
                requires 0 <= mid as int, (mid as int) < 0x8000_0000_0000_0000,
                    (0x8000_0000_0000_0000 as int) * (0x8000_0000_0000_0000 as int)
                        == 0x4000_0000_0000_0000_0000_0000_0000_0000;
            assert((0x8000_0000_0000_0000 as int) * (0x8000_0000_0000_0000 as int)
                == 0x4000_0000_0000_0000_0000_0000_0000_0000);
        }
        if mid * mid <= n {
            lo = mid;
        } else {
            hi = mid;
        }
    }
    proof {
        lemma_sqrt_floor_unique(n as int, lo as int);
    }
    lo
}

/// Floor magnitude of a fixed-point vector: `sqrt_floor(x^2 + y^2)`.
pub fn mag_floor(x: i64, y: i64) -> (r: i64)
    requires
        mag(x as int) <= 3_000_000_000_000_000_000,
        mag(y as int) <= 3_000_000_000_000_000_000,
    ensures
        r as int == sqrt_floor(x as int * x as int + y as int * y as int),
        0 <= r,
{
    proof {
        lemma_mag_mul_bound(x as int, x as int, 3_000_000_000_000_000_000,
            3_000_000_000_000_000_000);
        lemma_mag_mul_bound(y as int, y as int, 3_000_000_000_000_000_000,
            3_000_000_000_000_000_000);
        assert(x as int * x as int >= 0) by (nonlinear_arith);
        assert(y as int * y as int >= 0) by (nonlinear_arith);
    }
    let n: i128 = (x as i128) * (x as i128) + (y as i128) * (y as i128);
    let r: i128 = isqrt128(n);
    proof {
        lemma_sqrt_floor(n as int);
        assert((r as int) <= 5_000_000_000_000_000_000) by (nonlinear_arith)
            requires
                0 <= r as int,
                r as int * (r as int) <= n as int,
                (n as int) <= 2 * (3_000_000_000_000_000_000 * 3_000_000_000_000_000_000);
    }
    r as i64
}

/// Ceiling magnitude of a fixed-point vector: `sqrt_ceil(x^2 + y^2)`.
pub fn mag_ceil(x: i64, y: i64) -> (r: i64)
    requires
        mag(x as int) <= 3_000_000_000_000_000_000,
        mag(y as int) <= 3_000_000_000_000_000_000,
    ensures
        r as int == sqrt_ceil(x as int * x as int + y as int * y as int),
        0 <= r,
{
    proof {
        lemma_mag_mul_bound(x as int, x as int, 3_000_000_000_000_000_000,
            3_000_000_000_000_000_000);
        lemma_mag_mul_bound(y as int, y as int, 3_000_000_000_000_000_000,
            3_000_000_000_000_000_000);
        assert(x as int * x as int >= 0) by (nonlinear_arith);
        assert(y as int * y as int >= 0) by (nonlinear_arith);
    }
    let n: i128 = (x as i128) * (x as i128) + (y as i128) * (y as i128);
    let r: i128 = isqrt128(n);
    proof {
        lemma_sqrt_floor(n as int);
        assert((r as int) <= 5_000_000_000_000_000_000) by (nonlinear_arith)
            requires
                0 <= r as int,
                r as int * (r as int) <= n as int,
                (n as int) <= 2 * (3_000_000_000_000_000_000 * 3_000_000_000_000_000_000);
    }
    if r * r == n {
        r as i64
    } else {
        (r + 1) as i64
    }
}

}
