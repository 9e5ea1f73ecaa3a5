//! Saturating fixed-point arithmetic with nine decimal places.
use vstd::prelude::*;

verus! {

/// The fixed-point encoding of the number one: quantities count billionths.
pub const ONE: i64 = 1_000_000_000;

/// `x` saturated into the range of `i64`.
pub open spec fn sat(x: int) -> int {
    if x < i64::MIN {
        i64::MIN as int
    } else if x > i64::MAX {
        i64::MAX as int
    } else {
        x
    }
}

/// The quotient of `a` by a positive `b`, rounded toward zero.
pub open spec fn quot(a: int, b: int) -> int {
    if a >= 0 {
        a / b
    } else {
        -((-a) / b)
    }
}

/// The fixed-point product of `a` and `b`, rounded toward zero and saturated.
pub open spec fn fmul(a: int, b: int) -> int {
    sat(quot(a * b, ONE as int))
}

/// The fixed-point quotient of `a` by a positive `b`, rounded toward zero and saturated.
pub open spec fn fdiv(a: int, b: int) -> int {
    sat(quot(a * ONE, b))
}

/// `x` brought into the closed range `[lo, hi]`.
pub open spec fn clamp(x: int, lo: int, hi: int) -> int {
    if x < lo {
        lo
    } else if x > hi {
        hi
    } else {
        x
    }
}

/// Saturates a wide intermediate value into an `i64`.
pub fn saturate(x: i128) -> (r: i64)
    ensures
        r == sat(x as int),
{
    if x < i64::MIN as i128 {
        i64::MIN
    } else if x > i64::MAX as i128 {
        i64::MAX
    } else {
        x as i64
    }
}

fn quotient(a: i128, b: i128) -> (r: i128)
    requires
        b > 0,
        a > i128::MIN,
    ensures
        r == quot(a as int, b as int),
{
    if a >= 0 {
        a / b
    } else {
        -((-a) / b)
    }
}

/// Multiplies two fixed-point numbers.
pub fn mul_fixed(a: i64, b: i64) -> (r: i64)
    ensures
        r == fmul(a as int, b as int),
{
    let wa = a as i128;
    let wb = b as i128;
    assert(-0x4000_0000_0000_0000_0000_0000_0000_0000 <= wa * wb <= 0x4000_0000_0000_0000_0000_0000_0000_0000)
        by (nonlinear_arith)
        requires
            -0x8000_0000_0000_0000 <= wa <= 0x8000_0000_0000_0000,
            -0x8000_0000_0000_0000 <= wb <= 0x8000_0000_0000_0000,
    ;
    saturate(quotient(wa * wb, ONE as i128))
}

/// Divides a fixed-point number by a positive one.
pub fn div_fixed(a: i64, b: i64) -> (r: i64)
    requires
        b > 0,
    ensures
        r == fdiv(a as int, b as int),
{
    let p = a as i128 * 1_000_000_000i128;
    assert(p == a * ONE);
    saturate(quotient(p, b as i128))
}

/// Adds two fixed-point numbers, saturating at the bounds of `i64`.
pub fn add_fixed(a: i64, b: i64) -> (r: i64)
    ensures
        r == sat(a + b),
{
    saturate(a as i128 + b as i128)
}

/// Brings `x` into `[lo, hi]`.
pub fn clamp_fixed(x: i64, lo: i64, hi: i64) -> (r: i64)
    requires
        lo <= hi,
    ensures
        r == clamp(x as int, lo as int, hi as int),
{
    if x < lo {
        lo
    } else if x > hi {
        hi
    } else {
        x
    }
}

} // verus!
