//! Integer arithmetic behind the evaluator: results that must fit a cell,
//! division that rounds toward zero or to the nearest integer, and square
//! roots.
//!
//! A cell holds a 32-bit signed integer. Every operation is computed in
//! the integers first; a result outside the 32-bit range is no value.

use vstd::prelude::*;

verus! {

/// `x` can be held by a cell.
pub open spec fn fits_i32(x: int) -> bool {
    i32::MIN <= x <= i32::MAX
}

/// `x` as a cell's integer, or nothing when it does not fit.
pub open spec fn narrow(x: int) -> Option<i32> {
    if fits_i32(x) {
        Some(x as i32)
    } else {
        None
    }
}

/// The absolute value of `x`.
pub open spec fn magnitude(x: int) -> int {
    if x < 0 {
        -x
    } else {
        x
    }
}

/// `a / b` rounded toward zero, for a divisor other than zero.
pub open spec fn quotient_toward_zero(a: int, b: int) -> int {
    if (a < 0) == (b < 0) {
        magnitude(a) / magnitude(b)
    } else {
        -(magnitude(a) / magnitude(b))
    }
}

/// `a / n` rounded to the nearest integer, a tie going away from zero,
/// for a positive `n`.
pub open spec fn quotient_nearest(a: int, n: int) -> int {
    if a >= 0 {
        (2 * a + n) / (2 * n)
    } else {
        -((2 * (-a) + n) / (2 * n))
    }
}

/// `r` is the square root of `x` rounded down.
pub open spec fn is_sqrt_floor(r: int, x: int) -> bool {
    0 <= r && r * r <= x < (r + 1) * (r + 1)
}

/// Narrows a wide integer to what a cell can hold.
pub fn narrow_i128(x: i128) -> (r: Option<i32>)
    ensures
        r == narrow(x as int),
{
    if x < -2147483648 || x > 2147483647 {
        None
    } else {
        Some(x as i32)
    }
}

/// The absolute value of a cell's integer.
pub fn magnitude_of(x: i32) -> (m: u64)
    ensures
        m == magnitude(x as int),
        m <= 0x8000_0000,
{
    if x < 0 {
        (-(x as i64)) as u64
    } else {
        x as u64
    }
}

/// Divides `a` by `b`, rounding toward zero.
pub fn divide_toward_zero(a: i32, b: i32) -> (q: i64)
    requires
        b != 0,
    ensures
        q == quotient_toward_zero(a as int, b as int),
{
    let ma: u64 = magnitude_of(a);
    let mb: u64 = magnitude_of(b);
    let mq: u64 = ma / mb;
    assert(mq <= ma) by (nonlinear_arith)
        requires mq == ma / mb, mb >= 1, ma >= 0;
    if (a < 0) == (b < 0) {
        mq as i64
    } else {
        -(mq as i64)
    }
}

/// Divides `a` by `n`, rounding to the nearest integer with ties away
/// from zero.
pub fn divide_nearest(a: i128, n: u64) -> (q: i128)
    requires
        n > 0,
        n <= 0x1_0000_0000,
        -0x8000_0000_0000_0000 <= a <= 0x8000_0000_0000_0000,
    ensures
        q == quotient_nearest(a as int, n as int),
{
    let m: u128 = if a < 0 { (-a) as u128 } else { a as u128 };
    let num: u128 = 2 * m + n as u128;
    let den: u128 = 2 * n as u128;
    let mq: u128 = num / den;
    assert(mq <= num) by (nonlinear_arith)
        requires mq == num / den, den >= 1, num >= 0;
    if a < 0 {
        -(mq as i128)
    } else {
        mq as i128
    }
}

/// The square root of `x`, rounded down.
pub fn sqrt_floor(x: u128) -> (r: u64)
    ensures
        is_sqrt_floor(r as int, x as int),
{
    let mut lo: u128 = 0;
    let mut hi: u128 = 0x1_0000_0000_0000_0000;
    assert(hi * hi > x) by (nonlinear_arith)
        requires hi == 0x1_0000_0000_0000_0000, x <= u128::MAX;
    while hi - lo > 1
        invariant
            lo < hi <= 0x1_0000_0000_0000_0000,
            lo * lo <= x < hi * hi,
        decreases hi - lo,
    {
        let mid: u128 = lo + (hi - lo) / 2;
        assert(mid * mid <= 0xFFFF_FFFF_FFFF_FFFF * 0xFFFF_FFFF_FFFF_FFFF) by (nonlinear_arith)
            requires 0 <= mid <= 0xFFFF_FFFF_FFFF_FFFF;
        if mid * mid <= x {
            lo = mid;
        } else {
            hi = mid;
        }
    }
    lo as u64
}

} // verus!
