//! Signed arithmetic that saturates and divides towards zero.

use vstd::prelude::*;

verus! {

/// The closest value that an `i32` can hold.
pub open spec fn clamped(x: int) -> int {
    if x > i32::MAX {
        i32::MAX as int
    } else if x < i32::MIN {
        i32::MIN as int
    } else {
        x
    }
}

/// `a / d`, rounded towards zero.
pub open spec fn quotient(a: int, d: int) -> int {
    if a >= 0 {
        a / d
    } else {
        -((-a) / d)
    }
}

fn clamp(x: i64) -> (r: i32)
    ensures
        r == clamped(x as int),
{
    if x > i32::MAX as i64 {
        i32::MAX
    } else if x < i32::MIN as i64 {
        i32::MIN
    } else {
        x as i32
    }
}

pub fn saturating_add(a: i32, b: i32) -> (r: i32)
    ensures
        r == clamped(a + b),
{
    clamp(a as i64 + b as i64)
}

pub fn saturating_mul(a: i32, b: i32) -> (r: i32)
    ensures
        r == clamped(a * b),
{
    assert(-0x4000_0000_0000_0000 <= a * b <= 0x4000_0000_0000_0000) by (nonlinear_arith)
        requires
            -0x8000_0000 <= a <= 0x7fff_ffff,
            -0x8000_0000 <= b <= 0x7fff_ffff,
    ;
    clamp(a as i64 * b as i64)
}

/// `a` hundredths, rounded towards zero.
pub fn percent(a: i32) -> (r: i32)
    ensures
        r == quotient(a as int, 100),
{
    let wide: i64 = a as i64;
    if wide >= 0 {
        (wide / 100) as i32
    } else {
        let up: i64 = -wide;
        let q: i64 = up / 100;
        (-q) as i32
    }
}

} // verus!
