//! Integer arithmetic as the machine does it: division towards zero, clamping.

use vstd::prelude::*;

verus! {

/// Quotient rounded towards zero, for a positive divisor.
pub open spec fn quot(a: int, b: int) -> int {
    if a >= 0 { a / b } else { -((-a) / b) }
}

/// The nearest number between two limits.
pub open spec fn clamp(x: int, lo: int, hi: int) -> int {
    if x < lo { lo } else if x > hi { hi } else { x }
}

/// The smaller of two numbers.
pub open spec fn min_of(a: int, b: int) -> int {
    if a < b { a } else { b }
}

/// The larger of two numbers.
pub open spec fn max_of(a: int, b: int) -> int {
    if a > b { a } else { b }
}

/// A quotient lies within the dividend's magnitude.
pub proof fn lemma_quot_bounds(a: int, b: int)
    requires
        b > 0,
    ensures
        a >= 0 ==> 0 <= quot(a, b) <= a,
        a <= 0 ==> a <= quot(a, b) <= 0,
{
    if a >= 0 {
        assert(0 <= a / b <= a) by (nonlinear_arith)
            requires
                a >= 0,
                b > 0,
        ;
    } else {
        let c = -a;
        assert(0 <= c / b <= c) by (nonlinear_arith)
            requires
                c >= 0,
                b > 0,
        ;
    }
}

/// Division towards zero.
pub fn div_i32(a: i32, b: i32) -> (r: i32)
    requires
        a > i32::MIN,
        b > 0,
    ensures
        r == quot(a as int, b as int),
{
    proof {
        lemma_quot_bounds(a as int, b as int);
    }
    if a >= 0 {
        a / b
    } else {
        -((-a) / b)
    }
}

/// Division towards zero.
pub fn div_i64(a: i64, b: i64) -> (r: i64)
    requires
        a > i64::MIN,
        b > 0,
    ensures
        r == quot(a as int, b as int),
{
    proof {
        lemma_quot_bounds(a as int, b as int);
    }
    if a >= 0 {
        a / b
    } else {
        -((-a) / b)
    }
}

pub fn clamp_i32(x: i32, lo: i32, hi: i32) -> (r: i32)
    ensures
        r == clamp(x as int, lo as int, hi as int),
{
    if x < lo {
        lo
    } else if x > hi {
        hi
    } else {
        x
    }
}

} // verus!
