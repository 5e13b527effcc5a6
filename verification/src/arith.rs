//! Saturating fixed-point arithmetic for term weights and scores.
//!
//! All weights in this library are integers in units of one thousandth
//! (milli-units). Additions and multiplications saturate at `u64::MAX`
//! instead of overflowing, so every weight computation is total.

use vstd::prelude::*;

verus! {

/// The fixed-point scale: weights carry three decimal digits.
pub const SCALE_MILLI: u64 = 1000;

/// The mathematical sum of `a` and `b`, capped at `u64::MAX`.
pub open spec fn sat_add_spec(a: u64, b: u64) -> u64 {
    if a + b > u64::MAX { u64::MAX } else { (a + b) as u64 }
}

/// The mathematical product of `a` and `b`, capped at `u64::MAX`.
pub open spec fn sat_mul_spec(a: u64, b: u64) -> u64 {
    if a * b > u64::MAX { u64::MAX } else { (a * b) as u64 }
}

/// A natural number clamped into the `u64` range.
pub open spec fn cap_u64(n: nat) -> u64 {
    if n > u64::MAX { u64::MAX } else { n as u64 }
}

pub fn sat_add(a: u64, b: u64) -> (r: u64)
    ensures
        r == sat_add_spec(a, b),
{
    if a > u64::MAX - b {
        u64::MAX
    } else {
        a + b
    }
}

pub fn sat_mul(a: u64, b: u64) -> (r: u64)
    ensures
        r == sat_mul_spec(a, b),
{
    if b == 0 {
        0
    } else if a > u64::MAX / b {
        proof {
            assert(a * b > u64::MAX) by (nonlinear_arith)
                requires
                    b > 0,
                    a > u64::MAX as int / b as int,
            {
            }
        }
        u64::MAX
    } else {
        proof {
            assert(a * b <= u64::MAX) by (nonlinear_arith)
                requires
                    b > 0,
                    a <= u64::MAX as int / b as int,
            {
            }
        }
        a * b
    }
}

} // verus!
