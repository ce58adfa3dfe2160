//! Fractional-delay interpolation: reconstructing a sample that lies between
//! two neighboring buffer entries.
//!
//! Positions between samples are expressed in Q16 fixed point: a fraction is
//! an integer in `[0, FRAC_ONE)`, denoting `frac / FRAC_ONE` of the way from
//! the lower sample to the higher one.

use vstd::prelude::*;
use vstd::arithmetic::div_mod::{lemma_div_is_ordered, lemma_div_by_multiple, lemma_div_pos_is_pos};
use vstd::arithmetic::mul::lemma_mul_inequality;

verus! {

/// Number of fixed-point fraction units in one whole sample step.
pub const FRAC_ONE: u32 = 65536;

/// Weighted linear interpolation between `low` and `high` with fraction
/// `frac / FRAC_ONE`, rounded toward `low`.  This is the mathematical value
/// `low + frac * (high - low) / FRAC_ONE` with the division rounding the
/// magnitude of the offset down, so the result never overshoots `high`.
pub open spec fn lerp_spec(low: int, high: int, frac: int) -> int {
    if high >= low {
        low + (high - low) * frac / (FRAC_ONE as int)
    } else {
        low - (low - high) * frac / (FRAC_ONE as int)
    }
}

/// The interpolated value always lies between the two samples, and a zero
/// fraction reproduces the lower sample exactly.
pub proof fn lemma_lerp_bounds(low: int, high: int, frac: int)
    requires
        0 <= frac < FRAC_ONE,
    ensures
        low <= high ==> low <= lerp_spec(low, high, frac) <= high,
        high <= low ==> high <= lerp_spec(low, high, frac) <= low,
        frac == 0 ==> lerp_spec(low, high, frac) == low,
{
    let one = FRAC_ONE as int;
    if high >= low {
        let d = high - low;
        lemma_mul_inequality(frac, one, d);
        assert(d * frac <= d * one);
        lemma_div_is_ordered(d * frac, d * one, one);
        lemma_div_by_multiple(d, one);
        assert(d * one / one == d);
        lemma_div_pos_is_pos(d * frac, one);
        if frac == 0 {
            assert(d * 0 == 0) by (nonlinear_arith);
            assert(d * frac / one == 0);
        }
    } else {
        let d = low - high;
        lemma_mul_inequality(frac, one, d);
        assert(d * frac <= d * one);
        lemma_div_is_ordered(d * frac, d * one, one);
        lemma_div_by_multiple(d, one);
        assert(d * one / one == d);
        lemma_div_pos_is_pos(d * frac, one);
        if frac == 0 {
            assert(d * 0 == 0) by (nonlinear_arith);
            assert(d * frac / one == 0);
        }
    }
}

/// Reconstructs the sample at a fractional position between `low` and `high`:
/// the canonical weighted policy `low + frac * (high - low) / FRAC_ONE`,
/// exact in fixed point.  A zero fraction returns `low` with no blending.
pub fn interpolate(low: i32, high: i32, frac: u32) -> (r: i32)
    requires
        frac < FRAC_ONE,
    ensures
        r == lerp_spec(low as int, high as int, frac as int),
        low <= high ==> low <= r <= high,
        high <= low ==> high <= r <= low,
        frac == 0 ==> r == low,
{
    proof {
        lemma_lerp_bounds(low as int, high as int, frac as int);
    }
    if high >= low {
        let d: u64 = ((high as i64) - (low as i64)) as u64;
        let q: u64 = (d * (frac as u64)) / (FRAC_ONE as u64);
        ((low as i64) + (q as i64)) as i32
    } else {
        let d: u64 = ((low as i64) - (high as i64)) as u64;
        let q: u64 = (d * (frac as u64)) / (FRAC_ONE as u64);
        ((low as i64) - (q as i64)) as i32
    }
}

} // verus!
