//! Fixed-point arithmetic: one unit is a million steps.
//!
//! Weights, positions, speeds and angles are all `i64` values counting
//! millionths of a unit.  Addition and multiplication saturate at the `i64`
//! range; multiplication rescales the exact product and rounds it toward
//! zero.  The spec functions here are the model that every contract in the
//! crate speaks of.

use vstd::prelude::*;
use vstd::arithmetic::div_mod::lemma_div_by_multiple;
use vstd::arithmetic::div_mod::lemma_div_is_ordered;
use vstd::arithmetic::div_mod::lemma_div_nonincreasing;
use vstd::arithmetic::div_mod::lemma_div_pos_is_pos;

verus! {

/// A quotient rounded toward zero is no larger in magnitude than the
/// dividend.
proof fn lemma_div_magnitude(p: int, d: int)
    requires
        d >= 1,
    ensures
        p >= 0 ==> 0 <= div_toward_zero(p, d) <= p,
        p < 0 ==> p <= div_toward_zero(p, d) <= 0,
{
    if p >= 0 {
        lemma_div_pos_is_pos(p, d);
        lemma_div_nonincreasing(p, d);
    } else {
        lemma_div_pos_is_pos(-p, d);
        lemma_div_nonincreasing(-p, d);
    }
}

/// Millionths of a unit: the fixed-point scale.
pub const SCALE: i64 = 1000000;

/// An integer clipped into the `i64` range.
pub open spec fn sat64(x: int) -> int {
    if x > i64::MAX as int {
        i64::MAX as int
    } else if x < i64::MIN as int {
        i64::MIN as int
    } else {
        x
    }
}

/// Quotient rounded toward zero, for a positive divisor.
pub open spec fn div_toward_zero(p: int, d: int) -> int
    recommends
        d > 0,
{
    if p >= 0 {
        p / d
    } else {
        -((-p) / d)
    }
}

/// The model of fixed-point addition.
pub open spec fn fx_add(a: int, b: int) -> int {
    sat64(a + b)
}

/// The model of fixed-point multiplication: exact product, rescaled,
/// rounded toward zero, clipped into the `i64` range.
pub open spec fn fx_mul(a: int, b: int) -> int {
    sat64(div_toward_zero(a * b, SCALE as int))
}

/// Saturating fixed-point addition.
pub fn sat_add(a: i64, b: i64) -> (r: i64)
    ensures
        r == fx_add(a as int, b as int),
{
    let s: i128 = a as i128 + b as i128;
    if s > i64::MAX as i128 {
        i64::MAX
    } else if s < i64::MIN as i128 {
        i64::MIN
    } else {
        s as i64
    }
}

/// Fixed-point product of two quantities measured in units.
pub fn mul_unit(a: i64, b: i64) -> (r: i64)
    ensures
        r == fx_mul(a as int, b as int),
{
    proof {
        let ai = a as int;
        let bi = b as int;
        assert(-0x40000000000000000000000000000000 <= ai * bi
            <= 0x40000000000000000000000000000000) by (nonlinear_arith)
            requires
                -0x8000000000000000 <= ai <= 0x7fffffffffffffff,
                -0x8000000000000000 <= bi <= 0x7fffffffffffffff;
    }
    let p: i128 = a as i128 * b as i128;
    let q: i128 = match p.checked_div(SCALE as i128) {
        Some(q) => q,
        None => {
            proof {
                lemma_div_magnitude(p as int, SCALE as int);
                assert(false);
            }
            0
        },
    };
    proof {
        lemma_div_magnitude(p as int, SCALE as int);
        assert(q == div_toward_zero(a as int * b as int, SCALE as int));
    }
    if q > i64::MAX as i128 {
        i64::MAX
    } else if q < i64::MIN as i128 {
        i64::MIN
    } else {
        q as i64
    }
}

/// A product bounded by `q` units stays bounded by `q` after rescaling.
pub proof fn lemma_fx_mul_bounded(a: int, b: int, q: int)
    requires
        0 <= q <= 0x7fffffffffffffff,
        -(q * (SCALE as int)) <= a * b <= q * (SCALE as int),
    ensures
        -q <= fx_mul(a, b) <= q,
{
    let s = SCALE as int;
    let p = a * b;
    lemma_div_by_multiple(q, s);
    if p >= 0 {
        lemma_div_pos_is_pos(p, s);
        lemma_div_is_ordered(p, q * s, s);
    } else {
        lemma_div_pos_is_pos(-p, s);
        lemma_div_is_ordered(-p, q * s, s);
    }
}

} // verus!
