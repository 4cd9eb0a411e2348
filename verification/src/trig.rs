//! Fixed-point sine and cosine.
//!
//! Angles are millionths of a radian in `[0, tau)`.  The half-wave is a
//! rational approximation (`16 x (pi - x) / (5 pi^2 - 4 x (pi - x))`,
//! scaled); the second half is its mirror image, and cosine is sine a
//! quarter turn ahead.  The contracts pin the exact integer value and
//! bound it by one unit in magnitude, which is what the movement step
//! needs.

use vstd::prelude::*;
use crate::fixed::SCALE;
use vstd::arithmetic::div_mod::lemma_div_by_multiple;
use vstd::arithmetic::div_mod::lemma_div_is_ordered;
use vstd::arithmetic::div_mod::lemma_div_pos_is_pos;

verus! {

/// Half a turn, in millionths of a radian.
pub const PI_FX: i64 = 3141593;

/// A full turn: twice `PI_FX`.
pub const TAU_FX: i64 = 6283186;

/// A quarter turn, rounded down.
pub const HALF_PI_FX: i64 = 1570796;

/// The half-wave approximation on `[0, pi]`, scaled to millionths.
pub open spec fn half_wave(x: int) -> int {
    let t = x * (PI_FX - x);
    (16 * t * SCALE) / (5 * (PI_FX as int) * (PI_FX as int) - 4 * t)
}

/// Fixed-point sine of an angle in `[0, tau)`.
pub open spec fn sin_fx(x: int) -> int {
    if x <= PI_FX {
        half_wave(x)
    } else {
        -half_wave(x - PI_FX)
    }
}

/// Fixed-point cosine of an angle in `[0, tau)`: sine a quarter turn on.
pub open spec fn cos_fx(x: int) -> int {
    if x + HALF_PI_FX < TAU_FX {
        sin_fx(x + HALF_PI_FX)
    } else {
        sin_fx(x + HALF_PI_FX - TAU_FX)
    }
}

/// The half-wave stays within `[0, 1]`.
proof fn lemma_half_wave_bounds(x: int)
    requires
        0 <= x <= PI_FX,
    ensures
        0 <= half_wave(x) <= SCALE,
{
    let p = PI_FX as int;
    let t = x * (p - x);
    let den = 5 * p * p - 4 * t;
    assert(t >= 0) by (nonlinear_arith)
        requires
            0 <= x <= p,
            t == x * (p - x),
    ;
    assert(4 * t <= p * p) by (nonlinear_arith)
        requires
            t == x * (p - x),
    ;
    assert(den >= 4 * p * p) by (nonlinear_arith)
        requires
            den == 5 * p * p - 4 * t,
            4 * t <= p * p,
    ;
    assert(den > 0);
    lemma_div_pos_is_pos(16 * t * SCALE, den);
    assert(16 * t * SCALE <= SCALE * den) by (nonlinear_arith)
        requires
            den == 5 * p * p - 4 * t,
            4 * t <= p * p,
            t >= 0,
            SCALE == 1000000,
    ;
    lemma_div_is_ordered(16 * t * SCALE, SCALE * den, den);
    lemma_div_by_multiple(SCALE as int, den);
    assert((SCALE * den) / den == SCALE);
}

/// The exact half-wave value, computed in wide unsigned arithmetic.
fn half_wave_exec(x: i64) -> (r: i64)
    requires
        0 <= x <= PI_FX,
    ensures
        r == half_wave(x as int),
        0 <= r <= SCALE,
{
    proof {
        lemma_half_wave_bounds(x as int);
        assert(0 <= (x as int) * (PI_FX - x) <= 3141593 * 3141593) by (nonlinear_arith)
            requires
                0 <= x <= 3141593,
        ;
    }
    let t: u64 = (x as u64) * ((PI_FX - x) as u64);
    let num: u128 = 16 * (t as u128) * (SCALE as u128);
    let den: u128 = (5 * (PI_FX as u64) * (PI_FX as u64) - 4 * t) as u128;
    let q = num / den;
    q as i64
}

/// Fixed-point sine: the exact value of `sin_fx`, within one unit.
pub fn sine(x: i64) -> (r: i64)
    requires
        0 <= x < TAU_FX,
    ensures
        r == sin_fx(x as int),
        -SCALE <= r <= SCALE,
{
    if x <= PI_FX {
        half_wave_exec(x)
    } else {
        let v = half_wave_exec(x - PI_FX);
        -v
    }
}

/// Fixed-point cosine: the exact value of `cos_fx`, within one unit.
pub fn cosine(x: i64) -> (r: i64)
    requires
        0 <= x < TAU_FX,
    ensures
        r == cos_fx(x as int),
        -SCALE <= r <= SCALE,
{
    let y = if x + HALF_PI_FX < TAU_FX {
        x + HALF_PI_FX
    } else {
        x + HALF_PI_FX - TAU_FX
    };
    sine(y)
}

} // verus!
