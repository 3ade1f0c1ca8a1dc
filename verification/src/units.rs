//! Lengths and the integer arithmetic every pass shares.
//!
//! A length is a whole number of logical pixels. Inputs are accepted up to
//! [`MAX_LENGTH`]; the bound keeps every intermediate sum inside `i64`.

use vstd::prelude::*;

verus! {

/// Largest length an input may carry.
pub const MAX_LENGTH: i64 = 1_073_741_824;

/// Largest number of children one container may lay out.
pub const MAX_ITEMS: usize = 65_536;

/// The value of `Percent` that stands for the whole of the base.
pub const PERCENT_WHOLE: i64 = 10_000;

/// A pair of lengths: a size (`x` wide, `y` high) or a position.
#[derive(Clone, Copy, Debug, PartialEq, Eq, Structural)]
pub struct Vec2i {
    pub x: i64,
    pub y: i64,
}

impl Vec2i {
    pub fn new(x: i64, y: i64) -> (v: Self)
        ensures
            v.x == x,
            v.y == y,
    {
        Vec2i { x, y }
    }

    pub fn zero() -> (v: Self)
        ensures
            v.x == 0,
            v.y == 0,
    {
        Vec2i { x: 0, y: 0 }
    }
}

pub open spec fn max_of(a: int, b: int) -> int {
    if a >= b {
        a
    } else {
        b
    }
}

pub open spec fn min_of(a: int, b: int) -> int {
    if a <= b {
        a
    } else {
        b
    }
}

/// `v` brought into `[lo, hi]`.
pub open spec fn clamped(v: int, lo: int, hi: int) -> int {
    if v < lo {
        lo
    } else if v > hi {
        hi
    } else {
        v
    }
}

/// A length that an input may carry.
pub open spec fn is_length(v: int) -> bool {
    0 <= v <= MAX_LENGTH
}

/// The share `p / PERCENT_WHOLE` of `base`, rounded down.
pub open spec fn percent_of(p: int, base: int) -> int {
    p * base / (PERCENT_WHOLE as int)
}

/// Whether `v` is a length that an input may carry.
pub fn length_ok(v: i64) -> (ok: bool)
    ensures
        ok == is_length(v as int),
{
    0 <= v && v <= MAX_LENGTH
}

pub fn max_i64(a: i64, b: i64) -> (r: i64)
    ensures
        r == max_of(a as int, b as int),
{
    if a >= b {
        a
    } else {
        b
    }
}

pub fn min_i64(a: i64, b: i64) -> (r: i64)
    ensures
        r == min_of(a as int, b as int),
{
    if a <= b {
        a
    } else {
        b
    }
}

pub fn clamp_i64(v: i64, lo: i64, hi: i64) -> (r: i64)
    ensures
        r == clamped(v as int, lo as int, hi as int),
{
    if v < lo {
        lo
    } else if v > hi {
        hi
    } else {
        v
    }
}

/// `a / b` rounded towards negative infinity, for a positive divisor.
pub fn div_floor(a: i64, b: i64) -> (r: i64)
    requires
        b > 0,
    ensures
        r == a as int / b as int,
{
    if a >= 0 {
        a / b
    } else {
        let n: i64 = -(a + 1);
        let q: i64 = n / b;
        proof {
            let rem = n as int % b as int;
            vstd::arithmetic::div_mod::lemma_fundamental_div_mod(n as int, b as int);
            assert((b as int) * (-(q as int) - 1) == -((b as int) * (q as int)) - b as int)
                by (nonlinear_arith);
            vstd::arithmetic::div_mod::lemma_fundamental_div_mod_converse(
                a as int,
                b as int,
                -(q as int) - 1,
                b as int - 1 - rem,
            );
        }
        -q - 1
    }
}

/// Half of `x`, rounded towards negative infinity.
pub fn half(x: i64) -> (r: i64)
    ensures
        r == x as int / 2,
{
    div_floor(x, 2)
}

} // verus!
