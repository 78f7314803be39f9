//! Real numbers carried as IEEE-754 binary64 bit patterns.
//!
//! Every real quantity of the library (coordinates, weights, distances, radii,
//! births and deaths) is held as the `u64` bit pattern of a binary64 value.
//! The library only ever *compares* such values, so the model here is the IEEE
//! ordering: NaN is unordered, `-0.0` and `+0.0` are equal, and every other
//! value is ordered by its magnitude and sign.
use vstd::prelude::*;

verus! {

/// The sign bit of a binary64 pattern.
pub const SIGN_BIT: u64 = 0x8000_0000_0000_0000;

/// The exponent field of a binary64 pattern.
pub const EXP_MASK: u64 = 0x7FF0_0000_0000_0000;

/// The significand field of a binary64 pattern.
pub const MANT_MASK: u64 = 0x000F_FFFF_FFFF_FFFF;

/// `+0.0`.
pub const ZERO: u64 = 0;

/// `1.0`.
pub const ONE: u64 = 0x3FF0_0000_0000_0000;

/// `+∞`.
pub const INFINITY: u64 = 0x7FF0_0000_0000_0000;

/// Whether the pattern encodes a NaN.
pub open spec fn is_nan(x: u64) -> bool {
    x & EXP_MASK == EXP_MASK && x & MANT_MASK != 0
}

/// Whether the pattern encodes a finite value (neither an infinity nor a NaN).
pub open spec fn is_finite(x: u64) -> bool {
    x & EXP_MASK != EXP_MASK
}

/// Position of a non-NaN value in the IEEE order, as an unsigned integer:
/// `float_le(a, b)` holds exactly when `rank(a) <= rank(b)` (both zeros share one rank).
pub open spec fn rank(x: u64) -> u64 {
    if x & !SIGN_BIT == 0 {
        SIGN_BIT
    } else if x & SIGN_BIT != 0 {
        !x
    } else {
        x | SIGN_BIT
    }
}

/// `a <= b` as IEEE-754 defines it.
pub open spec fn float_le(a: u64, b: u64) -> bool {
    !is_nan(a) && !is_nan(b) && rank(a) <= rank(b)
}

/// `a < b` as IEEE-754 defines it.
pub open spec fn float_lt(a: u64, b: u64) -> bool {
    !is_nan(a) && !is_nan(b) && rank(a) < rank(b)
}

/// `a == b` as IEEE-754 defines it (NaN equals nothing, the two zeros are equal).
pub open spec fn float_eq(a: u64, b: u64) -> bool {
    !is_nan(a) && !is_nan(b) && rank(a) == rank(b)
}

/// `f64::max`: a NaN argument is ignored; on a tie the first argument is kept.
pub open spec fn float_max(a: u64, b: u64) -> u64 {
    if is_nan(a) {
        b
    } else if is_nan(b) {
        a
    } else if rank(a) < rank(b) {
        b
    } else {
        a
    }
}

/// `f64::min`: a NaN argument is ignored; on a tie the first argument is kept.
pub open spec fn float_min(a: u64, b: u64) -> u64 {
    if is_nan(a) {
        b
    } else if is_nan(b) {
        a
    } else if rank(b) < rank(a) {
        b
    } else {
        a
    }
}

/// No value of the sequence is a NaN.
pub open spec fn no_nan(s: Seq<u64>) -> bool {
    forall|i: int| 0 <= i < s.len() ==> !is_nan(#[trigger] s[i])
}

/// Exec form of [`is_nan`].
pub fn nan(x: u64) -> (r: bool)
    ensures
        r == is_nan(x),
{
    x & EXP_MASK == EXP_MASK && x & MANT_MASK != 0
}

/// `f64::is_finite`.
pub fn finite(x: u64) -> (r: bool)
    ensures
        r == is_finite(x),
{
    x & EXP_MASK != EXP_MASK
}

/// Exec form of [`rank`].
pub fn order_rank(x: u64) -> (r: u64)
    ensures
        r == rank(x),
{
    if x & !SIGN_BIT == 0 {
        SIGN_BIT
    } else if x & SIGN_BIT != 0 {
        !x
    } else {
        x | SIGN_BIT
    }
}

/// `a <= b`.
pub fn le(a: u64, b: u64) -> (r: bool)
    ensures
        r == float_le(a, b),
{
    !nan(a) && !nan(b) && order_rank(a) <= order_rank(b)
}

/// `a < b`.
pub fn lt(a: u64, b: u64) -> (r: bool)
    ensures
        r == float_lt(a, b),
{
    !nan(a) && !nan(b) && order_rank(a) < order_rank(b)
}

/// `a == b`.
pub fn eq(a: u64, b: u64) -> (r: bool)
    ensures
        r == float_eq(a, b),
{
    !nan(a) && !nan(b) && order_rank(a) == order_rank(b)
}

/// `f64::max(a, b)`.
pub fn max(a: u64, b: u64) -> (r: u64)
    ensures
        r == float_max(a, b),
{
    if nan(a) {
        b
    } else if nan(b) {
        a
    } else if order_rank(a) < order_rank(b) {
        b
    } else {
        a
    }
}

/// `f64::min(a, b)`.
pub fn min(a: u64, b: u64) -> (r: u64)
    ensures
        r == float_min(a, b),
{
    if nan(a) {
        b
    } else if nan(b) {
        a
    } else if order_rank(b) < order_rank(a) {
        b
    } else {
        a
    }
}

/// Zero, one and infinity are numbers, and they are ordered as the reals are.
pub proof fn lemma_constants()
    ensures
        !is_nan(ZERO),
        !is_nan(ONE),
        !is_nan(INFINITY),
        rank(ZERO) < rank(ONE) < rank(INFINITY),
{
    assert(!is_nan(ZERO) && !is_nan(ONE) && !is_nan(INFINITY)) by (bit_vector);
    assert(rank(ZERO) < rank(ONE) < rank(INFINITY)) by (bit_vector);
}

/// Nothing lies above `+∞`: every number is at most infinity.
pub proof fn lemma_infinity_is_top(x: u64)
    requires
        !is_nan(x),
    ensures
        float_le(x, INFINITY),
{
    lemma_constants();
    assert(!(x & EXP_MASK == EXP_MASK && x & MANT_MASK != 0) ==> rank(x) <= rank(INFINITY))
        by (bit_vector);
}

} // verus!
