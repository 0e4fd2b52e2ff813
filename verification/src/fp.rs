//! Real numbers carried as IEEE-754 double-precision bit patterns.
//!
//! Every weight, bias and fitness value in this crate is a `u64` holding the
//! bit pattern of an IEEE-754 binary64 number. Arithmetic on such values goes
//! through rustc_apfloat's software implementation of binary64, which computes
//! the exactly-rounded IEEE result from the bit patterns alone. The results of
//! these operations are named by uninterpreted spec functions: contracts state
//! how results are assembled from the named operations, never what a rounded
//! result is on given operands.

use rustc_apfloat::ieee::Double;
use rustc_apfloat::Float;
use rustc_apfloat::Round;
use vstd::prelude::*;

verus! {

/// The bit pattern of +0.0.
pub const R_ZERO: u64 = 0;

/// The bit pattern of 1.0.
pub const R_ONE: u64 = 0x3FF0_0000_0000_0000;

/// Names the IEEE-754 binary64 sum of two numbers given by bit pattern,
/// rounded to nearest-even.
pub uninterp spec fn add_bits(a: u64, b: u64) -> u64;

/// Names the IEEE-754 binary64 difference `a - b`, rounded to nearest-even.
pub uninterp spec fn sub_bits(a: u64, b: u64) -> u64;

/// Names the IEEE-754 binary64 product, rounded to nearest-even.
pub uninterp spec fn mul_bits(a: u64, b: u64) -> u64;

/// Names the IEEE-754 binary64 quotient `a / b`, rounded to nearest-even.
pub uninterp spec fn div_bits(a: u64, b: u64) -> u64;

/// The sign bit of a binary64 bit pattern.
pub const R_SIGN: u64 = 0x8000_0000_0000_0000;

/// Whether a bit pattern encodes an IEEE-754 binary64 NaN: an all-ones
/// exponent with a nonzero mantissa.
pub open spec fn spec_is_nan(b: u64) -> bool {
    (b >> 52) & 0x7FF == 0x7FF && (b & 0xF_FFFF_FFFF_FFFF) != 0
}

/// Whether a bit pattern encodes a zero of either sign.
pub open spec fn spec_is_zero(b: u64) -> bool {
    b & 0x7FFF_FFFF_FFFF_FFFF == 0
}

/// A total order on binary64 bit patterns that agrees with the IEEE-754
/// order wherever the latter decides: the sign-magnitude pattern folded
/// into two's complement, so that more-negative values get smaller keys.
pub open spec fn spec_float_key(b: u64) -> u64 {
    if b & R_SIGN != 0 {
        !b
    } else {
        b | R_SIGN
    }
}

/// The IEEE-754 `a < b` comparison, read off the bit patterns: false when
/// either operand is NaN or both are zeros, and otherwise the order of the
/// folded keys, under which the two encodings of each value class stand in
/// their numerical order.
pub open spec fn lt_bits(a: u64, b: u64) -> bool {
    &&& !spec_is_nan(a)
    &&& !spec_is_nan(b)
    &&& !(spec_is_zero(a) && spec_is_zero(b))
    &&& spec_float_key(a) < spec_float_key(b)
}

/// The IEEE-754 `a <= b` comparison, read off the bit patterns: false when
/// either operand is NaN; the two zeros compare equal.
pub open spec fn le_bits(a: u64, b: u64) -> bool {
    &&& !spec_is_nan(a)
    &&& !spec_is_nan(b)
    &&& ((spec_is_zero(a) && spec_is_zero(b)) || spec_float_key(a) <= spec_float_key(b))
}

/// Names rounding to the nearest integral value, ties away from zero
/// (the rounding of `f64::round`).
pub uninterp spec fn round_bits(a: u64) -> u64;

/// Names the value of a `usize` converted to binary64, rounded to
/// nearest-even (the conversion of `as f64` on this target).
pub uninterp spec fn bits_of_usize(n: usize) -> u64;

/// Names the saturating conversion of a binary64 value to `usize`: the
/// fractional part is discarded, negative values and NaN give 0, values
/// beyond the largest `usize` give the largest `usize` (the conversion of
/// `as usize` on this target).
pub uninterp spec fn usize_of_bits(a: u64) -> usize;

/// The absolute value of a binary64 bit pattern: the sign bit cleared.
pub open spec fn abs_bits(a: u64) -> u64 {
    a & 0x7FFF_FFFF_FFFF_FFFF
}

/// Relies on rustc_apfloat's `Double::add_r`: the exactly-rounded IEEE-754
/// binary64 sum of the two operands. The sum of two operands with clear
/// sign bits has a clear sign bit (an invalid operation yields the default
/// quiet NaN, whose sign is clear).
#[verifier::external_body]
pub(crate) fn r_add(a: u64, b: u64) -> (r: u64)
    ensures
        r == add_bits(a, b),
        a & R_SIGN == 0 && b & R_SIGN == 0 ==> r & R_SIGN == 0,
{
    let x = Double::from_bits(a as u128);
    let y = Double::from_bits(b as u128);
    x.add_r(y, Round::NearestTiesToEven).value.to_bits() as u64
}

/// Relies on rustc_apfloat's `Double::sub_r`: the exactly-rounded IEEE-754
/// binary64 difference of the two operands. On non-NaN operands the two
/// differences `a - b` and `b - a` are exact negations (both zero, both the
/// default quiet NaN, or sign-flipped patterns), so their absolute values
/// coincide.
#[verifier::external_body]
pub(crate) fn r_sub(a: u64, b: u64) -> (r: u64)
    ensures
        r == sub_bits(a, b),
        !spec_is_nan(a) && !spec_is_nan(b) ==> abs_bits(r) == abs_bits(sub_bits(b, a)),
{
    let x = Double::from_bits(a as u128);
    let y = Double::from_bits(b as u128);
    x.sub_r(y, Round::NearestTiesToEven).value.to_bits() as u64
}

/// Relies on rustc_apfloat's `Double::mul_r`: the exactly-rounded IEEE-754
/// binary64 product of the two operands. The product of two operands with
/// clear sign bits has a clear sign bit (zero times infinity yields the
/// default quiet NaN, whose sign is clear).
#[verifier::external_body]
pub(crate) fn r_mul(a: u64, b: u64) -> (r: u64)
    ensures
        r == mul_bits(a, b),
        a & R_SIGN == 0 && b & R_SIGN == 0 ==> r & R_SIGN == 0,
{
    let x = Double::from_bits(a as u128);
    let y = Double::from_bits(b as u128);
    x.mul_r(y, Round::NearestTiesToEven).value.to_bits() as u64
}

/// Relies on rustc_apfloat's `Double::div_r`: the exactly-rounded IEEE-754
/// binary64 quotient of the two operands. The quotient of two operands with
/// clear sign bits has a clear sign bit (division by zero yields positive
/// infinity, the invalid cases the default quiet NaN).
#[verifier::external_body]
pub(crate) fn r_div(a: u64, b: u64) -> (r: u64)
    ensures
        r == div_bits(a, b),
        a & R_SIGN == 0 && b & R_SIGN == 0 ==> r & R_SIGN == 0,
{
    let x = Double::from_bits(a as u128);
    let y = Double::from_bits(b as u128);
    x.div_r(y, Round::NearestTiesToEven).value.to_bits() as u64
}

/// The IEEE-754 `a < b` comparison, read off the bit patterns.
pub(crate) fn r_lt(a: u64, b: u64) -> (r: bool)
    ensures
        r == lt_bits(a, b),
{
    let a0 = a & 0x7FFF_FFFF_FFFF_FFFF == 0;
    let b0 = b & 0x7FFF_FFFF_FFFF_FFFF == 0;
    !r_is_nan(a) && !r_is_nan(b) && !(a0 && b0) && float_key(a) < float_key(b)
}

/// The IEEE-754 `a <= b` comparison, read off the bit patterns.
pub(crate) fn r_le(a: u64, b: u64) -> (r: bool)
    ensures
        r == le_bits(a, b),
{
    let a0 = a & 0x7FFF_FFFF_FFFF_FFFF == 0;
    let b0 = b & 0x7FFF_FFFF_FFFF_FFFF == 0;
    !r_is_nan(a) && !r_is_nan(b) && ((a0 && b0) || float_key(a) <= float_key(b))
}

/// Relies on rustc_apfloat's `Double::round_to_integral` with ties away from
/// zero: the rounding of `f64::round`.
#[verifier::external_body]
pub(crate) fn r_round(a: u64) -> (r: u64)
    ensures
        r == round_bits(a),
{
    let x = Double::from_bits(a as u128);
    x.round_to_integral(Round::NearestTiesToAway).value.to_bits() as u64
}

/// Relies on rustc_apfloat's `Double::from_u128`: a `usize` converted to the
/// nearest binary64 value, as the `as f64` cast does; the result of an
/// unsigned conversion has a clear sign bit.
#[verifier::external_body]
pub(crate) fn r_of_usize(n: usize) -> (r: u64)
    ensures
        r == bits_of_usize(n),
        r & R_SIGN == 0,
{
    Double::from_u128(n as u128).value.to_bits() as u64
}

/// Relies on rustc_apfloat's `Double::to_u128_r` toward zero: a binary64
/// value converted to `usize` with the saturating semantics of the
/// `as usize` cast (NaN and negative values give 0, large values saturate).
#[verifier::external_body]
pub(crate) fn r_to_usize(a: u64) -> (r: usize)
    ensures
        r == usize_of_bits(a),
{
    let x = Double::from_bits(a as u128);
    let mut exact = false;
    let wide = x.to_u128_r(usize::BITS as usize, Round::TowardZero, &mut exact).value;
    wide as usize
}

/// The absolute value of a binary64 value: clearing the sign bit, exactly
/// what `f64::abs` computes on every operand, NaN included.
pub fn r_abs(a: u64) -> (r: u64)
    ensures
        r == abs_bits(a),
{
    a & 0x7FFF_FFFF_FFFF_FFFF
}

/// Whether the bit pattern encodes a NaN, read off the exponent and
/// mantissa fields.
pub fn r_is_nan(b: u64) -> (r: bool)
    ensures
        r == spec_is_nan(b),
{
    (b >> 52) & 0x7FF == 0x7FF && (b & 0xF_FFFF_FFFF_FFFF) != 0
}

/// An absolute value has a clear sign bit.
pub proof fn lemma_abs_sign(x: u64)
    ensures
        abs_bits(x) & R_SIGN == 0,
{
    assert(x & 0x7FFF_FFFF_FFFF_FFFF & 0x8000_0000_0000_0000 == 0) by (bit_vector);
}

/// The order key of a binary64 bit pattern.
pub fn float_key(b: u64) -> (r: u64)
    ensures
        r == spec_float_key(b),
{
    if b & R_SIGN != 0 {
        !b
    } else {
        b | R_SIGN
    }
}

} // verus!
