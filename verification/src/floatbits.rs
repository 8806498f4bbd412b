//! Arithmetic on single-precision values carried as raw IEEE-754 bit
//! patterns. The two arithmetic operations the interval engine needs (sum and
//! difference) go through `rustc_apfloat`, a software implementation of
//! IEEE-754 binary32 with round-to-nearest-even, the same rounding the
//! hardware operations use. Zero tests, absolute value and the
//! epsilon comparison are pure bit manipulation and are implemented here.

use rustc_apfloat::Float;
use vstd::prelude::*;

verus! {

/// The bit pattern of the IEEE-754 single-precision sum of the two values
/// whose bit patterns are given. The sum depends on the operand bits alone.
pub uninterp spec fn add_f32_bits(a: u32, b: u32) -> u32;

/// The bit pattern of the IEEE-754 single-precision difference `a - b` of the
/// two values whose bit patterns are given.
pub uninterp spec fn sub_f32_bits(a: u32, b: u32) -> u32;

/// Relies on `rustc_apfloat::ieee::Single::add_r` (IEEE-754 single-precision
/// addition, round to nearest, ties to even): the sum's bits depend on the
/// operand bits alone.
#[verifier::external_body]
pub(crate) fn add_values(a: u32, b: u32) -> (r: u32)
    ensures
        r == add_f32_bits(a, b),
{
    let x = rustc_apfloat::ieee::Single::from_bits(a as u128);
    let y = rustc_apfloat::ieee::Single::from_bits(b as u128);
    rustc_apfloat::Float::add_r(x, y, rustc_apfloat::Round::NearestTiesToEven).value.to_bits()
        as u32
}

/// Relies on `rustc_apfloat::ieee::Single::sub_r` (IEEE-754 single-precision
/// subtraction, round to nearest, ties to even): the difference's bits depend
/// on the operand bits alone.
#[verifier::external_body]
pub(crate) fn sub_values(a: u32, b: u32) -> (r: u32)
    ensures
        r == sub_f32_bits(a, b),
{
    let x = rustc_apfloat::ieee::Single::from_bits(a as u128);
    let y = rustc_apfloat::ieee::Single::from_bits(b as u128);
    rustc_apfloat::Float::sub_r(x, y, rustc_apfloat::Round::NearestTiesToEven).value.to_bits()
        as u32
}

/// A single-precision value compares equal to `0.0` exactly when its bit
/// pattern is one of the two encodings of zero.
pub open spec fn is_zero_f32_bits(v: u32) -> bool {
    v == 0u32 || v == 0x8000_0000u32
}

/// Whether the value with bit pattern `v` compares equal to `0.0`.
pub fn is_zero_value(v: u32) -> (r: bool)
    ensures
        r == is_zero_f32_bits(v),
{
    v == 0u32 || v == 0x8000_0000u32
}

/// Whether `|a - b| < EPSILON` holds of the single-precision values with bit
/// patterns `a` and `b`, where EPSILON is 2^-23 (bit pattern `0x3400_0000`).
///
/// Clearing the sign bit of a single-precision pattern gives the pattern of
/// its absolute value, and on the patterns that remain (non-negative values,
/// infinity, NaN) the `<` order against a positive constant agrees with the
/// unsigned order of the patterns: a NaN pattern exceeds `0x7F80_0000` and so
/// compares not-less, exactly as the IEEE comparison does.
pub open spec fn near_f32_bits(a: u32, b: u32) -> bool {
    (sub_f32_bits(a, b) & 0x7FFF_FFFFu32) < 0x3400_0000u32
}

/// Whether the two values lie within EPSILON of each other.
pub fn values_near(a: u32, b: u32) -> (r: bool)
    ensures
        r == near_f32_bits(a, b),
{
    let d = sub_values(a, b);
    (d & 0x7FFF_FFFF) < 0x3400_0000
}

} // verus!
