//! IEEE 754 single-precision scalars, handled as their raw 32-bit patterns.
//!
//! The index never needs to look inside a coordinate except to
//! (1) combine two scalars arithmetically, which is delegated to the
//! `rustc_apfloat` software implementation of IEEE 754 behind trusted
//! wrappers, and (2) decide the sign of a scalar, which is a pure bit
//! test written and verified here.

use vstd::prelude::*;

verus! {

/// The sum, under IEEE 754 single-precision arithmetic (round to nearest,
/// ties to even), of the values with bit patterns `a` and `b`, as a bit
/// pattern. A pure function of the two bit patterns.
pub uninterp spec fn add_bits(a: u32, b: u32) -> u32;

/// The difference `a - b` under IEEE 754 single-precision arithmetic,
/// over bit patterns, as `add_bits` is.
pub uninterp spec fn sub_bits(a: u32, b: u32) -> u32;

/// The product under IEEE 754 single-precision arithmetic, over bit
/// patterns, as `add_bits` is.
pub uninterp spec fn mul_bits(a: u32, b: u32) -> u32;

/// The quotient `a / b` under IEEE 754 single-precision arithmetic, over
/// bit patterns, as `add_bits` is.
pub uninterp spec fn div_bits(a: u32, b: u32) -> u32;

/// Relies on `rustc_apfloat::ieee::Single::add_r` (through the `+`
/// operator, which rounds to nearest, ties to even): IEEE single-precision
/// addition, a deterministic function of the two operand bit patterns.
#[verifier::external_body]
pub(crate) fn single_add(a: u32, b: u32) -> (r: u32)
    ensures
        r == add_bits(a, b),
{
    let x: rustc_apfloat::ieee::Single = rustc_apfloat::Float::from_bits(a as u128);
    let y: rustc_apfloat::ieee::Single = rustc_apfloat::Float::from_bits(b as u128);
    rustc_apfloat::Float::to_bits((x + y).value) as u32
}

/// Relies on `rustc_apfloat::ieee::Single::sub_r` (through the `-`
/// operator): IEEE single-precision subtraction, a deterministic function
/// of the two operand bit patterns.
#[verifier::external_body]
pub(crate) fn single_sub(a: u32, b: u32) -> (r: u32)
    ensures
        r == sub_bits(a, b),
{
    let x: rustc_apfloat::ieee::Single = rustc_apfloat::Float::from_bits(a as u128);
    let y: rustc_apfloat::ieee::Single = rustc_apfloat::Float::from_bits(b as u128);
    rustc_apfloat::Float::to_bits((x - y).value) as u32
}

/// Relies on `rustc_apfloat::ieee::Single::mul_r` (through the `*`
/// operator): IEEE single-precision multiplication, a deterministic
/// function of the two operand bit patterns.
#[verifier::external_body]
pub(crate) fn single_mul(a: u32, b: u32) -> (r: u32)
    ensures
        r == mul_bits(a, b),
{
    let x: rustc_apfloat::ieee::Single = rustc_apfloat::Float::from_bits(a as u128);
    let y: rustc_apfloat::ieee::Single = rustc_apfloat::Float::from_bits(b as u128);
    rustc_apfloat::Float::to_bits((x * y).value) as u32
}

/// Relies on `rustc_apfloat::ieee::Single::div_r` (through the `/`
/// operator): IEEE single-precision division, a deterministic function of
/// the two operand bit patterns.
#[verifier::external_body]
pub(crate) fn single_div(a: u32, b: u32) -> (r: u32)
    ensures
        r == div_bits(a, b),
{
    let x: rustc_apfloat::ieee::Single = rustc_apfloat::Float::from_bits(a as u128);
    let y: rustc_apfloat::ieee::Single = rustc_apfloat::Float::from_bits(b as u128);
    rustc_apfloat::Float::to_bits((x / y).value) as u32
}

/// IEEE single-precision negation flips exactly the sign bit, for every
/// operand including NaN; no rounding is involved.
pub open spec fn neg_bits(a: u32) -> u32 {
    a ^ 0x8000_0000
}

pub(crate) fn single_neg(a: u32) -> (r: u32)
    ensures
        r == neg_bits(a),
{
    a ^ 0x8000_0000
}

/// Whether the bit pattern denotes a NaN: exponent field all ones and a
/// non-zero significand field.
pub open spec fn is_nan_bits(a: u32) -> bool {
    (a >> 23) & 0xff == 0xff && a & 0x7f_ffff != 0
}

/// Whether the IEEE single-precision value with bit pattern `a` compares
/// greater than or equal to zero. In the sign-magnitude encoding this
/// holds exactly for a zero of either sign and for every other value
/// whose sign bit is clear and which is not a NaN (a NaN comparison is
/// always false).
pub open spec fn ge_zero_bits(a: u32) -> bool {
    a & 0x7fff_ffff == 0 || ((a >> 31) == 0 && !is_nan_bits(a))
}

pub(crate) fn single_ge_zero(a: u32) -> (r: bool)
    ensures
        r == ge_zero_bits(a),
{
    a & 0x7fff_ffff == 0 || ((a >> 31) == 0 && !((a >> 23) & 0xff == 0xff && a & 0x7f_ffff != 0))
}

} // verus!
