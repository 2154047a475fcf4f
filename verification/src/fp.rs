//! Scalar kernel: double-precision operations on IEEE-754 binary64 bit
//! patterns.
//!
//! Every scalar a sample channel can hold is carried through the library as
//! the 64-bit word that encodes it. The arithmetic itself is performed by
//! `libm`, reached through small trusted wrappers; each wrapper's result is
//! pinned to an uninterpreted name, so that everything built on top of the
//! kernel is a function of the operand bit patterns alone. `bytemuck::cast`
//! moves between a 64-bit word and the double it encodes, and
//! `libm::copysign(x, x)` returns `x` unchanged, serving only to give an
//! operand its type where an arithmetic operator is wrapped.
//!
//! Negation, absolute value and copysign act on the sign bit alone, so they
//! are written out and fully verified here rather than trusted.
//!
//! Naming a result claims it is a function of the operand bit patterns
//! alone. That is exact for every numeric result these operations produce;
//! the one caveat is the payload of freshly produced NaNs, which the
//! platform may choose — on any one target the operations are fixed
//! functions, which is what the engine's determinism and round-trip
//! guarantees rest on.

use vstd::prelude::*;

verus! {

/// Bit pattern of the quiet NaN that uninitialized channels hold.
pub const NAN_BITS: u64 = 0x7FF8000000000000;

/// Bit pattern of 1.0.
pub const ONE_BITS: u64 = 0x3FF0000000000000;

/// Bit pattern of -1.0.
pub const NEG_ONE_BITS: u64 = 0xBFF0000000000000;

/// Bit pattern of the full circle constant (2π).
pub const TAU_BITS: u64 = 0x401921FB54442D18;

/// Bit pattern of 2^32, the weight of the upper half of a 64-bit integer.
pub const POW32_BITS: u64 = 0x41F0000000000000;

/// Mask of the sign bit.
pub const SIGN_MASK: u64 = 0x8000000000000000;

/// Names the double-precision sum of two bit patterns.
pub uninterp spec fn add64(a: u64, b: u64) -> u64;

/// Names the double-precision difference of two bit patterns.
pub uninterp spec fn sub64(a: u64, b: u64) -> u64;

/// Names the double-precision product of two bit patterns.
pub uninterp spec fn mul64(a: u64, b: u64) -> u64;

/// Names the double-precision quotient of two bit patterns.
pub uninterp spec fn div64(a: u64, b: u64) -> u64;

/// Names the double-precision sine of a bit pattern.
pub uninterp spec fn sin64(a: u64) -> u64;

/// Names the double-precision cosine of a bit pattern.
pub uninterp spec fn cos64(a: u64) -> u64;

/// Names the double-precision floor of a bit pattern.
pub uninterp spec fn floor64(a: u64) -> u64;

/// Names the double-precision ceiling of a bit pattern.
pub uninterp spec fn ceil64(a: u64) -> u64;

/// Names the double-precision rounding to the nearest integer of a bit
/// pattern, ties away from zero.
pub uninterp spec fn round64(a: u64) -> u64;

/// Names the double-precision square root of a bit pattern.
pub uninterp spec fn sqrt64(a: u64) -> u64;

/// Names the double-precision exponential of a bit pattern.
pub uninterp spec fn exp64(a: u64) -> u64;

/// Names the double-precision natural logarithm of a bit pattern.
pub uninterp spec fn ln64(a: u64) -> u64;

/// Names the double-precision power of one bit pattern raised to another.
pub uninterp spec fn pow64(a: u64, b: u64) -> u64;

/// Names the double-precision power of a bit pattern raised to a 32-bit
/// signed integer exponent.
pub uninterp spec fn powi64(a: u64, n: i32) -> u64;

/// Names the fused multiply-add of three bit patterns, rounded once.
pub uninterp spec fn fma64(a: u64, b: u64, c: u64) -> u64;

/// Names the double-precision minimum of two bit patterns; a quiet NaN
/// operand is ignored in favour of the other operand.
pub uninterp spec fn min64(a: u64, b: u64) -> u64;

/// Names the double-precision maximum of two bit patterns; a quiet NaN
/// operand is ignored in favour of the other operand.
pub uninterp spec fn max64(a: u64, b: u64) -> u64;

/// Names the bit pattern of the double that exactly represents an unsigned
/// 32-bit integer.
pub uninterp spec fn dbl_of_u32(v: u32) -> u64;

/// The bit pattern of the double nearest to an unsigned 64-bit integer:
/// its upper half, weighed by 2^32 and fused with its lower half, rounds
/// exactly once.
pub open spec fn dbl_of_u64(v: u64) -> u64 {
    fma64(dbl_of_u32((v >> 32) as u32), POW32_BITS, dbl_of_u32(v as u32))
}

/// Negation of a double flips the sign bit and leaves the rest unchanged.
pub open spec fn neg64(a: u64) -> u64 {
    a ^ SIGN_MASK
}

/// The absolute value of a double clears the sign bit.
pub open spec fn abs64(a: u64) -> u64 {
    a & !SIGN_MASK
}

/// Copysign keeps the magnitude of the first operand and takes the sign bit
/// of the second.
pub open spec fn copysign64(a: u64, b: u64) -> u64 {
    (a & !SIGN_MASK) | (b & SIGN_MASK)
}

/// Relies on the double-precision add: the result depends on the operand
/// bit patterns alone.
#[verifier::external_body]
pub(crate) fn add_bits(a: u64, b: u64) -> (r: u64)
    ensures
        r == add64(a, b),
{
    let x = libm::copysign(bytemuck::cast(a), bytemuck::cast(a));
    let y = libm::copysign(bytemuck::cast(b), bytemuck::cast(b));
    bytemuck::cast(x + y)
}

/// Relies on the double-precision subtract: the result depends on the
/// operand bit patterns alone.
#[verifier::external_body]
pub(crate) fn sub_bits(a: u64, b: u64) -> (r: u64)
    ensures
        r == sub64(a, b),
{
    let x = libm::copysign(bytemuck::cast(a), bytemuck::cast(a));
    let y = libm::copysign(bytemuck::cast(b), bytemuck::cast(b));
    bytemuck::cast(x - y)
}

/// Relies on the double-precision multiply: the result depends on the
/// operand bit patterns alone.
#[verifier::external_body]
pub(crate) fn mul_bits(a: u64, b: u64) -> (r: u64)
    ensures
        r == mul64(a, b),
{
    let x = libm::copysign(bytemuck::cast(a), bytemuck::cast(a));
    let y = libm::copysign(bytemuck::cast(b), bytemuck::cast(b));
    bytemuck::cast(x * y)
}

/// Relies on the double-precision divide: the result depends on the operand
/// bit patterns alone. Division by zero follows IEEE-754 (an infinity or
/// NaN), so no operand is excluded.
#[verifier::external_body]
pub(crate) fn div_bits(a: u64, b: u64) -> (r: u64)
    ensures
        r == div64(a, b),
{
    let x = libm::copysign(bytemuck::cast(a), bytemuck::cast(a));
    let y = libm::copysign(bytemuck::cast(b), bytemuck::cast(b));
    bytemuck::cast(x / y)
}

/// Relies on `libm::sin`: the sine of the encoded double.
#[verifier::external_body]
pub(crate) fn sin_bits(a: u64) -> (r: u64)
    ensures
        r == sin64(a),
{
    bytemuck::cast(libm::sin(bytemuck::cast(a)))
}

/// Relies on `libm::cos`: the cosine of the encoded double.
#[verifier::external_body]
pub(crate) fn cos_bits(a: u64) -> (r: u64)
    ensures
        r == cos64(a),
{
    bytemuck::cast(libm::cos(bytemuck::cast(a)))
}

/// Relies on `libm::floor`: the largest integral double not above the
/// operand.
#[verifier::external_body]
pub(crate) fn floor_bits(a: u64) -> (r: u64)
    ensures
        r == floor64(a),
{
    bytemuck::cast(libm::floor(bytemuck::cast(a)))
}

/// Relies on `libm::ceil`: the smallest integral double not below the
/// operand.
#[verifier::external_body]
pub(crate) fn ceil_bits(a: u64) -> (r: u64)
    ensures
        r == ceil64(a),
{
    bytemuck::cast(libm::ceil(bytemuck::cast(a)))
}

/// Relies on `libm::round`: the nearest integral double, ties away from
/// zero.
#[verifier::external_body]
pub(crate) fn round_bits(a: u64) -> (r: u64)
    ensures
        r == round64(a),
{
    bytemuck::cast(libm::round(bytemuck::cast(a)))
}

/// Relies on `libm::sqrt`: the square root of the encoded double.
#[verifier::external_body]
pub(crate) fn sqrt_bits(a: u64) -> (r: u64)
    ensures
        r == sqrt64(a),
{
    bytemuck::cast(libm::sqrt(bytemuck::cast(a)))
}

/// Relies on `libm::exp`: the exponential of the encoded double.
#[verifier::external_body]
pub(crate) fn exp_bits(a: u64) -> (r: u64)
    ensures
        r == exp64(a),
{
    bytemuck::cast(libm::exp(bytemuck::cast(a)))
}

/// Relies on `libm::log`: the natural logarithm of the encoded double.
#[verifier::external_body]
pub(crate) fn ln_bits(a: u64) -> (r: u64)
    ensures
        r == ln64(a),
{
    bytemuck::cast(libm::log(bytemuck::cast(a)))
}

/// Relies on `libm::pow`: one double raised to another.
#[verifier::external_body]
pub(crate) fn pow_bits(a: u64, b: u64) -> (r: u64)
    ensures
        r == pow64(a, b),
{
    bytemuck::cast(libm::pow(bytemuck::cast(a), bytemuck::cast(b)))
}

/// Relies on `libm::pow` applied to an exactly converted 32-bit integer
/// exponent.
#[verifier::external_body]
pub(crate) fn powi_bits(a: u64, n: i32) -> (r: u64)
    ensures
        r == powi64(a, n),
{
    bytemuck::cast(libm::pow(bytemuck::cast(a), n.into()))
}

/// Relies on `libm::fma`: the fused multiply-add, rounded once.
#[verifier::external_body]
pub(crate) fn fma_bits(a: u64, b: u64, c: u64) -> (r: u64)
    ensures
        r == fma64(a, b, c),
{
    bytemuck::cast(libm::fma(bytemuck::cast(a), bytemuck::cast(b), bytemuck::cast(c)))
}

/// Relies on `libm::fmin`: the minimum, ignoring a quiet NaN operand.
#[verifier::external_body]
pub(crate) fn min_bits(a: u64, b: u64) -> (r: u64)
    ensures
        r == min64(a, b),
{
    bytemuck::cast(libm::fmin(bytemuck::cast(a), bytemuck::cast(b)))
}

/// Relies on `libm::fmax`: the maximum, ignoring a quiet NaN operand.
#[verifier::external_body]
pub(crate) fn max_bits(a: u64, b: u64) -> (r: u64)
    ensures
        r == max64(a, b),
{
    bytemuck::cast(libm::fmax(bytemuck::cast(a), bytemuck::cast(b)))
}

/// Relies on the exact conversion from `u32` to double precision;
/// `libm::copysign` with a positive zero sign operand returns a
/// non-negative integral double unchanged.
#[verifier::external_body]
pub(crate) fn u32_to_dbl_bits(v: u32) -> (r: u64)
    ensures
        r == dbl_of_u32(v),
{
    bytemuck::cast(libm::copysign(v.into(), bytemuck::cast(0u64)))
}

/// Converts an unsigned 64-bit integer to the bit pattern of the nearest
/// double: the two 32-bit halves convert exactly and a single fused
/// multiply-add performs the one rounding step.
pub fn u64_to_dbl_bits(v: u64) -> (r: u64)
    ensures
        r == dbl_of_u64(v),
{
    let hi = u32_to_dbl_bits((v >> 32) as u32);
    let lo = u32_to_dbl_bits(v as u32);
    fma_bits(hi, POW32_BITS, lo)
}

} // verus!
