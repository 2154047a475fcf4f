//! The stereo sample value.
//!
//! A `Sample` is an immutable pair of channels, each holding the IEEE-754
//! binary64 bit pattern of one scalar. Every operation applies the
//! corresponding scalar operation of the kernel in `fp` independently per
//! channel; a scalar operand broadcasts to both channels. Equality is
//! per-channel bit-pattern equality.

use vstd::prelude::*;

use crate::fp::{
    abs64, add64, add_bits, ceil64, ceil_bits, copysign64, cos64, cos_bits, div64, div_bits,
    exp64, exp_bits, floor64, floor_bits, fma64, fma_bits, ln64, ln_bits, max64, max_bits, min64,
    min_bits, mul64, mul_bits, neg64, pow64, pow_bits, powi64, powi_bits, round64, round_bits,
    sin64, sin_bits, sqrt64, sqrt_bits, sub64, sub_bits, NAN_BITS, ONE_BITS, SIGN_MASK,
};

verus! {

/// A stereo sample: the bit patterns of the left and right channel.
#[derive(Clone, Copy, PartialEq, Eq, Structural, Debug)]
pub struct Sample {
    pub l: u64,
    pub r: u64,
}

impl Sample {
    /// Creates a sample with one (mono) channel, broadcast to both.
    pub fn mono(val: u64) -> (s: Sample)
        ensures
            s == (Sample { l: val, r: val }),
    {
        Sample { l: val, r: val }
    }

    /// Creates a sample with two (stereo) channels.
    pub fn stereo(l: u64, r: u64) -> (s: Sample)
        ensures
            s == (Sample { l, r }),
    {
        Sample { l, r }
    }

    /// The zero sample, both channels positive zero.
    pub fn zero() -> (s: Sample)
        ensures
            s == (Sample { l: 0u64, r: 0u64 }),
    {
        Sample { l: 0, r: 0 }
    }

    /// Returns the value of the left channel.
    pub fn l(&self) -> (v: u64)
        ensures
            v == self.l,
    {
        self.l
    }

    /// Returns the value of the right channel.
    pub fn r(&self) -> (v: u64)
        ensures
            v == self.r,
    {
        self.r
    }

    /// Returns a mutable reference to the left channel.
    pub fn l_mut(&mut self) -> (ret: &mut u64)
        ensures
            *ret == old(self).l,
            final(self).l == *final(ret),
            final(self).r == old(self).r,
    {
        &mut self.l
    }

    /// Returns a mutable reference to the right channel.
    pub fn r_mut(&mut self) -> (ret: &mut u64)
        ensures
            *ret == old(self).r,
            final(self).r == *final(ret),
            final(self).l == old(self).l,
    {
        &mut self.r
    }

    /// Elementwise sum.
    pub fn add(self, rhs: Sample) -> (s: Sample)
        ensures
            s == (Sample { l: add64(self.l, rhs.l), r: add64(self.r, rhs.r) }),
    {
        Sample { l: add_bits(self.l, rhs.l), r: add_bits(self.r, rhs.r) }
    }

    /// Elementwise difference.
    pub fn sub(self, rhs: Sample) -> (s: Sample)
        ensures
            s == (Sample { l: sub64(self.l, rhs.l), r: sub64(self.r, rhs.r) }),
    {
        Sample { l: sub_bits(self.l, rhs.l), r: sub_bits(self.r, rhs.r) }
    }

    /// Elementwise product.
    pub fn mul(self, rhs: Sample) -> (s: Sample)
        ensures
            s == (Sample { l: mul64(self.l, rhs.l), r: mul64(self.r, rhs.r) }),
    {
        Sample { l: mul_bits(self.l, rhs.l), r: mul_bits(self.r, rhs.r) }
    }

    /// Elementwise quotient.
    pub fn div(self, rhs: Sample) -> (s: Sample)
        ensures
            s == (Sample { l: div64(self.l, rhs.l), r: div64(self.r, rhs.r) }),
    {
        Sample { l: div_bits(self.l, rhs.l), r: div_bits(self.r, rhs.r) }
    }

    /// Elementwise negation: flips each channel's sign bit.
    pub fn neg(self) -> (s: Sample)
        ensures
            s == (Sample { l: neg64(self.l), r: neg64(self.r) }),
    {
        Sample { l: self.l ^ SIGN_MASK, r: self.r ^ SIGN_MASK }
    }

    /// Elementwise absolute value: clears each channel's sign bit.
    pub fn abs(self) -> (s: Sample)
        ensures
            s == (Sample { l: abs64(self.l), r: abs64(self.r) }),
    {
        Sample { l: self.l & !SIGN_MASK, r: self.r & !SIGN_MASK }
    }

    /// Elementwise copysign: keeps the magnitudes of `self` and takes the
    /// sign bits of `rhs`.
    pub fn copysign(self, rhs: Sample) -> (s: Sample)
        ensures
            s == (Sample { l: copysign64(self.l, rhs.l), r: copysign64(self.r, rhs.r) }),
    {
        Sample {
            l: (self.l & !SIGN_MASK) | (rhs.l & SIGN_MASK),
            r: (self.r & !SIGN_MASK) | (rhs.r & SIGN_MASK),
        }
    }

    /// Elementwise reciprocal: one divided by each channel.
    pub fn recip(self) -> (s: Sample)
        ensures
            s == (Sample { l: div64(ONE_BITS, self.l), r: div64(ONE_BITS, self.r) }),
    {
        Sample { l: div_bits(ONE_BITS, self.l), r: div_bits(ONE_BITS, self.r) }
    }

    /// Elementwise sine.
    pub fn sin(self) -> (s: Sample)
        ensures
            s == (Sample { l: sin64(self.l), r: sin64(self.r) }),
    {
        Sample { l: sin_bits(self.l), r: sin_bits(self.r) }
    }

    /// Elementwise cosine.
    pub fn cos(self) -> (s: Sample)
        ensures
            s == (Sample { l: cos64(self.l), r: cos64(self.r) }),
    {
        Sample { l: cos_bits(self.l), r: cos_bits(self.r) }
    }

    /// Elementwise floor.
    pub fn floor(self) -> (s: Sample)
        ensures
            s == (Sample { l: floor64(self.l), r: floor64(self.r) }),
    {
        Sample { l: floor_bits(self.l), r: floor_bits(self.r) }
    }

    /// Elementwise ceiling.
    pub fn ceil(self) -> (s: Sample)
        ensures
            s == (Sample { l: ceil64(self.l), r: ceil64(self.r) }),
    {
        Sample { l: ceil_bits(self.l), r: ceil_bits(self.r) }
    }

    /// Elementwise rounding to the nearest integer, ties away from zero.
    pub fn round(self) -> (s: Sample)
        ensures
            s == (Sample { l: round64(self.l), r: round64(self.r) }),
    {
        Sample { l: round_bits(self.l), r: round_bits(self.r) }
    }

    /// Elementwise square root.
    pub fn sqrt(self) -> (s: Sample)
        ensures
            s == (Sample { l: sqrt64(self.l), r: sqrt64(self.r) }),
    {
        Sample { l: sqrt_bits(self.l), r: sqrt_bits(self.r) }
    }

    /// Elementwise exponential.
    pub fn exp(self) -> (s: Sample)
        ensures
            s == (Sample { l: exp64(self.l), r: exp64(self.r) }),
    {
        Sample { l: exp_bits(self.l), r: exp_bits(self.r) }
    }

    /// Elementwise natural logarithm.
    pub fn ln(self) -> (s: Sample)
        ensures
            s == (Sample { l: ln64(self.l), r: ln64(self.r) }),
    {
        Sample { l: ln_bits(self.l), r: ln_bits(self.r) }
    }

    /// Elementwise power with a 32-bit signed integer exponent.
    pub fn powi(self, n: i32) -> (s: Sample)
        ensures
            s == (Sample { l: powi64(self.l, n), r: powi64(self.r, n) }),
    {
        Sample { l: powi_bits(self.l, n), r: powi_bits(self.r, n) }
    }

    /// Elementwise power with a broadcast scalar exponent.
    pub fn powf(self, n: u64) -> (s: Sample)
        ensures
            s == (Sample { l: pow64(self.l, n), r: pow64(self.r, n) }),
    {
        Sample { l: pow_bits(self.l, n), r: pow_bits(self.r, n) }
    }

    /// Elementwise clamp between two broadcast scalar bounds: the maximum
    /// with the lower bound, then the minimum with the upper bound.
    pub fn clamp(self, min: u64, max: u64) -> (s: Sample)
        ensures
            s == (Sample { l: min64(max64(self.l, min), max), r: min64(max64(self.r, min), max) }),
    {
        Sample {
            l: min_bits(max_bits(self.l, min), max),
            r: min_bits(max_bits(self.r, min), max),
        }
    }

    /// Elementwise fused multiply-add with broadcast scalar factor and
    /// addend, rounded once.
    pub fn mul_add(self, a: u64, b: u64) -> (s: Sample)
        ensures
            s == (Sample { l: fma64(self.l, a, b), r: fma64(self.r, a, b) }),
    {
        Sample { l: fma_bits(self.l, a, b), r: fma_bits(self.r, a, b) }
    }

    /// Elementwise minimum, ignoring a quiet NaN operand.
    pub fn min(self, rhs: Sample) -> (s: Sample)
        ensures
            s == (Sample { l: min64(self.l, rhs.l), r: min64(self.r, rhs.r) }),
    {
        Sample { l: min_bits(self.l, rhs.l), r: min_bits(self.r, rhs.r) }
    }

    /// Elementwise maximum, ignoring a quiet NaN operand.
    pub fn max(self, rhs: Sample) -> (s: Sample)
        ensures
            s == (Sample { l: max64(self.l, rhs.l), r: max64(self.r, rhs.r) }),
    {
        Sample { l: max_bits(self.l, rhs.l), r: max_bits(self.r, rhs.r) }
    }

    /// Elementwise sine and cosine, as a pair of samples.
    pub fn sin_cos(self) -> (sc: (Sample, Sample))
        ensures
            sc.0 == (Sample { l: sin64(self.l), r: sin64(self.r) }),
            sc.1 == (Sample { l: cos64(self.l), r: cos64(self.r) }),
    {
        (
            Sample { l: sin_bits(self.l), r: sin_bits(self.r) },
            Sample { l: cos_bits(self.l), r: cos_bits(self.r) },
        )
    }
}

impl Default for Sample {
    /// The uninitialized sample: a quiet NaN on both channels.
    fn default() -> (s: Sample)
        ensures
            s == (Sample { l: NAN_BITS, r: NAN_BITS }),
    {
        Sample { l: NAN_BITS, r: NAN_BITS }
    }
}

} // verus!
