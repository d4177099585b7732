//! Psychological quantities (confidence, salience, trust, affect, ...) are IEEE-754
//! binary32 numbers. The library holds each one by its bit pattern, so values
//! are stored, copied and compared exactly; the one arithmetic operation the
//! simulation needs, addition, is done by a software binary32 implementation.

use vstd::prelude::*;
use rustc_apfloat::ieee::Single;
use rustc_apfloat::Float;

verus! {

/// An IEEE-754 binary32 number, held by its 32-bit encoding.
#[derive(Debug, Clone, Copy, PartialEq, Eq, Structural)]
pub struct Binary32 {
    pub bits: u32,
}

/// The encoding of `0.0`.
pub open spec fn zero_bits() -> u32 {
    0
}

/// The encoding of `1.0`.
pub open spec fn one_bits() -> u32 {
    0x3F80_0000
}

/// The sign bit is set.
pub open spec fn sign_set(b: u32) -> bool {
    b >= 0x8000_0000
}

/// The encoding without its sign bit.
pub open spec fn magnitude(b: u32) -> int {
    if sign_set(b) {
        b - 0x8000_0000
    } else {
        b as int
    }
}

/// The encoding is a NaN (all exponent bits set, non-zero fraction).
pub open spec fn is_nan(b: u32) -> bool {
    magnitude(b) > 0x7F80_0000
}

/// The number is strictly less than `0.0` (false for NaN and for `-0.0`).
pub open spec fn below_zero(b: u32) -> bool {
    !is_nan(b) && sign_set(b) && magnitude(b) > 0
}

/// The number is strictly greater than `1.0` (false for NaN).
pub open spec fn above_one(b: u32) -> bool {
    !is_nan(b) && !sign_set(b) && b > one_bits()
}

/// `f32::clamp(x, 0.0, 1.0)` on encodings: values below `0.0` become `0.0`,
/// values above `1.0` become `1.0`, everything else (NaN and `-0.0` included)
/// is kept.
pub open spec fn clamp_unit_bits(b: u32) -> u32 {
    if below_zero(b) {
        zero_bits()
    } else if above_one(b) {
        one_bits()
    } else {
        b
    }
}

/// Clamping lands in `[0.0, 1.0]` (a NaN stays NaN), keeps numbers already
/// there, and clamping twice is clamping once.
pub proof fn lemma_clamp_unit(b: u32)
    ensures
        !is_nan(b) ==> !below_zero(clamp_unit_bits(b)) && !above_one(clamp_unit_bits(b)),
        is_nan(b) ==> clamp_unit_bits(b) == b,
        !below_zero(b) && !above_one(b) ==> clamp_unit_bits(b) == b,
        clamp_unit_bits(clamp_unit_bits(b)) == clamp_unit_bits(b),
{
}

/// The encoding of the binary32 sum of the numbers encoded by `a` and `b`,
/// rounded to nearest, ties to even.
pub uninterp spec fn binary32_sum(a: u32, b: u32) -> u32;

/// `rustc_apfloat`'s `Single` addition (`+`, which rounds to nearest, ties to
/// even): the encodings are decoded with `Float::from_bits`, added, and the
/// sum's `value` is encoded back with `Float::to_bits`. The contract only names
/// the result as a function of the two encodings; its value is not stated.
#[verifier::external_body]
fn apfloat_single_add(a: u32, b: u32) -> (r: u32)
    ensures
        r == binary32_sum(a, b),
{
    let x = Single::from_bits(a as u128);
    let y = Single::from_bits(b as u128);
    (x + y).value.to_bits() as u32
}

impl Binary32 {
    pub fn from_bits(bits: u32) -> (r: Binary32)
        ensures
            r.bits == bits,
    {
        Binary32 { bits }
    }

    pub fn to_bits(self) -> (r: u32)
        ensures
            r == self.bits,
    {
        self.bits
    }

    /// `0.0`
    pub fn zero() -> (r: Binary32)
        ensures
            r.bits == zero_bits(),
    {
        Binary32 { bits: 0 }
    }

    /// Clamps into `[0.0, 1.0]` exactly as `f32::clamp(0.0, 1.0)` does.
    pub fn clamp_unit(self) -> (r: Binary32)
        ensures
            r.bits == clamp_unit_bits(self.bits),
    {
        let b = self.bits;
        let negative = b >= 0x8000_0000;
        let mag = if negative {
            b - 0x8000_0000
        } else {
            b
        };
        if mag > 0x7F80_0000 {
            self
        } else if negative && mag > 0 {
            Binary32 { bits: 0 }
        } else if !negative && b > 0x3F80_0000 {
            Binary32 { bits: 0x3F80_0000 }
        } else {
            self
        }
    }

    /// The rounded binary32 sum `self + other`.
    pub fn add(self, other: Binary32) -> (r: Binary32)
        ensures
            r.bits == binary32_sum(self.bits, other.bits),
    {
        Binary32 { bits: apfloat_single_add(self.bits, other.bits) }
    }
}

} // verus!
