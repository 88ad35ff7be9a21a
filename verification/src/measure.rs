//! Reported values, held as double-precision bit patterns.
//!
//! A measurement keeps the 64 bits of an IEEE-754 double: one sign bit, then
//! eleven exponent bits, then fifty-two fraction bits. The bits below the sign
//! grow with the size of the number they encode, so measurements are ranked
//! by integers alone.

use vstd::prelude::*;

verus! {

/// The bit pattern whose only set bit is the sign.
pub const SIGN_BIT: u64 = 0x8000_0000_0000_0000;

/// The bits of positive infinity: every exponent bit set, no fraction bit.
pub const INFINITY_BITS: u64 = 0x7ff0_0000_0000_0000;

/// A reported value, as the bits of a double.
#[derive(Clone, Copy, Debug, PartialEq, Eq, Structural)]
pub struct Measurement {
    pub bits: u64,
}

impl Measurement {
    /// The bits below the sign bit.
    pub open spec fn magnitude(self) -> int {
        if self.bits >= SIGN_BIT {
            self.bits - SIGN_BIT
        } else {
            self.bits as int
        }
    }

    /// Whether the sign bit is set.
    pub open spec fn negative(self) -> bool {
        self.bits >= SIGN_BIT
    }

    /// Whether the bits encode no number: every exponent bit set and some
    /// fraction bit too.
    pub open spec fn not_a_number(self) -> bool {
        self.magnitude() > INFINITY_BITS
    }

    /// The place of this measurement among all measurements: a larger number
    /// has a larger rank, the two zeros share rank 0, and what is not a number
    /// ranks below every number.
    pub open spec fn rank(self) -> int {
        if self.not_a_number() {
            -(INFINITY_BITS as int) - 1
        } else if self.negative() {
            -self.magnitude()
        } else {
            self.magnitude()
        }
    }

    /// The measurement with the given bits.
    pub fn from_bits(bits: u64) -> (m: Measurement)
        ensures
            m.bits == bits,
    {
        Measurement { bits }
    }

    /// The bits of this measurement.
    pub fn to_bits(&self) -> (bits: u64)
        ensures
            bits == self.bits,
    {
        self.bits
    }

    /// Whether this measurement encodes no number.
    pub fn is_nan(&self) -> (r: bool)
        ensures
            r == self.not_a_number(),
    {
        let magnitude: u64 = if self.bits >= SIGN_BIT {
            self.bits - SIGN_BIT
        } else {
            self.bits
        };
        magnitude > INFINITY_BITS
    }

    /// The rank of this measurement.
    pub fn rank_of(&self) -> (r: i64)
        ensures
            r == self.rank(),
    {
        let negative = self.bits >= SIGN_BIT;
        let magnitude: u64 = if negative {
            self.bits - SIGN_BIT
        } else {
            self.bits
        };
        if magnitude > INFINITY_BITS {
            -0x7ff0_0000_0000_0001
        } else if negative {
            -(magnitude as i64)
        } else {
            magnitude as i64
        }
    }

    /// Whether this measurement is ranked strictly above `other`.
    pub fn outranks(&self, other: &Measurement) -> (r: bool)
        ensures
            r == (self.rank() > other.rank()),
    {
        self.rank_of() > other.rank_of()
    }
}

} // verus!
