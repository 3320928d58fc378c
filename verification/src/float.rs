//! Double-precision numbers that only pass through: kept by their bits, put in
//! order, and held against integers.

use crate::binary64;
use vstd::prelude::*;

verus! {

/// A binary64 number, by its bits.
#[derive(Clone, Copy, Debug, PartialEq, Eq, Structural)]
pub struct Float {
    pub bits: u64,
}

impl Float {
    /// The bits stand for no number.
    pub open spec fn is_nan(self) -> bool {
        self.bits & 0x7fff_ffff_ffff_ffff > 0x7ff0_0000_0000_0000
    }

    /// A number, and not an infinite one.
    pub open spec fn is_finite(self) -> bool {
        self.bits & 0x7fff_ffff_ffff_ffff < 0x7ff0_0000_0000_0000
    }

    pub fn finite(self) -> (r: bool)
        ensures
            r == self.is_finite(),
    {
        self.bits & 0x7fff_ffff_ffff_ffff < 0x7ff0_0000_0000_0000
    }

    /// The place of a number on the line: the magnitude of its bits, with its
    /// sign.
    pub open spec fn place(self) -> int {
        if self.bits < 0x8000_0000_0000_0000 {
            self.bits as int
        } else {
            0x8000_0000_0000_0000 - self.bits
        }
    }

    /// Its place comes before that of another. Of two numbers, this is the
    /// lesser one.
    pub open spec fn below(self, other: Float) -> bool {
        self.place() < other.place()
    }

    /// At least an integer.
    pub open spec fn reaches(self, n: u32) -> bool {
        !self.is_nan() && self.place() >= binary64::format_bits(binary64::of_int(n as nat))
    }

    pub fn zero() -> (r: Float)
        ensures
            r == (Float { bits: 0 }),
    {
        Float { bits: 0 }
    }

    fn signed(self) -> (r: i128)
        ensures
            r == self.place(),
    {
        if self.bits < 0x8000_0000_0000_0000 {
            self.bits as i128
        } else {
            0x8000_0000_0000_0000i128 - self.bits as i128
        }
    }

    fn nan(self) -> (r: bool)
        ensures
            r == self.is_nan(),
    {
        self.bits & 0x7fff_ffff_ffff_ffff > 0x7ff0_0000_0000_0000
    }

    pub fn is_below(self, other: Float) -> (r: bool)
        ensures
            r == self.below(other),
    {
        self.signed() < other.signed()
    }

    pub fn is_at_least(self, n: u32) -> (r: bool)
        ensures
            r == self.reaches(n),
    {
        let b = binary64::from_u64(n as u64).bits();
        !self.nan() && self.signed() >= b as i128
    }
}

} // verus!
