//! Real numbers as the library holds them.
//!
//! The library never computes with a real number: it carries it, classifies
//! it and compares it with another. A number is therefore held by its
//! IEEE 754 binary64 bit pattern, on which all three are integer work.

use vstd::prelude::*;

verus! {

/// The sign bit of a binary64 pattern.
pub const SIGN_BIT: u64 = 0x8000_0000_0000_0000;

/// The pattern of positive infinity. Every larger magnitude is a NaN.
pub const INFINITY_BITS: u64 = 0x7FF0_0000_0000_0000;

/// The pattern of the number one.
pub const ONE_BITS: u64 = 0x3FF0_0000_0000_0000;

/// A binary64 number, held by its bit pattern.
#[derive(Clone, Copy, Debug)]
pub struct Scalar {
    pub bits: u64,
}

impl Scalar {
    /// The pattern without its sign bit.
    pub open spec fn magnitude(self) -> int {
        if self.bits >= SIGN_BIT {
            self.bits - SIGN_BIT
        } else {
            self.bits as int
        }
    }

    /// The sign bit is set.
    pub open spec fn negative(self) -> bool {
        self.bits >= SIGN_BIT
    }

    /// The pattern is not a number.
    pub open spec fn nan(self) -> bool {
        self.magnitude() > INFINITY_BITS
    }

    /// The number is zero, of either sign.
    pub open spec fn zero(self) -> bool {
        self.magnitude() == 0
    }

    /// The number is positive infinity.
    pub open spec fn infinite(self) -> bool {
        self.bits == INFINITY_BITS
    }

    /// `self` and `other` are one value: the same pattern, or two patterns
    /// that are both no number. Nothing that the library decides tells one
    /// NaN from another.
    pub open spec fn alike(self, other: Scalar) -> bool {
        self == other || (self.nan() && other.nan())
    }

    /// The place of the number on the real line: binary64 is a sign and a
    /// magnitude, and among numbers of one sign the patterns grow with the
    /// numbers. Both zeros stand at 0.
    pub open spec fn rank(self) -> int {
        if self.negative() {
            -self.magnitude()
        } else {
            self.magnitude()
        }
    }

    /// `rank`, moved into the range of `u64`.
    pub open spec fn ordinal_spec(self) -> int {
        self.rank() + SIGN_BIT
    }

    /// `self < other` as numbers. A NaN is below nothing and nothing is below it.
    pub open spec fn spec_lt(self, other: Scalar) -> bool {
        !self.nan() && !other.nan() && self.rank() < other.rank()
    }

    /// `self <= other` as numbers.
    pub open spec fn spec_le(self, other: Scalar) -> bool {
        !self.nan() && !other.nan() && self.rank() <= other.rank()
    }

    /// The smaller of two numbers; where one is a NaN, the other.
    /// Of two equal numbers it is `self`.
    pub open spec fn spec_min(self, other: Scalar) -> Scalar {
        if self.nan() {
            other
        } else if other.spec_lt(self) {
            other
        } else {
            self
        }
    }

    /// The number brought into `[0, 1]`. A NaN stays as it is.
    pub open spec fn spec_clamp_unit(self) -> Scalar {
        if self.spec_lt(Scalar { bits: 0 }) {
            Scalar { bits: 0 }
        } else if (Scalar { bits: ONE_BITS }).spec_lt(self) {
            Scalar { bits: ONE_BITS }
        } else {
            self
        }
    }

    pub fn from_bits(bits: u64) -> (s: Scalar)
        ensures
            s.bits == bits,
    {
        Scalar { bits }
    }

    pub fn to_bits(self) -> (bits: u64)
        ensures
            bits == self.bits,
    {
        self.bits
    }

    /// Positive infinity.
    pub fn infinity() -> (s: Scalar)
        ensures
            s.bits == INFINITY_BITS,
            s.infinite(),
            !s.nan(),
    {
        Scalar { bits: INFINITY_BITS }
    }

    fn magnitude_bits(self) -> (m: u64)
        ensures
            m == self.magnitude(),
    {
        if self.bits >= SIGN_BIT {
            self.bits - SIGN_BIT
        } else {
            self.bits
        }
    }

    pub fn is_nan(self) -> (r: bool)
        ensures
            r == self.nan(),
    {
        self.magnitude_bits() > INFINITY_BITS
    }

    pub fn is_zero(self) -> (r: bool)
        ensures
            r == self.zero(),
    {
        self.magnitude_bits() == 0
    }

    pub fn is_infinite(self) -> (r: bool)
        ensures
            r == self.infinite(),
    {
        self.bits == INFINITY_BITS
    }

    /// A `u64` that grows with the number.
    pub fn ordinal(self) -> (k: u64)
        ensures
            k == self.ordinal_spec(),
    {
        let m: u64 = self.magnitude_bits();
        if self.bits >= SIGN_BIT {
            SIGN_BIT - m
        } else {
            SIGN_BIT + m
        }
    }

    #[verifier::when_used_as_spec(spec_lt)]
    pub fn lt(self, other: Scalar) -> (r: bool)
        ensures
            r == self.spec_lt(other),
    {
        !self.is_nan() && !other.is_nan() && self.ordinal() < other.ordinal()
    }

    #[verifier::when_used_as_spec(spec_le)]
    pub fn le(self, other: Scalar) -> (r: bool)
        ensures
            r == self.spec_le(other),
    {
        !self.is_nan() && !other.is_nan() && self.ordinal() <= other.ordinal()
    }

    #[verifier::when_used_as_spec(spec_min)]
    pub fn min(self, other: Scalar) -> (r: Scalar)
        ensures
            r == self.spec_min(other),
    {
        if self.is_nan() {
            other
        } else if other.lt(self) {
            other
        } else {
            self
        }
    }

    #[verifier::when_used_as_spec(spec_clamp_unit)]
    pub fn clamp_unit(self) -> (r: Scalar)
        ensures
            r == self.spec_clamp_unit(),
    {
        let zero = Scalar { bits: 0 };
        let one = Scalar { bits: ONE_BITS };
        if self.lt(zero) {
            zero
        } else if one.lt(self) {
            one
        } else {
            self
        }
    }
}

/// What the library asks of a number does not depend on which NaN it is: two
/// values that are alike are classified alike and compare alike with every
/// other.
pub proof fn lemma_alike_decides_alike(a: Scalar, b: Scalar, c: Scalar)
    requires
        a.alike(b),
    ensures
        a.nan() == b.nan(),
        a.zero() == b.zero(),
        a.infinite() == b.infinite(),
        a.spec_lt(c) == b.spec_lt(c),
        c.spec_lt(a) == c.spec_lt(b),
        a.spec_le(c) == b.spec_le(c),
        c.spec_le(a) == c.spec_le(b),
        a.spec_clamp_unit().alike(b.spec_clamp_unit()),
        c.spec_min(a).alike(c.spec_min(b)),
        a.spec_min(c).alike(b.spec_min(c)),
{
}

/// What `clamp_unit` returns lies in `[0, 1]`, unless it was given a NaN.
pub proof fn lemma_clamp_unit_range(t: Scalar)
    ensures
        t.nan() ==> t.spec_clamp_unit() == t,
        !t.nan() ==> (Scalar { bits: 0 }).spec_le(t.spec_clamp_unit()) && t.spec_clamp_unit().spec_le(
            Scalar { bits: ONE_BITS },
        ),
{
}

} // verus!
