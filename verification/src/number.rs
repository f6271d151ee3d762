//! Binary floating-point numbers by their bits.
//!
//! A [`Real`] holds the 64 bits of an IEEE 754 double. What the library asks of
//! a number (is it finite, is it above zero, which of two is smaller) is decided
//! on those bits, with integer arithmetic alone.

use vstd::prelude::*;

verus! {

/// The bits of a number below the sign bit.
pub open spec fn magnitude(bits: u64) -> int {
    (bits as int) % 0x8000_0000_0000_0000
}

/// The magnitude of infinity; what lies above it is not a number.
pub const INFINITE: u64 = 0x7ff0_0000_0000_0000;

/// A double-precision number, as its bits. `==` compares the bits.
#[derive(Clone, Copy, Debug, PartialEq, Eq, Structural)]
pub struct Real {
    pub bits: u64,
}

impl Real {
    /// Whether the bits stand for no number at all.
    pub open spec fn nan(self) -> bool {
        magnitude(self.bits) > INFINITE
    }

    /// Whether the number is finite.
    pub open spec fn finite(self) -> bool {
        magnitude(self.bits) < INFINITE
    }

    /// An integer by which numbers that are not NaN are ordered; both zeros
    /// have rank 0.
    pub open spec fn rank(self) -> int {
        if self.bits >= 0x8000_0000_0000_0000 {
            -magnitude(self.bits)
        } else {
            magnitude(self.bits)
        }
    }

    /// `self < other` as numbers.
    pub open spec fn below(self, other: Real) -> bool {
        !self.nan() && !other.nan() && self.rank() < other.rank()
    }

    /// `self == other` as numbers.
    pub open spec fn equals(self, other: Real) -> bool {
        !self.nan() && !other.nan() && self.rank() == other.rank()
    }

    /// `self <= 0` as numbers.
    pub open spec fn at_most_zero(self) -> bool {
        !self.nan() && self.rank() <= 0
    }

    /// `self > 0` as numbers.
    pub open spec fn above_zero(self) -> bool {
        !self.nan() && self.rank() > 0
    }

    /// The number zero.
    pub fn zero() -> (out: Real)
        ensures
            out == (Real { bits: 0 }),
            out.rank() == 0,
            out.finite(),
    {
        Real { bits: 0 }
    }

    fn magnitude_of(self) -> (out: u64)
        ensures
            out == magnitude(self.bits),
    {
        if self.bits >= 0x8000_0000_0000_0000 {
            self.bits - 0x8000_0000_0000_0000
        } else {
            self.bits
        }
    }

    fn rank_of(self) -> (out: i64)
        ensures
            out == self.rank(),
    {
        let m: i64 = self.magnitude_of() as i64;
        if self.bits >= 0x8000_0000_0000_0000 {
            -m
        } else {
            m
        }
    }

    /// Whether the bits stand for no number at all.
    pub fn is_nan(self) -> (out: bool)
        ensures
            out == self.nan(),
    {
        self.magnitude_of() > INFINITE
    }

    /// Whether the number is finite.
    pub fn is_finite(self) -> (out: bool)
        ensures
            out == self.finite(),
    {
        self.magnitude_of() < INFINITE
    }

    /// `self < other` as numbers.
    pub fn less(self, other: Real) -> (out: bool)
        ensures
            out == self.below(other),
    {
        !self.is_nan() && !other.is_nan() && self.rank_of() < other.rank_of()
    }

    /// `self == other` as numbers.
    pub fn same_number(self, other: Real) -> (out: bool)
        ensures
            out == self.equals(other),
    {
        !self.is_nan() && !other.is_nan() && self.rank_of() == other.rank_of()
    }

    /// `self <= 0` as numbers.
    pub fn not_above_zero(self) -> (out: bool)
        ensures
            out == self.at_most_zero(),
    {
        !self.is_nan() && self.rank_of() <= 0
    }

    /// `self > 0` as numbers.
    pub fn is_above_zero(self) -> (out: bool)
        ensures
            out == self.above_zero(),
    {
        !self.is_nan() && self.rank_of() > 0
    }

    /// `self < 0` as numbers.
    pub fn is_below_zero(self) -> (out: bool)
        ensures
            out == (!self.nan() && self.rank() < 0),
    {
        !self.is_nan() && self.rank_of() < 0
    }

    /// The smaller of two numbers; where one is NaN, the other.
    pub open spec fn lesser(self, other: Real) -> Real {
        if other.below(self) || self.nan() {
            other
        } else {
            self
        }
    }

    /// The greater of two numbers; where one is NaN, the other.
    pub open spec fn greater(self, other: Real) -> Real {
        if self.below(other) || self.nan() {
            other
        } else {
            self
        }
    }

    /// The smaller of two numbers; where one is NaN, the other.
    pub fn min(self, other: Real) -> (out: Real)
        ensures
            out == self.lesser(other),
    {
        if other.less(self) || self.is_nan() {
            other
        } else {
            self
        }
    }

    /// The greater of two numbers; where one is NaN, the other.
    pub fn max(self, other: Real) -> (out: Real)
        ensures
            out == self.greater(other),
    {
        if self.less(other) || self.is_nan() {
            other
        } else {
            self
        }
    }
}

/// A positive ratio of two integers.
#[derive(Clone, Copy, Debug, PartialEq, Eq, Structural)]
pub struct Rate {
    pub numerator: u64,
    pub denominator: u64,
}

/// Numbers are ordered by their bits as doubles are: turning the sign turns the order,
/// both zeros are equal, infinity lies above every finite number, and what is no number
/// is neither below, nor above, nor equal to anything.
pub proof fn the_order_is_that_of_doubles(a: Real, b: Real, x: u64, y: u64)
    requires
        x < 0x8000_0000_0000_0000,
        y < 0x8000_0000_0000_0000,
    ensures
        a.nan() ==> !a.below(b) && !b.below(a) && !a.equals(b) && !a.at_most_zero()
            && !a.above_zero(),
        !a.nan() && !b.nan() ==> a.below(b) || a.equals(b) || b.below(a),
        !(a.below(b) && b.below(a)),
        a.below(b) ==> !a.equals(b),
        a.equals(a) <==> !a.nan(),
        (Real { bits: 0x8000_0000_0000_0000 }).equals(Real { bits: 0 }),
        !a.nan() ==> (a.at_most_zero() <==> !(Real { bits: 0 }).below(a)),
        !a.nan() ==> (a.above_zero() <==> (Real { bits: 0 }).below(a)),
        a.finite() ==> a.below(Real { bits: INFINITE }) && !a.nan(),
        (Real { bits: x }).below(Real { bits: y }) <==> (Real {
            bits: (y + 0x8000_0000_0000_0000) as u64,
        }).below(Real { bits: (x + 0x8000_0000_0000_0000) as u64 }),
        x < y <= INFINITE ==> (Real { bits: x }).below(Real { bits: y }),
        0 < x <= INFINITE ==> (Real { bits: x }).above_zero() && (Real {
            bits: (x + 0x8000_0000_0000_0000) as u64,
        }).at_most_zero(),
{
}

/// The lesser of two numbers is one of them, and neither lies below it; the greater is
/// one of them, and lies below neither. What is no number gives way.
pub proof fn the_lesser_and_the_greater(a: Real, b: Real)
    ensures
        a.lesser(b) == a || a.lesser(b) == b,
        a.greater(b) == a || a.greater(b) == b,
        !a.below(a.lesser(b)) && !b.below(a.lesser(b)),
        !a.greater(b).below(a) && !a.greater(b).below(b),
        a.lesser(b).nan() ==> a.nan() && b.nan(),
        a.greater(b).nan() ==> a.nan() && b.nan(),
{
}

} // verus!
