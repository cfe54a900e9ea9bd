//! IEEE 754 single-precision numbers, held by their bit patterns.
//!
//! The library never computes with such numbers. It orders them, and asks
//! whether one is finite, which the bit pattern alone decides.
use vstd::prelude::*;

verus! {

/// The bit pattern of the sign.
pub const SIGN_BIT: u32 = 0x8000_0000;

/// The magnitude of infinity. A larger magnitude is not a number.
pub const INFINITY_BITS: u32 = 0x7f80_0000;

pub const ZERO_BITS: u32 = 0;

pub const ONE_BITS: u32 = 0x3f80_0000;

pub const MINUS_ONE_BITS: u32 = 0xbf80_0000;

/// A single-precision number, by its bit pattern.
#[derive(Clone, Copy, PartialEq, Eq, Debug, Structural)]
pub struct Scalar {
    pub bits: u32,
}

impl Scalar {
    /// The sign bit is set.
    pub open spec fn negative(self) -> bool {
        self.bits >= SIGN_BIT
    }

    /// The pattern without its sign. Among patterns that are numbers, a larger
    /// one stands for a larger absolute value.
    pub open spec fn magnitude(self) -> int {
        if self.negative() {
            self.bits - SIGN_BIT
        } else {
            self.bits as int
        }
    }

    /// The pattern stands for no number.
    pub open spec fn nan(self) -> bool {
        self.magnitude() > INFINITY_BITS
    }

    /// The pattern stands for a number that is not infinite.
    pub open spec fn finite(self) -> bool {
        self.magnitude() < INFINITY_BITS
    }

    /// The place of a number among all of them: two numbers compare as their
    /// ordinals do, and both zeros are at 0.
    pub open spec fn ordinal(self) -> int {
        if self.negative() {
            -self.magnitude()
        } else {
            self.magnitude()
        }
    }

    /// `self > other`, as the numbers compare: false where either is none.
    pub open spec fn exceeds(self, other: Scalar) -> bool {
        !self.nan() && !other.nan() && self.ordinal() > other.ordinal()
    }

    /// `self <= other`, as the numbers compare: false where either is none.
    pub open spec fn at_most(self, other: Scalar) -> bool {
        !self.nan() && !other.nan() && self.ordinal() <= other.ordinal()
    }

    /// The place of a pattern in the total order over all patterns: the one
    /// that puts the negative zero below the positive one.
    pub open spec fn total(self) -> int {
        if self.negative() {
            -self.magnitude() - 1
        } else {
            self.magnitude()
        }
    }

    pub fn from_bits(bits: u32) -> (s: Scalar)
        ensures
            s.bits == bits,
    {
        Scalar { bits }
    }

    fn signed_magnitude(self) -> (m: i64)
        ensures
            m == self.ordinal(),
    {
        if self.bits >= SIGN_BIT {
            0 - ((self.bits - SIGN_BIT) as i64)
        } else {
            self.bits as i64
        }
    }

    pub fn is_nan(self) -> (b: bool)
        ensures
            b == self.nan(),
    {
        if self.bits >= SIGN_BIT {
            self.bits - SIGN_BIT > INFINITY_BITS
        } else {
            self.bits > INFINITY_BITS
        }
    }

    pub fn is_finite(self) -> (b: bool)
        ensures
            b == self.finite(),
    {
        if self.bits >= SIGN_BIT {
            self.bits - SIGN_BIT < INFINITY_BITS
        } else {
            self.bits < INFINITY_BITS
        }
    }

    /// `self > other`.
    pub fn gt(self, other: Scalar) -> (b: bool)
        ensures
            b == self.exceeds(other),
    {
        !self.is_nan() && !other.is_nan() && self.signed_magnitude() > other.signed_magnitude()
    }

    /// `self <= other`.
    pub fn le(self, other: Scalar) -> (b: bool)
        ensures
            b == self.at_most(other),
    {
        !self.is_nan() && !other.is_nan() && self.signed_magnitude() <= other.signed_magnitude()
    }

    /// The key by which patterns sort in the total order.
    pub fn total_key(self) -> (k: i64)
        ensures
            k == self.total(),
    {
        if self.bits >= SIGN_BIT {
            -1 - ((self.bits - SIGN_BIT) as i64)
        } else {
            self.bits as i64
        }
    }
}

/// What the patterns stand for, bit by bit: a pattern whose thirty-one low bits
/// are above those of infinity is no number, and one below them is finite. Those
/// without a sign are in the order of their bits, from zero up; those with one
/// are in the reverse order, from zero down. In the total order the negative zero
/// is right below the positive one.
pub proof fn patterns_are_in_order(a: Scalar)
    ensures
        a.nan() <==> a.bits % 0x8000_0000 > 0x7f80_0000,
        a.finite() <==> a.bits % 0x8000_0000 < 0x7f80_0000,
        a.bits < 0x8000_0000 ==> a.ordinal() == a.bits && a.total() == a.bits,
        a.bits >= 0x8000_0000 ==> a.ordinal() == 0x8000_0000 - a.bits && a.total() == 0x7fff_ffff
            - a.bits,
{
}

/// No number exceeds itself, and what exceeds a number that exceeds another
/// exceeds that too. What is no number exceeds nothing and nothing exceeds it.
pub proof fn exceeding_is_an_order(a: Scalar, b: Scalar, c: Scalar)
    ensures
        !a.exceeds(a),
        a.exceeds(b) && b.exceeds(c) ==> a.exceeds(c),
        a.nan() ==> !a.exceeds(b) && !b.exceeds(a) && !a.at_most(b) && !b.at_most(a),
        a.at_most(b) && b.at_most(a) ==> a.ordinal() == b.ordinal(),
{
}

/// The total order agrees with the order of numbers: what exceeds another
/// number also sorts after it.
pub proof fn total_order_extends_numeric_order(a: Scalar, b: Scalar)
    requires
        a.exceeds(b),
    ensures
        a.total() > b.total(),
{
}

/// Different patterns have different places in the total order.
pub proof fn total_order_is_injective(a: Scalar, b: Scalar)
    requires
        a.total() == b.total(),
    ensures
        a == b,
{
}

/// Of two numbers, one exceeds the other or is at most the other, never both.
pub proof fn numbers_compare(a: Scalar, b: Scalar)
    requires
        !a.nan(),
        !b.nan(),
    ensures
        a.exceeds(b) != a.at_most(b),
{
}

} // verus!
