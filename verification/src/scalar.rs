//! Single and double precision numbers, held as their IEEE 754 bit patterns.
//!
//! What can be read off a bit pattern alone (sign, magnitude, order, being a
//! NaN) is decided here. Everything that rounds is left to an
//! [`Arith`](crate::arith::Arith).
use vstd::prelude::*;

verus! {

/// The sign bit of a single.
pub const SIGN_BIT: u32 = 0x8000_0000;

/// The magnitude of infinity; every larger magnitude is a NaN.
pub const INFINITY_BITS: u32 = 0x7f80_0000;

/// Negative infinity.
pub const NEG_INFINITY_BITS: u32 = 0xff80_0000;

/// 1.0
pub const ONE_BITS: u32 = 0x3f80_0000;

/// 0.5
pub const HALF_BITS: u32 = 0x3f00_0000;

/// -2.0
pub const MINUS_TWO_BITS: u32 = 0xc000_0000;

/// Half a turn, in radians.
pub const PI_BITS: u32 = 0x4049_0fdb;

/// A full turn, in radians.
pub const TAU_BITS: u32 = 0x40c9_0fdb;

/// 4.0
pub const FOUR_BITS: u32 = 0x4080_0000;

/// 100.0
pub const HUNDRED_BITS: u32 = 0x42c8_0000;

/// 0.999
pub const POINT_999_BITS: u32 = 0x3f7f_be77;

/// 0.95
pub const NINETEEN_TWENTIETHS_BITS: u32 = 0x3f73_3333;

/// 0.9
pub const NINE_TENTHS_BITS: u32 = 0x3f66_6666;

/// 0.3
pub const THREE_TENTHS_BITS: u32 = 0x3e99_999a;

/// 0.1
pub const TENTH_BITS: u32 = 0x3dcc_cccd;

/// 0.001
pub const THOUSANDTH_BITS: u32 = 0x3a83_126f;

/// 1e-6
pub const TEN_TO_MINUS_6_BITS: u32 = 0x3586_37bd;

/// 1e-7
pub const TEN_TO_MINUS_7_BITS: u32 = 0x33d6_bf95;

/// 1e-8
pub const TEN_TO_MINUS_8_BITS: u32 = 0x322b_cc77;

/// 1e-9
pub const TEN_TO_MINUS_9_BITS: u32 = 0x3089_705f;

/// 1e-12
pub const TEN_TO_MINUS_12_BITS: u32 = 0x2b8c_bccc;

/// 1e-30
pub const TEN_TO_MINUS_30_BITS: u32 = 0x0da2_4260;

/// A single precision number.
#[derive(Clone, Copy, Debug, PartialEq, Eq, Structural)]
pub struct Single {
    pub bits: u32,
}

/// A double precision number.
#[derive(Clone, Copy, Debug, PartialEq, Eq, Structural)]
pub struct Double {
    pub bits: u64,
}

/// The number 0.0.
pub open spec fn nought() -> Single {
    Single { bits: 0 }
}

/// The number 1.0.
pub open spec fn unit() -> Single {
    Single { bits: ONE_BITS }
}

/// The double 0.0.
pub open spec fn wide_nought() -> Double {
    Double { bits: 0 }
}

/// The bit patterns of `xs`.
pub open spec fn bits_of(xs: Seq<Single>) -> Seq<u32> {
    Seq::new(xs.len(), |i: int| xs[i].bits)
}

/// `x < y` as IEEE 754 orders numbers: a NaN is below nothing and above
/// nothing, and the two zeros are equal.
pub open spec fn less(x: Single, y: Single) -> bool {
    !x.nan() && !y.nan() && x.ordinal() < y.ordinal()
}

/// `x <= y` as IEEE 754 orders numbers.
pub open spec fn at_most(x: Single, y: Single) -> bool {
    !x.nan() && !y.nan() && x.ordinal() <= y.ordinal()
}

/// `x`, moved to the nearer end of `lo..=hi` where it lies outside.
pub open spec fn clamped(x: Single, lo: Single, hi: Single) -> Single {
    if less(x, lo) {
        lo
    } else if less(hi, x) {
        hi
    } else {
        x
    }
}

/// The larger of `x` and `y`; a NaN gives way to the other, and of two equal
/// numbers it is the first.
pub open spec fn maximum(x: Single, y: Single) -> Single {
    if x.nan() || less(x, y) {
        y
    } else {
        x
    }
}

/// The smaller of `x` and `y`; a NaN gives way to the other, and of two equal
/// numbers it is the first.
pub open spec fn minimum(x: Single, y: Single) -> Single {
    if x.nan() || less(y, x) {
        y
    } else {
        x
    }
}

/// The same number: the two zeros are one, and so are all NaNs.
pub open spec fn same_number(x: Single, y: Single) -> bool {
    x == y || (x.zero() && y.zero()) || (x.nan() && y.nan())
}

impl Single {
    /// The bit pattern without its sign.
    pub open spec fn mag(self) -> int {
        if self.bits >= SIGN_BIT {
            self.bits - SIGN_BIT
        } else {
            self.bits as int
        }
    }

    pub open spec fn nan(self) -> bool {
        self.mag() > INFINITY_BITS
    }

    /// Neither infinite nor a NaN.
    pub open spec fn finite(self) -> bool {
        self.mag() < INFINITY_BITS
    }

    /// 0.0 or -0.0.
    pub open spec fn zero(self) -> bool {
        self.mag() == 0
    }

    /// An integer that orders all numbers but the NaNs as their values do.
    pub open spec fn ordinal(self) -> int {
        if self.bits >= SIGN_BIT {
            -self.mag()
        } else {
            self.mag()
        }
    }

    /// The number of the opposite sign.
    pub open spec fn negated(self) -> Single {
        if self.bits >= SIGN_BIT {
            Single { bits: (self.bits - SIGN_BIT) as u32 }
        } else {
            Single { bits: (self.bits + SIGN_BIT) as u32 }
        }
    }

    /// The number without its sign.
    pub open spec fn absolute(self) -> Single {
        Single { bits: self.mag() as u32 }
    }

    /// 0.0
    pub fn zeroed() -> (r: Single)
        ensures
            r == nought(),
    {
        Single { bits: 0 }
    }

    /// 1.0
    pub fn one() -> (r: Single)
        ensures
            r == unit(),
    {
        Single { bits: ONE_BITS }
    }

    /// The bit pattern without its sign: orders numbers by their absolute value.
    pub fn magnitude(self) -> (r: u32)
        ensures
            r == self.mag(),
    {
        if self.bits >= SIGN_BIT {
            self.bits - SIGN_BIT
        } else {
            self.bits
        }
    }

    pub fn is_nan(self) -> (r: bool)
        ensures
            r == self.nan(),
    {
        self.magnitude() > INFINITY_BITS
    }

    pub fn is_zero(self) -> (r: bool)
        ensures
            r == self.zero(),
    {
        self.magnitude() == 0
    }

    pub fn neg(self) -> (r: Single)
        ensures
            r == self.negated(),
    {
        if self.bits >= SIGN_BIT {
            Single { bits: self.bits - SIGN_BIT }
        } else {
            Single { bits: self.bits + SIGN_BIT }
        }
    }

    pub fn abs(self) -> (r: Single)
        ensures
            r == self.absolute(),
    {
        Single { bits: self.magnitude() }
    }

    /// `self < other`.
    pub fn lt(self, other: Single) -> (r: bool)
        ensures
            r == less(self, other),
    {
        let a: u32 = self.magnitude();
        let b: u32 = other.magnitude();
        if a > INFINITY_BITS || b > INFINITY_BITS {
            false
        } else if self.bits >= SIGN_BIT {
            if other.bits >= SIGN_BIT {
                b < a
            } else {
                a > 0 || b > 0
            }
        } else {
            other.bits < SIGN_BIT && a < b
        }
    }

    /// `self <= other`.
    pub fn le(self, other: Single) -> (r: bool)
        ensures
            r == at_most(self, other),
    {
        !self.is_nan() && !other.is_nan() && !other.lt(self)
    }

    /// The larger of the two.
    pub fn larger(self, other: Single) -> (r: Single)
        ensures
            r == maximum(self, other),
    {
        if self.is_nan() || self.lt(other) {
            other
        } else {
            self
        }
    }

    /// The smaller of the two.
    pub fn smaller(self, other: Single) -> (r: Single)
        ensures
            r == minimum(self, other),
    {
        if self.is_nan() || other.lt(self) {
            other
        } else {
            self
        }
    }

    /// `self`, moved to the nearer end of `lo..=hi` where it lies outside.
    pub fn clamp(self, lo: Single, hi: Single) -> (r: Single)
        ensures
            r == clamped(self, lo, hi),
    {
        if self.lt(lo) {
            lo
        } else if hi.lt(self) {
            hi
        } else {
            self
        }
    }
}

/// Negating twice gives the number back, and negation reverses the order.
pub proof fn law_negation(x: Single, y: Single)
    ensures
        x.negated().negated() == x,
        x.negated().mag() == x.mag(),
        less(x, y) == less(y.negated(), x.negated()),
{
}

/// Larger and smaller number bound both, and a NaN is the outcome only of two.
pub proof fn law_larger_and_smaller(x: Single, y: Single)
    ensures
        maximum(x, y) == x || maximum(x, y) == y,
        minimum(x, y) == x || minimum(x, y) == y,
        maximum(x, y).nan() <==> x.nan() && y.nan(),
        minimum(x, y).nan() <==> x.nan() && y.nan(),
        !x.nan() && !y.nan() ==> at_most(x, maximum(x, y)) && at_most(y, maximum(x, y)),
        !x.nan() && !y.nan() ==> at_most(minimum(x, y), x) && at_most(minimum(x, y), y),
{
}

/// Any two numbers that are not NaNs are ordered one way, the other, or equal.
pub proof fn law_order_is_total(x: Single, y: Single)
    requires
        !x.nan(),
        !y.nan(),
    ensures
        less(x, y) || less(y, x) || (at_most(x, y) && at_most(y, x)),
        at_most(x, y) == !less(y, x),
{
}

/// Clamping gives a number of the range: `x` itself where it lies in the range, and
/// the nearer end where it does not. A NaN stays one.
pub proof fn law_clamping_moves_into_range(x: Single, lo: Single, hi: Single)
    requires
        at_most(lo, hi),
    ensures
        !x.nan() ==> at_most(lo, clamped(x, lo, hi)) && at_most(clamped(x, lo, hi), hi),
        at_most(lo, x) && at_most(x, hi) ==> clamped(x, lo, hi) == x,
        less(x, lo) ==> clamped(x, lo, hi) == lo,
        less(hi, x) ==> clamped(x, lo, hi) == hi,
        x.nan() ==> clamped(x, lo, hi) == x,
{
}

/// The absolute value is not below zero, is that of the negated number, and is the
/// number or the negated number.
pub proof fn law_absolute(x: Single)
    ensures
        x.absolute() == x || x.absolute() == x.negated(),
        x.absolute() == x.negated().absolute(),
        !x.nan() ==> at_most(nought(), x.absolute()) && at_most(x, x.absolute()),
        x.absolute().nan() == x.nan(),
{
}

/// What bit patterns stand for: without the sign bit, all above that of infinity are
/// NaNs, all below are finite, and 0 is zero. One is in between; and numbers of one
/// sign are ordered as their patterns are.
pub proof fn law_bit_patterns(x: Single, y: Single)
    ensures
        x.mag() == x.bits as int % 0x8000_0000,
        x.nan() <==> x.bits as int % 0x8000_0000 > 0x7f80_0000,
        x.finite() <==> (x.bits as int % 0x8000_0000) < 0x7f80_0000,
        x.zero() <==> x.bits == 0 || x.bits == 0x8000_0000,
        x.negated().bits as int == (x.bits + 0x8000_0000) % 0x1_0000_0000,
        !x.nan() && !y.nan() && x.bits < 0x8000_0000 && y.bits < 0x8000_0000 ==> less(x, y) == (
        x.bits < y.bits),
        !x.nan() && !y.nan() && x.bits >= 0x8000_0000 && y.bits >= 0x8000_0000 ==> less(x, y) == (
        x.bits > y.bits),
        !x.nan() && !y.nan() && x.bits >= 0x8000_0000 && y.bits < 0x8000_0000 ==> less(x, y) == !(
        x.zero() && y.zero()),
        x.nan() || y.nan() ==> !less(x, y) && !at_most(x, y),
        at_most(x, y) ==> !less(y, x),
        nought().bits == 0,
        unit().bits == 0x3f80_0000,
        less(nought(), unit()),
{
}

} // verus!
