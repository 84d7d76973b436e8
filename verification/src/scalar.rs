//! Coordinates, lengths and curve parameters, and the order on them.

use vstd::prelude::*;

verus! {

/// The weight of the sign bit.
pub const SIGN: u64 = 0x8000_0000_0000_0000;

/// The encoding of positive infinity; a larger magnitude is not a number.
pub const INFINITE: u64 = 0x7FF0_0000_0000_0000;

pub const ZERO: u64 = 0x0000_0000_0000_0000;

pub const ONE: u64 = 0x3FF0_0000_0000_0000;

pub const HALF: u64 = 0x3FE0_0000_0000_0000;

pub const QUARTER: u64 = 0x3FD0_0000_0000_0000;

pub const TWO: u64 = 0x4000_0000_0000_0000;

pub const THREE: u64 = 0x4008_0000_0000_0000;

pub const FOUR: u64 = 0x4010_0000_0000_0000;

pub const SIX: u64 = 0x4018_0000_0000_0000;

/// 0.1
pub const TENTH: u64 = 0x3FB9_9999_9999_999A;

/// 1e-3
pub const MILLI: u64 = 0x3F50_624D_D2F1_A9FC;

/// 1e-4
pub const E4: u64 = 0x3F1A_36E2_EB1C_432D;

/// 1 - 1e-4
pub const ONE_LESS_E4: u64 = 0x3FEF_FF2E_48E8_A71E;

/// 1e-6
pub const E6: u64 = 0x3EB0_C6F7_A0B5_ED8D;

/// 1 - 1e-6
pub const ONE_LESS_E6: u64 = 0x3FEF_FFFD_E721_0BE9;

/// 1e-12
pub const E12: u64 = 0x3D71_9799_812D_EA11;

/// A coordinate, length or parameter, held by the bits of its IEEE 754
/// binary64 encoding.
#[derive(Clone, Copy, Debug, PartialEq, Eq, Structural)]
pub struct Scalar {
    pub bits: u64,
}

impl Scalar {
    /// The encoding without its sign bit.
    pub open spec fn spec_magnitude(self) -> int {
        if self.bits < SIGN {
            self.bits as int
        } else {
            self.bits - SIGN
        }
    }

    /// Whether the encoding stands for no number at all.
    pub open spec fn spec_is_nan(self) -> bool {
        self.spec_magnitude() > INFINITE
    }

    /// The position of a number on the number line: ranks compare as the
    /// numbers do, and both zeros have rank zero.
    pub open spec fn spec_rank(self) -> int {
        if self.bits < SIGN {
            self.bits as int
        } else {
            SIGN - self.bits
        }
    }

    /// `self < other`; false when either side is not a number.
    pub open spec fn spec_lt(self, other: Scalar) -> bool {
        !self.spec_is_nan() && !other.spec_is_nan() && self.spec_rank() < other.spec_rank()
    }

    /// `self <= other`; false when either side is not a number.
    pub open spec fn spec_le(self, other: Scalar) -> bool {
        !self.spec_is_nan() && !other.spec_is_nan() && self.spec_rank() <= other.spec_rank()
    }

    /// Equality of numbers: the two zeros are equal, and what is not a number
    /// equals nothing.
    pub open spec fn spec_same(self, other: Scalar) -> bool {
        !self.spec_is_nan() && !other.spec_is_nan() && self.spec_rank() == other.spec_rank()
    }

    pub open spec fn spec_neg(self) -> Scalar {
        if self.bits < SIGN {
            Scalar { bits: (self.bits + SIGN) as u64 }
        } else {
            Scalar { bits: (self.bits - SIGN) as u64 }
        }
    }

    pub open spec fn spec_abs(self) -> Scalar {
        Scalar { bits: self.spec_magnitude() as u64 }
    }

    /// The smaller of two numbers; the other one when one is not a number.
    pub open spec fn spec_min(self, other: Scalar) -> Scalar {
        if other.spec_is_nan() || self.spec_lt(other) {
            self
        } else {
            other
        }
    }

    /// The larger of two numbers; the other one when one is not a number.
    pub open spec fn spec_max(self, other: Scalar) -> Scalar {
        if other.spec_is_nan() || other.spec_lt(self) {
            self
        } else {
            other
        }
    }

    /// The nearest number between `lo` and `hi`.
    pub open spec fn spec_clamp(self, lo: Scalar, hi: Scalar) -> Scalar {
        if self.spec_lt(lo) {
            lo
        } else if hi.spec_lt(self) {
            hi
        } else {
            self
        }
    }

    /// The number with this encoding.
    pub fn from_bits(bits: u64) -> (r: Scalar)
        ensures
            r == (Scalar { bits }),
    {
        Scalar { bits }
    }

    /// The encoding of this number.
    pub fn to_bits(self) -> (r: u64)
        ensures
            r == self.bits,
    {
        self.bits
    }

    pub fn is_nan(self) -> (r: bool)
        ensures
            r == self.spec_is_nan(),
    {
        if self.bits < SIGN {
            self.bits > INFINITE
        } else {
            self.bits - SIGN > INFINITE
        }
    }

    pub fn rank(self) -> (r: i64)
        ensures
            r == self.spec_rank(),
    {
        if self.bits < SIGN {
            self.bits as i64
        } else {
            -((self.bits - SIGN) as i64)
        }
    }

    pub fn lt(self, other: Scalar) -> (r: bool)
        ensures
            r == self.spec_lt(other),
    {
        !self.is_nan() && !other.is_nan() && self.rank() < other.rank()
    }

    pub fn le(self, other: Scalar) -> (r: bool)
        ensures
            r == self.spec_le(other),
    {
        !self.is_nan() && !other.is_nan() && self.rank() <= other.rank()
    }

    pub fn same(self, other: Scalar) -> (r: bool)
        ensures
            r == self.spec_same(other),
    {
        !self.is_nan() && !other.is_nan() && self.rank() == other.rank()
    }

    pub fn neg(self) -> (r: Scalar)
        ensures
            r == self.spec_neg(),
    {
        if self.bits < SIGN {
            Scalar { bits: self.bits + SIGN }
        } else {
            Scalar { bits: self.bits - SIGN }
        }
    }

    pub fn abs(self) -> (r: Scalar)
        ensures
            r == self.spec_abs(),
    {
        if self.bits < SIGN {
            self
        } else {
            Scalar { bits: self.bits - SIGN }
        }
    }

    pub fn min(self, other: Scalar) -> (r: Scalar)
        ensures
            r == self.spec_min(other),
    {
        if other.is_nan() || self.lt(other) {
            self
        } else {
            other
        }
    }

    pub fn max(self, other: Scalar) -> (r: Scalar)
        ensures
            r == self.spec_max(other),
    {
        if other.is_nan() || other.lt(self) {
            self
        } else {
            other
        }
    }

    pub fn clamp(self, lo: Scalar, hi: Scalar) -> (r: Scalar)
        ensures
            r == self.spec_clamp(lo, hi),
    {
        if self.lt(lo) {
            lo
        } else if hi.lt(self) {
            hi
        } else {
            self
        }
    }
}

/// The number with the encoding `bits`.
pub open spec fn num(bits: u64) -> Scalar {
    Scalar { bits }
}

// ---- laws ----

/// Of two numbers the smaller and the larger are these two, in order; of a number
/// and what is none, both are the number.
pub proof fn law_min_max(a: Scalar, b: Scalar)
    ensures
        !a.spec_is_nan() && !b.spec_is_nan() ==> {
            &&& a.spec_min(b).spec_le(a) && a.spec_min(b).spec_le(b)
            &&& a.spec_le(a.spec_max(b)) && b.spec_le(a.spec_max(b))
            &&& a.spec_min(b) == a || a.spec_min(b) == b
            &&& a.spec_max(b) == a || a.spec_max(b) == b
        },
        !a.spec_is_nan() && b.spec_is_nan() ==> a.spec_min(b) == a && a.spec_max(b) == a,
        a.spec_is_nan() ==> a.spec_min(b) == b || b.spec_is_nan(),
        a.spec_is_nan() ==> a.spec_max(b) == b || b.spec_is_nan(),
{
}

/// A number is clamped to the nearest between the bounds, and to itself where it
/// lies there.
pub proof fn law_clamp(a: Scalar, lo: Scalar, hi: Scalar)
    requires
        lo.spec_le(hi),
        !a.spec_is_nan(),
    ensures
        lo.spec_le(a.spec_clamp(lo, hi)),
        a.spec_clamp(lo, hi).spec_le(hi),
        lo.spec_le(a) && a.spec_le(hi) ==> a.spec_clamp(lo, hi) == a,
        a.spec_lt(lo) ==> a.spec_clamp(lo, hi) == lo,
        hi.spec_lt(a) ==> a.spec_clamp(lo, hi) == hi,
{
}

/// Negation turns the order around and undoes itself; the magnitude is no less
/// than the number and its negation, and is one of them.
pub proof fn law_neg_abs(a: Scalar, b: Scalar)
    ensures
        a.spec_lt(b) <==> b.spec_neg().spec_lt(a.spec_neg()),
        a.spec_neg().spec_neg() == a,
        a.spec_neg() != a,
        a.spec_abs() == a || a.spec_abs() == a.spec_neg(),
        0 <= a.spec_abs().spec_rank(),
{
}

} // verus!
