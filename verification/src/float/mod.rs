//! IEEE 754 binary32 numbers, held as their bit patterns.
//!
//! Embedding components and similarity scores are single-precision numbers.
//! The database computes with them in integers only, so that every result is
//! the one that the standard fixes, on every machine: an operation takes the
//! exact result and rounds it once, to the nearest representable number, ties
//! going to the even one.
//!
//! A finite magnitude is always a whole number of *quanta*, the smallest
//! positive number `2^-149`, and the specifications count in quanta.

pub mod arith;
pub mod error;
pub mod nearest;
pub mod rounding;

use vstd::arithmetic::power2::pow2;
use vstd::prelude::*;

verus! {

/// The weight of the sign bit.
pub const SIGN_BIT: u32 = 0x8000_0000;

/// The magnitude code of infinity; larger codes are NaNs.
pub const INFINITY_CODE: u32 = 0x7f80_0000;

/// The weight of the lowest exponent bit, which is also the implicit leading
/// bit of a normal significand.
pub const HIDDEN_BIT: u32 = 0x80_0000;

/// A single-precision number, as its bit pattern.
#[derive(Debug, Clone, Copy)]
pub struct F32 {
    pub bits: u32,
}

/// The significand of the finite magnitude code `code`.
pub open spec fn significand(code: nat) -> nat {
    if code < HIDDEN_BIT {
        code
    } else {
        HIDDEN_BIT as nat + code % (HIDDEN_BIT as nat)
    }
}

/// The power of two by which the significand of `code` is scaled, in quanta.
pub open spec fn scale(code: nat) -> nat {
    if code < HIDDEN_BIT {
        0
    } else {
        (code / (HIDDEN_BIT as nat) - 1) as nat
    }
}

/// The magnitude that the finite code `code` stands for, in quanta.
pub open spec fn quanta(code: nat) -> nat {
    significand(code) * pow2(scale(code))
}

/// The bit pattern of negative zero.
pub const NEG_ZERO_BITS: u32 = 0x8000_0000;

/// The bit pattern of the NaN that an undefined operation yields. The standard
/// leaves its sign open; it is negative here, so that an undefined score ranks
/// below every number.
pub const NAN_BITS: u32 = 0xffc0_0000;

impl F32 {
    /// The bits below the sign: the exponent and the fraction.
    pub open spec fn code(self) -> nat {
        self.bits as nat % (SIGN_BIT as nat)
    }

    /// Whether the sign bit is set.
    pub open spec fn negative(self) -> bool {
        self.bits >= SIGN_BIT
    }

    pub open spec fn nan(self) -> bool {
        self.code() > INFINITY_CODE
    }

    pub open spec fn infinite(self) -> bool {
        self.code() == INFINITY_CODE
    }

    pub open spec fn finite(self) -> bool {
        self.code() < INFINITY_CODE
    }

    pub open spec fn zero(self) -> bool {
        self.code() == 0
    }

    /// The magnitude of a finite number, in quanta.
    pub open spec fn magnitude(self) -> nat {
        quanta(self.code())
    }

    /// The value of a finite number, in quanta.
    pub open spec fn value(self) -> int {
        if self.negative() {
            -(self.magnitude() as int)
        } else {
            self.magnitude() as int
        }
    }

    /// The number with the given sign and magnitude code.
    pub open spec fn compose(negative: bool, code: nat) -> F32 {
        F32 {
            bits: if negative {
                (SIGN_BIT + code) as u32
            } else {
                code as u32
            },
        }
    }

    /// The signed magnitude code: it grows with the number, and the two zeros
    /// share it.
    pub open spec fn level(self) -> int {
        if self.negative() {
            -(self.code() as int)
        } else {
            self.code() as int
        }
    }

    /// `a < b`: false where either is a NaN.
    pub open spec fn less(a: F32, b: F32) -> bool {
        !a.nan() && !b.nan() && a.level() < b.level()
    }

    /// `a == b` as numbers: the zeros are equal, a NaN equals nothing.
    pub open spec fn same_number(a: F32, b: F32) -> bool {
        !a.nan() && !b.nan() && a.level() == b.level()
    }

    /// The place of a bit pattern in the total order of the standard: negative
    /// NaNs, negative numbers, `-0`, `+0`, positive numbers, positive NaNs.
    pub open spec fn total_rank(self) -> int {
        if self.negative() {
            -(self.code() as int) - 1
        } else {
            self.code() as int
        }
    }

    /// The number with the given bit pattern.
    pub fn from_bits(bits: u32) -> (r: F32)
        ensures
            r.bits == bits,
    {
        F32 { bits }
    }

    /// The bit pattern of this number.
    pub fn to_bits(self) -> (r: u32)
        ensures
            r == self.bits,
    {
        self.bits
    }

    /// Whether this is neither infinite nor a NaN.
    pub fn is_finite(self) -> (r: bool)
        ensures
            r == self.finite(),
    {
        self.bits % SIGN_BIT < INFINITY_CODE
    }

    /// Whether this is a NaN.
    pub fn is_nan(self) -> (r: bool)
        ensures
            r == self.nan(),
    {
        self.bits % SIGN_BIT > INFINITY_CODE
    }

    /// Whether `self < other`.
    pub fn lt(self, other: F32) -> (r: bool)
        ensures
            r == F32::less(self, other),
    {
        if self.is_nan() || other.is_nan() {
            return false;
        }
        let a: u32 = self.bits % SIGN_BIT;
        let b: u32 = other.bits % SIGN_BIT;
        if self.bits >= SIGN_BIT {
            if other.bits >= SIGN_BIT {
                b < a
            } else {
                a > 0 || b > 0
            }
        } else {
            other.bits < SIGN_BIT && a < b
        }
    }

    /// Whether `self == other` as numbers.
    pub fn equals(self, other: F32) -> (r: bool)
        ensures
            r == F32::same_number(self, other),
    {
        if self.is_nan() || other.is_nan() {
            return false;
        }
        self.bits == other.bits || (self.bits % SIGN_BIT == 0 && other.bits % SIGN_BIT == 0)
    }

    /// Whether `self` stands strictly before `other` in the total order.
    pub fn total_lt(self, other: F32) -> (r: bool)
        ensures
            r == (self.total_rank() < other.total_rank()),
    {
        let a: u32 = self.bits % SIGN_BIT;
        let b: u32 = other.bits % SIGN_BIT;
        if self.bits >= SIGN_BIT {
            other.bits < SIGN_BIT || b < a
        } else {
            other.bits < SIGN_BIT && a < b
        }
    }
}

impl PartialEq for F32 {
    fn eq(&self, other: &Self) -> (r: bool) {
        self.equals(*other)
    }
}

impl vstd::std_specs::cmp::PartialEqSpecImpl for F32 {
    open spec fn obeys_eq_spec() -> bool {
        true
    }

    open spec fn eq_spec(&self, other: &Self) -> bool {
        F32::same_number(*self, *other)
    }
}

/// Two bit patterns with one place in the total order are the same: the order
/// is total and strict on distinct patterns.
pub proof fn lemma_total_rank_injective(a: F32, b: F32)
    requires
        a.total_rank() == b.total_rank(),
    ensures
        a == b,
{
}

} // verus!
