//! Floating-point numbers, carried as their bit patterns.
//!
//! [`F64`] and [`F32`] behave as the two binary formats of IEEE 754 do under
//! rounding to nearest. `==` on them compares patterns; the numerical comparisons
//! are the methods `lt`, `le` and `same`.

use crate::ieee;
use vstd::prelude::*;

verus! {

/// Pattern of positive infinity, in 64 bits.
pub const INF64: u64 = 0x7ff0_0000_0000_0000;

/// Pattern of negative infinity, in 64 bits.
pub const NEG_INF64: u64 = 0xfff0_0000_0000_0000;

/// Pattern of positive infinity, in 32 bits.
pub const INF32: u32 = 0x7f80_0000;

/// Pattern of negative infinity, in 32 bits.
pub const NEG_INF32: u32 = 0xff80_0000;

/// Pattern of one half, in 64 bits.
pub const HALF64: u64 = 0x3fe0_0000_0000_0000;

/// Pattern of one, in 64 bits.
pub const ONE64: u64 = 0x3ff0_0000_0000_0000;

/// Pattern of two, in 64 bits.
pub const TWO64: u64 = 0x4000_0000_0000_0000;

/// Pattern of one half, in 32 bits.
pub const HALF32: u32 = 0x3f00_0000;

/// Pattern of one, in 32 bits.
pub const ONE32: u32 = 0x3f80_0000;

/// A 64-bit floating-point number.
#[derive(Clone, Copy, Debug, PartialEq, Eq, Structural)]
pub struct F64 {
    /// The bit pattern.
    pub bits: u64,
}

impl F64 {
    /// The number with the given bit pattern.
    pub open spec fn of(bits: u64) -> F64 {
        F64 { bits: bits }
    }

    /// Whether this is not a number.
    pub open spec fn nan(self) -> bool {
        ieee::double().nan(self.bits)
    }

    /// Whether this is neither infinite nor not a number.
    pub open spec fn finite(self) -> bool {
        ieee::double().finite(self.bits)
    }

    /// The value, in units of the smallest positive one; an infinity stands one
    /// step beyond the largest finite value.
    #[verifier::opaque]
    pub open spec fn rank(self) -> int {
        ieee::double().value(self.bits)
    }

    /// `self < other`.
    pub open spec fn spec_lt(self, other: F64) -> bool {
        !self.nan() && !other.nan() && self.rank() < other.rank()
    }

    /// `self <= other`.
    pub open spec fn spec_le(self, other: F64) -> bool {
        !self.nan() && !other.nan() && self.rank() <= other.rank()
    }

    /// Numerical equality.
    pub open spec fn spec_same(self, other: F64) -> bool {
        !self.nan() && !other.nan() && self.rank() == other.rank()
    }

    /// The larger of the two; where one is not a number, the other one.
    pub open spec fn spec_max(self, other: F64) -> F64 {
        if self.nan() || self.spec_lt(other) {
            other
        } else {
            self
        }
    }

    /// The smaller of the two; where one is not a number, the other one.
    pub open spec fn spec_min(self, other: F64) -> F64 {
        if self.nan() || other.spec_lt(self) {
            other
        } else {
            self
        }
    }

    /// `self + other`.
    #[verifier::opaque]
    pub open spec fn spec_plus(self, other: F64) -> F64 {
        F64::of(ieee::spec_plus(ieee::double(), self.bits, other.bits))
    }

    /// `self - other`.
    #[verifier::opaque]
    pub open spec fn spec_minus(self, other: F64) -> F64 {
        F64::of(ieee::spec_minus(ieee::double(), self.bits, other.bits))
    }

    /// `self * other`.
    #[verifier::opaque]
    pub open spec fn spec_times(self, other: F64) -> F64 {
        F64::of(ieee::spec_times(ieee::double(), self.bits, other.bits))
    }

    /// `self / other`.
    #[verifier::opaque]
    pub open spec fn spec_over(self, other: F64) -> F64 {
        F64::of(ieee::spec_over(ieee::double(), self.bits, other.bits))
    }

    /// `-self`.
    #[verifier::opaque]
    pub open spec fn spec_negate(self) -> F64 {
        F64::of(ieee::spec_neg(ieee::double(), self.bits))
    }

    /// The square root.
    #[verifier::opaque]
    pub open spec fn spec_root(self) -> F64 {
        F64::of(ieee::spec_root(ieee::double(), self.bits))
    }

    /// The number nearest to `n`.
    #[verifier::opaque]
    pub open spec fn spec_from_uint(n: u64) -> F64 {
        F64::of(ieee::spec_from_uint(ieee::double(), n as nat))
    }

    /// The number cut to an unsigned integer of at most `top`; zero below zero and
    /// where this is not a number.
    #[verifier::opaque]
    pub open spec fn spec_to_uint(self, top: u64) -> u64 {
        ieee::spec_to_uint(ieee::double(), self.bits, top as nat) as u64
    }

    /// Whether this is not a number.
    #[verifier::when_used_as_spec(nan)]
    pub fn is_nan(self) -> (r: bool)
        ensures
            r == self.nan(),
    {
        ieee::is_nan(ieee::double(), self.bits)
    }

    /// Whether this is neither infinite nor not a number.
    #[verifier::when_used_as_spec(finite)]
    pub fn is_finite(self) -> (r: bool)
        ensures
            r == self.finite(),
    {
        ieee::is_finite(ieee::double(), self.bits)
    }

    /// `self < other`: false where either is not a number.
    #[verifier::when_used_as_spec(spec_lt)]
    pub fn lt(self, other: F64) -> (r: bool)
        ensures
            r == self.spec_lt(other),
    {
        proof {
            reveal(F64::rank);
        }
        ieee::lt(ieee::double(), self.bits, other.bits)
    }

    /// `self <= other`: false where either is not a number.
    #[verifier::when_used_as_spec(spec_le)]
    pub fn le(self, other: F64) -> (r: bool)
        ensures
            r == self.spec_le(other),
    {
        !self.is_nan() && !other.is_nan() && !other.lt(self)
    }

    /// Numerical equality: false where either is not a number, true of zeros of
    /// both signs.
    #[verifier::when_used_as_spec(spec_same)]
    pub fn same(self, other: F64) -> (r: bool)
        ensures
            r == self.spec_same(other),
    {
        self.le(other) && other.le(self)
    }

    /// The larger of the two; where one is not a number, the other one.
    #[verifier::when_used_as_spec(spec_max)]
    pub fn max(self, other: F64) -> (r: F64)
        ensures
            r == self.spec_max(other),
    {
        if self.is_nan() || self.lt(other) {
            other
        } else {
            self
        }
    }

    /// The smaller of the two; where one is not a number, the other one.
    #[verifier::when_used_as_spec(spec_min)]
    pub fn min(self, other: F64) -> (r: F64)
        ensures
            r == self.spec_min(other),
    {
        if self.is_nan() || other.lt(self) {
            other
        } else {
            self
        }
    }

    /// `self + other`.
    #[verifier::when_used_as_spec(spec_plus)]
    pub fn plus(self, other: F64) -> (r: F64)
        ensures
            r == self.spec_plus(other),
    {
        proof {
            reveal(F64::spec_plus);
        }
        F64 { bits: ieee::plus(ieee::double(), self.bits, other.bits) }
    }

    /// `self - other`.
    #[verifier::when_used_as_spec(spec_minus)]
    pub fn minus(self, other: F64) -> (r: F64)
        ensures
            r == self.spec_minus(other),
    {
        proof {
            reveal(F64::spec_minus);
        }
        F64 { bits: ieee::minus(ieee::double(), self.bits, other.bits) }
    }

    /// `self * other`.
    #[verifier::when_used_as_spec(spec_times)]
    pub fn times(self, other: F64) -> (r: F64)
        ensures
            r == self.spec_times(other),
    {
        proof {
            reveal(F64::spec_times);
        }
        F64 { bits: ieee::times(ieee::double(), self.bits, other.bits) }
    }

    /// `self / other`.
    #[verifier::when_used_as_spec(spec_over)]
    pub fn over(self, other: F64) -> (r: F64)
        ensures
            r == self.spec_over(other),
    {
        proof {
            reveal(F64::spec_over);
        }
        F64 { bits: ieee::over(ieee::double(), self.bits, other.bits) }
    }

    /// `-self`.
    #[verifier::when_used_as_spec(spec_negate)]
    pub fn negate(self) -> (r: F64)
        ensures
            r == self.spec_negate(),
    {
        proof {
            reveal(F64::spec_negate);
        }
        F64 { bits: ieee::negate(ieee::double(), self.bits) }
    }

    /// The square root.
    #[verifier::when_used_as_spec(spec_root)]
    pub fn root(self) -> (r: F64)
        ensures
            r == self.spec_root(),
    {
        proof {
            reveal(F64::spec_root);
        }
        F64 { bits: ieee::root(ieee::double(), self.bits) }
    }

    /// The number nearest to `n`.
    #[verifier::when_used_as_spec(spec_from_uint)]
    pub fn from_uint(n: u64) -> (r: F64)
        ensures
            r == F64::spec_from_uint(n),
    {
        proof {
            reveal(F64::spec_from_uint);
        }
        F64 { bits: ieee::from_uint(ieee::double(), n) }
    }

    /// The number cut to an unsigned integer of at most `top`; zero below zero and
    /// where this is not a number.
    #[verifier::when_used_as_spec(spec_to_uint)]
    pub fn to_uint(self, top: u64) -> (r: u64)
        ensures
            r == self.spec_to_uint(top),
            r <= top,
    {
        proof {
            reveal(F64::spec_to_uint);
        }
        ieee::to_uint(ieee::double(), self.bits, top)
    }

    /// The nearest number of 32 bits.
    #[verifier::opaque]
    pub open spec fn spec_narrow(self) -> F32 {
        F32::of(ieee::spec_convert(ieee::double(), ieee::single(), self.bits))
    }

    /// The nearest number of 32 bits.
    #[verifier::when_used_as_spec(spec_narrow)]
    pub fn narrow(self) -> (r: F32)
        ensures
            r == self.spec_narrow(),
    {
        proof {
            reveal(F64::spec_narrow);
        }
        F32 { bits: ieee::convert(ieee::double(), ieee::single(), self.bits) as u32 }
    }
}

/// A 32-bit floating-point number.
#[derive(Clone, Copy, Debug, PartialEq, Eq, Structural)]
pub struct F32 {
    /// The bit pattern.
    pub bits: u32,
}

impl F32 {
    /// The number with the given bit pattern.
    pub open spec fn of(bits: u64) -> F32 {
        F32 { bits: bits as u32 }
    }

    /// Whether this is not a number.
    pub open spec fn nan(self) -> bool {
        ieee::single().nan(self.bits as u64)
    }

    /// Whether this is neither infinite nor not a number.
    pub open spec fn finite(self) -> bool {
        ieee::single().finite(self.bits as u64)
    }

    /// The value, in units of the smallest positive one; an infinity stands one
    /// step beyond the largest finite value.
    #[verifier::opaque]
    pub open spec fn rank(self) -> int {
        ieee::single().value(self.bits as u64)
    }

    /// `self < other`.
    pub open spec fn spec_lt(self, other: F32) -> bool {
        !self.nan() && !other.nan() && self.rank() < other.rank()
    }

    /// `self <= other`.
    pub open spec fn spec_le(self, other: F32) -> bool {
        !self.nan() && !other.nan() && self.rank() <= other.rank()
    }

    /// Numerical equality.
    pub open spec fn spec_same(self, other: F32) -> bool {
        !self.nan() && !other.nan() && self.rank() == other.rank()
    }

    /// The larger of the two; where one is not a number, the other one.
    pub open spec fn spec_max(self, other: F32) -> F32 {
        if self.nan() || self.spec_lt(other) {
            other
        } else {
            self
        }
    }

    /// The smaller of the two; where one is not a number, the other one.
    pub open spec fn spec_min(self, other: F32) -> F32 {
        if self.nan() || other.spec_lt(self) {
            other
        } else {
            self
        }
    }

    /// `self + other`.
    #[verifier::opaque]
    pub open spec fn spec_plus(self, other: F32) -> F32 {
        F32::of(ieee::spec_plus(ieee::single(), self.bits as u64, other.bits as u64))
    }

    /// `self - other`.
    #[verifier::opaque]
    pub open spec fn spec_minus(self, other: F32) -> F32 {
        F32::of(ieee::spec_minus(ieee::single(), self.bits as u64, other.bits as u64))
    }

    /// `self * other`.
    #[verifier::opaque]
    pub open spec fn spec_times(self, other: F32) -> F32 {
        F32::of(ieee::spec_times(ieee::single(), self.bits as u64, other.bits as u64))
    }

    /// `self / other`.
    #[verifier::opaque]
    pub open spec fn spec_over(self, other: F32) -> F32 {
        F32::of(ieee::spec_over(ieee::single(), self.bits as u64, other.bits as u64))
    }

    /// `-self`.
    #[verifier::opaque]
    pub open spec fn spec_negate(self) -> F32 {
        F32::of(ieee::spec_neg(ieee::single(), self.bits as u64))
    }

    /// The square root.
    #[verifier::opaque]
    pub open spec fn spec_root(self) -> F32 {
        F32::of(ieee::spec_root(ieee::single(), self.bits as u64))
    }

    /// The number nearest to `n`.
    #[verifier::opaque]
    pub open spec fn spec_from_uint(n: u64) -> F32 {
        F32::of(ieee::spec_from_uint(ieee::single(), n as nat))
    }

    /// The number cut to an unsigned integer of at most `top`; zero below zero and
    /// where this is not a number.
    #[verifier::opaque]
    pub open spec fn spec_to_uint(self, top: u64) -> u64 {
        ieee::spec_to_uint(ieee::single(), self.bits as u64, top as nat) as u64
    }

    /// Whether this is not a number.
    #[verifier::when_used_as_spec(nan)]
    pub fn is_nan(self) -> (r: bool)
        ensures
            r == self.nan(),
    {
        ieee::is_nan(ieee::single(), self.bits as u64)
    }

    /// Whether this is neither infinite nor not a number.
    #[verifier::when_used_as_spec(finite)]
    pub fn is_finite(self) -> (r: bool)
        ensures
            r == self.finite(),
    {
        ieee::is_finite(ieee::single(), self.bits as u64)
    }

    /// `self < other`: false where either is not a number.
    #[verifier::when_used_as_spec(spec_lt)]
    pub fn lt(self, other: F32) -> (r: bool)
        ensures
            r == self.spec_lt(other),
    {
        proof {
            reveal(F32::rank);
        }
        ieee::lt(ieee::single(), self.bits as u64, other.bits as u64)
    }

    /// `self <= other`: false where either is not a number.
    #[verifier::when_used_as_spec(spec_le)]
    pub fn le(self, other: F32) -> (r: bool)
        ensures
            r == self.spec_le(other),
    {
        !self.is_nan() && !other.is_nan() && !other.lt(self)
    }

    /// Numerical equality: false where either is not a number, true of zeros of
    /// both signs.
    #[verifier::when_used_as_spec(spec_same)]
    pub fn same(self, other: F32) -> (r: bool)
        ensures
            r == self.spec_same(other),
    {
        self.le(other) && other.le(self)
    }

    /// The larger of the two; where one is not a number, the other one.
    #[verifier::when_used_as_spec(spec_max)]
    pub fn max(self, other: F32) -> (r: F32)
        ensures
            r == self.spec_max(other),
    {
        if self.is_nan() || self.lt(other) {
            other
        } else {
            self
        }
    }

    /// The smaller of the two; where one is not a number, the other one.
    #[verifier::when_used_as_spec(spec_min)]
    pub fn min(self, other: F32) -> (r: F32)
        ensures
            r == self.spec_min(other),
    {
        if self.is_nan() || other.lt(self) {
            other
        } else {
            self
        }
    }

    /// `self + other`.
    #[verifier::when_used_as_spec(spec_plus)]
    pub fn plus(self, other: F32) -> (r: F32)
        ensures
            r == self.spec_plus(other),
    {
        proof {
            reveal(F32::spec_plus);
        }
        F32 { bits: ieee::plus(ieee::single(), self.bits as u64, other.bits as u64) as u32 }
    }

    /// `self - other`.
    #[verifier::when_used_as_spec(spec_minus)]
    pub fn minus(self, other: F32) -> (r: F32)
        ensures
            r == self.spec_minus(other),
    {
        proof {
            reveal(F32::spec_minus);
        }
        F32 { bits: ieee::minus(ieee::single(), self.bits as u64, other.bits as u64) as u32 }
    }

    /// `self * other`.
    #[verifier::when_used_as_spec(spec_times)]
    pub fn times(self, other: F32) -> (r: F32)
        ensures
            r == self.spec_times(other),
    {
        proof {
            reveal(F32::spec_times);
        }
        F32 { bits: ieee::times(ieee::single(), self.bits as u64, other.bits as u64) as u32 }
    }

    /// `self / other`.
    #[verifier::when_used_as_spec(spec_over)]
    pub fn over(self, other: F32) -> (r: F32)
        ensures
            r == self.spec_over(other),
    {
        proof {
            reveal(F32::spec_over);
        }
        F32 { bits: ieee::over(ieee::single(), self.bits as u64, other.bits as u64) as u32 }
    }

    /// `-self`.
    #[verifier::when_used_as_spec(spec_negate)]
    pub fn negate(self) -> (r: F32)
        ensures
            r == self.spec_negate(),
    {
        proof {
            reveal(F32::spec_negate);
        }
        F32 { bits: ieee::negate(ieee::single(), self.bits as u64) as u32 }
    }

    /// The square root.
    #[verifier::when_used_as_spec(spec_root)]
    pub fn root(self) -> (r: F32)
        ensures
            r == self.spec_root(),
    {
        proof {
            reveal(F32::spec_root);
        }
        F32 { bits: ieee::root(ieee::single(), self.bits as u64) as u32 }
    }

    /// The number nearest to `n`.
    #[verifier::when_used_as_spec(spec_from_uint)]
    pub fn from_uint(n: u64) -> (r: F32)
        ensures
            r == F32::spec_from_uint(n),
    {
        proof {
            reveal(F32::spec_from_uint);
        }
        F32 { bits: ieee::from_uint(ieee::single(), n) as u32 }
    }

    /// The number cut to an unsigned integer of at most `top`; zero below zero and
    /// where this is not a number.
    #[verifier::when_used_as_spec(spec_to_uint)]
    pub fn to_uint(self, top: u64) -> (r: u64)
        ensures
            r == self.spec_to_uint(top),
            r <= top,
    {
        proof {
            reveal(F32::spec_to_uint);
        }
        ieee::to_uint(ieee::single(), self.bits as u64, top)
    }

    /// The same number in 64 bits.
    #[verifier::opaque]
    pub open spec fn spec_widen(self) -> F64 {
        F64::of(ieee::spec_convert(ieee::single(), ieee::double(), self.bits as u64))
    }

    /// The same number in 64 bits.
    #[verifier::when_used_as_spec(spec_widen)]
    pub fn widen(self) -> (r: F64)
        ensures
            r == self.spec_widen(),
    {
        proof {
            reveal(F32::spec_widen);
        }
        F64 { bits: ieee::convert(ieee::single(), ieee::double(), self.bits as u64) }
    }

    /// The nearest integer, halves away from zero, held to 32 signed bits; zero
    /// where this is not a number.
    #[verifier::opaque]
    pub open spec fn spec_round_int(self) -> i32 {
        let f = ieee::single();
        let x = self.bits as u64;
        if f.neg(x) {
            (-(ieee::spec_round_mag(f, x, 0x8000_0000) as int)) as i32
        } else {
            ieee::spec_round_mag(f, x, 0x7fff_ffff) as i32
        }
    }

    /// The nearest integer, halves away from zero, held to 32 signed bits; zero
    /// where this is not a number.
    #[verifier::when_used_as_spec(spec_round_int)]
    pub fn round_int(self) -> (r: i32)
        ensures
            r == self.spec_round_int(),
    {
        proof {
            reveal(F32::spec_round_int);
        }
        let x: u64 = self.bits as u64;
        if self.bits >= 0x8000_0000 {
            let m: u64 = ieee::round_mag(ieee::single(), x, 0x8000_0000);
            (-(m as i64)) as i32
        } else {
            ieee::round_mag(ieee::single(), x, 0x7fff_ffff) as i32
        }
    }

    /// The nearest integer, halves away from zero, as an unsigned one of 32 bits.
    #[verifier::opaque]
    pub open spec fn spec_round_uint(self) -> u32 {
        let f = ieee::single();
        let x = self.bits as u64;
        if f.neg(x) {
            0
        } else {
            ieee::spec_round_mag(f, x, 0xffff_ffff) as u32
        }
    }

    /// The nearest integer, halves away from zero, as an unsigned one of 32 bits.
    #[verifier::when_used_as_spec(spec_round_uint)]
    pub fn round_uint(self) -> (r: u32)
        ensures
            r == self.spec_round_uint(),
    {
        proof {
            reveal(F32::spec_round_uint);
        }
        if self.bits >= 0x8000_0000 {
            0
        } else {
            ieee::round_mag(ieee::single(), self.bits as u64, 0xffff_ffff) as u32
        }
    }
}

} // verus!
