//! How the arithmetic carries inequalities over.

use crate::float::{F32, F64};
use crate::ieee;
use crate::ieee::Format;
use crate::monotone;
use crate::rounding;
use vstd::arithmetic::power2::*;
use vstd::prelude::*;

verus! {

/// The value that `s / den` units are rounded to, in units.
pub open spec fn rounded(f: Format, s: int, den: nat) -> int {
    let u = rounding::units(
        f.precision as nat,
        rounding::round_mag(f.precision as nat, f.inf as nat, ieee::abs_of(s), den),
    ) as int;
    if s < 0 {
        -u
    } else {
        u
    }
}

/// Rounding keeps order.
pub proof fn lemma_rounded_ordered(f: Format, a: int, b: int, den: nat)
    requires
        f.wf(),
        den > 0,
        a <= b,
    ensures
        rounded(f, a, den) <= rounded(f, b, den),
{
    let p = f.precision as nat;
    let inf = f.inf as nat;
    let x = ieee::abs_of(a);
    let y = ieee::abs_of(b);
    if a < 0 && b < 0 {
        monotone::lemma_round_ordered(p, inf, y, x, den);
        monotone::lemma_units_ordered(
            p,
            rounding::round_mag(p, inf, y, den),
            rounding::round_mag(p, inf, x, den),
        );
    } else if 0 <= a {
        monotone::lemma_round_ordered(p, inf, x, y, den);
        monotone::lemma_units_ordered(
            p,
            rounding::round_mag(p, inf, x, den),
            rounding::round_mag(p, inf, y, den),
        );
    }
}

pub proof fn lemma_signed(f: Format, neg: bool, m: nat)
    requires
        f.wf(),
        m <= f.inf,
    ensures
        !f.nan(f.signed(neg, m)),
        f.fits(f.signed(neg, m)),
        f.neg(f.signed(neg, m)) == neg,
        f.mag(f.signed(neg, m)) == m,
        f.value(f.signed(neg, m)) == if neg {
            -(rounding::units(f.precision as nat, m) as int)
        } else {
            rounding::units(f.precision as nat, m) as int
        },
{
}

/// The sum of finite numbers.
pub proof fn lemma_plus_value(f: Format, x: u64, y: u64)
    requires
        f.wf(),
        f.finite(x),
        f.finite(y),
    ensures
        !f.nan(ieee::spec_plus(f, x, y)),
        f.fits(ieee::spec_plus(f, x, y)),
        f.value(ieee::spec_plus(f, x, y)) == rounded(f, f.value(x) + f.value(y), 1),
{
    let p = f.precision as nat;
    let inf = f.inf as nat;
    let s = f.value(x) + f.value(y);
    if s == 0 {
        monotone::lemma_round_zero(p, inf, 1);
        monotone::lemma_units_zero(p);
        lemma_signed(f, f.neg(x) && f.neg(y), 0);
    } else {
        lemma_signed(f, s < 0, rounding::round_mag(p, inf, ieee::abs_of(s), 1));
    }
}

pub proof fn lemma_abs_times(v: int, c: nat)
    requires
        c > 0,
    ensures
        ieee::abs_of(v * c) == ieee::abs_of(v) * c,
        v < 0 <==> v * c < 0,
        v == 0 <==> v * c == 0,
{
    assert(v < 0 ==> v * c < 0) by (nonlinear_arith)
        requires
            c > 0,
    ;
    assert(v > 0 ==> v * c > 0) by (nonlinear_arith)
        requires
            c > 0,
    ;
    assert((-v) * c == -(v * c)) by (nonlinear_arith);
    assert(v == 0 ==> v * c == 0) by (nonlinear_arith);
}

/// The product of a finite number and a positive one.
pub proof fn lemma_times_value(f: Format, x: u64, c: u64)
    requires
        f.wf(),
        f.finite(x),
        f.finite(c),
        f.value(c) > 0,
    ensures
        !f.nan(ieee::spec_times(f, x, c)),
        f.fits(ieee::spec_times(f, x, c)),
        f.value(ieee::spec_times(f, x, c)) == rounded(
            f,
            f.value(x) * f.units(c),
            pow2(f.unit as nat),
        ),
{
    let p = f.precision as nat;
    let inf = f.inf as nat;
    let d = pow2(f.unit as nat);
    lemma_pow2_pos(f.unit as nat);
    monotone::lemma_sign(f, x);
    monotone::lemma_sign(f, c);
    let n = f.units(x) * f.units(c);
    lemma_abs_times(f.value(x), f.units(c));
    lemma_signed(f, f.neg(x), rounding::round_mag(p, inf, n, d));
    if f.value(x) == 0 {
        monotone::lemma_round_zero(p, inf, d);
        monotone::lemma_units_zero(p);
    }
}

/// The quotient of a finite number and a positive one.
pub proof fn lemma_over_value(f: Format, x: u64, c: u64)
    requires
        f.wf(),
        f.finite(x),
        f.finite(c),
        f.value(c) > 0,
    ensures
        !f.nan(ieee::spec_over(f, x, c)),
        f.fits(ieee::spec_over(f, x, c)),
        f.value(ieee::spec_over(f, x, c)) == rounded(
            f,
            f.value(x) * pow2(f.unit as nat),
            f.units(c),
        ),
{
    let p = f.precision as nat;
    let inf = f.inf as nat;
    let d = pow2(f.unit as nat);
    lemma_pow2_pos(f.unit as nat);
    monotone::lemma_sign(f, x);
    monotone::lemma_sign(f, c);
    let n = f.units(x) * d;
    lemma_abs_times(f.value(x), d);
    lemma_signed(f, f.neg(x), rounding::round_mag(p, inf, n, f.units(c)));
    if f.value(x) == 0 {
        monotone::lemma_round_zero(p, inf, f.units(c));
        monotone::lemma_units_zero(p);
    }
}

/// No number lies beyond the infinities.
proof fn lemma_within_infinities(f: Format, x: u64)
    requires
        f.wf(),
        !f.nan(x),
    ensures
        -(rounding::units(f.precision as nat, f.inf as nat) as int) <= f.value(x),
        f.value(x) <= rounding::units(f.precision as nat, f.inf as nat),
        f.infinite(x) <==> f.units(x) == rounding::units(f.precision as nat, f.inf as nat),
        rounding::units(f.precision as nat, f.inf as nat) > 0,
{
    let p = f.precision as nat;
    monotone::lemma_units_ordered(p, f.mag(x) as nat, f.inf as nat);
    if f.mag(x) < f.inf {
        ieee::lemma_units_increase(p, f.mag(x) as nat, f.inf as nat);
    }
    ieee::lemma_units_increase(p, 0, f.inf as nat);
    monotone::lemma_units_zero(p);
}

/// Whether a sum is a number.
pub open spec fn addable(f: Format, x: u64, y: u64) -> bool {
    !f.nan(x) && !f.nan(y) && !(f.infinite(x) && f.infinite(y) && f.neg(x) != f.neg(y))
}

/// The sum of larger numbers is no smaller.
pub proof fn lemma_plus_isotone(f: Format, x: u64, y: u64, v: u64, w: u64)
    requires
        f.wf(),
        f.fits(x),
        f.fits(y),
        f.fits(v),
        f.fits(w),
        addable(f, x, y),
        addable(f, v, w),
        f.value(x) <= f.value(v),
        f.value(y) <= f.value(w),
    ensures
        !f.nan(ieee::spec_plus(f, x, y)),
        !f.nan(ieee::spec_plus(f, v, w)),
        f.value(ieee::spec_plus(f, x, y)) <= f.value(ieee::spec_plus(f, v, w)),
{
    lemma_within_infinities(f, x);
    lemma_within_infinities(f, y);
    lemma_within_infinities(f, v);
    lemma_within_infinities(f, w);
    monotone::lemma_plus_ordered(f, x, y);
    monotone::lemma_plus_ordered(f, v, w);
    lemma_within_infinities(f, ieee::spec_plus(f, x, y));
    lemma_within_infinities(f, ieee::spec_plus(f, v, w));
    if f.finite(x) && f.finite(y) && f.finite(v) && f.finite(w) {
        lemma_plus_value(f, x, y);
        lemma_plus_value(f, v, w);
        lemma_rounded_ordered(f, f.value(x) + f.value(y), f.value(v) + f.value(w), 1);
    }
}

/// The product of a larger number and a positive one is no smaller.
pub proof fn lemma_times_isotone(f: Format, x: u64, v: u64, c: u64)
    requires
        f.wf(),
        f.fits(x),
        f.fits(v),
        !f.nan(x),
        !f.nan(v),
        f.finite(c),
        f.value(c) > 0,
        f.value(x) <= f.value(v),
    ensures
        !f.nan(ieee::spec_times(f, x, c)),
        !f.nan(ieee::spec_times(f, v, c)),
        f.value(ieee::spec_times(f, x, c)) <= f.value(ieee::spec_times(f, v, c)),
{
    monotone::lemma_sign(f, c);
    lemma_within_infinities(f, x);
    lemma_within_infinities(f, v);
    let inf = f.inf as nat;
    lemma_signed(f, true, inf);
    lemma_signed(f, false, inf);
    if f.finite(x) {
        lemma_times_value(f, x, c);
        lemma_within_infinities(f, ieee::spec_times(f, x, c));
    }
    if f.finite(v) {
        lemma_times_value(f, v, c);
        lemma_within_infinities(f, ieee::spec_times(f, v, c));
    }
    if f.finite(x) && f.finite(v) {
        let u = f.units(c) as int;
        let a = f.value(x);
        let b = f.value(v);
        assert(a * u <= b * u) by (nonlinear_arith)
            requires
                a <= b,
                u >= 0,
        ;
        lemma_pow2_pos(f.unit as nat);
        lemma_rounded_ordered(f, a * u, b * u, pow2(f.unit as nat));
    }
}

/// The quotient of a larger number and a positive one is no smaller.
pub proof fn lemma_over_isotone(f: Format, x: u64, v: u64, c: u64)
    requires
        f.wf(),
        f.fits(x),
        f.fits(v),
        !f.nan(x),
        !f.nan(v),
        f.finite(c),
        f.value(c) > 0,
        f.value(x) <= f.value(v),
    ensures
        !f.nan(ieee::spec_over(f, x, c)),
        !f.nan(ieee::spec_over(f, v, c)),
        f.value(ieee::spec_over(f, x, c)) <= f.value(ieee::spec_over(f, v, c)),
{
    monotone::lemma_sign(f, c);
    lemma_within_infinities(f, x);
    lemma_within_infinities(f, v);
    let inf = f.inf as nat;
    lemma_signed(f, true, inf);
    lemma_signed(f, false, inf);
    if f.finite(x) {
        lemma_over_value(f, x, c);
        lemma_within_infinities(f, ieee::spec_over(f, x, c));
    }
    if f.finite(v) {
        lemma_over_value(f, v, c);
        lemma_within_infinities(f, ieee::spec_over(f, v, c));
    }
    if f.finite(x) && f.finite(v) {
        let u = pow2(f.unit as nat) as int;
        let a = f.value(x);
        let b = f.value(v);
        lemma_pow2_pos(f.unit as nat);
        assert(a * u <= b * u) by (nonlinear_arith)
            requires
                a <= b,
                u >= 0,
        ;
        lemma_rounded_ordered(f, a * u, b * u, f.units(c));
    }
}

/// The negative of a number.
pub proof fn lemma_neg_value(f: Format, x: u64)
    requires
        f.wf(),
        f.fits(x),
    ensures
        f.fits(ieee::spec_neg(f, x)),
        f.mag(ieee::spec_neg(f, x)) == f.mag(x),
        f.neg(ieee::spec_neg(f, x)) != f.neg(x),
        f.value(ieee::spec_neg(f, x)) == -f.value(x),
{
}

impl F64 {
    /// Where a number grows and another shrinks, their difference does not shrink.
    pub proof fn law_minus_isotone(self, less: F64, other: F64, taken: F64)
        requires
            self.finite(),
            other.finite(),
            self.le(other),
            taken.le(less),
        ensures
            self.minus(less).le(other.minus(taken)),
    {
        reveal(F64::rank);
        reveal(F64::spec_minus);
        let f = ieee::double();
        lemma_neg_value(f, less.bits);
        lemma_neg_value(f, taken.bits);
        lemma_plus_isotone(
            f,
            self.bits,
            ieee::spec_neg(f, less.bits),
            other.bits,
            ieee::spec_neg(f, taken.bits),
        );
    }

    /// The product of a larger number and a positive one is no smaller.
    pub proof fn law_times_isotone(self, other: F64, by: F64)
        requires
            self.le(other),
            by.finite(),
            by.rank() > 0,
        ensures
            self.times(by).le(other.times(by)),
    {
        reveal(F64::rank);
        reveal(F64::spec_times);
        lemma_times_isotone(ieee::double(), self.bits, other.bits, by.bits);
    }

    /// The quotient of a larger number and a positive one is no smaller.
    pub proof fn law_over_isotone(self, other: F64, by: F64)
        requires
            self.le(other),
            by.finite(),
            by.rank() > 0,
        ensures
            self.over(by).le(other.over(by)),
    {
        reveal(F64::rank);
        reveal(F64::spec_over);
        lemma_over_isotone(ieee::double(), self.bits, other.bits, by.bits);
    }
}

impl F32 {
    /// Where a number grows and another shrinks, their difference does not shrink.
    pub proof fn law_minus_isotone(self, less: F32, other: F32, taken: F32)
        requires
            self.finite(),
            other.finite(),
            self.le(other),
            taken.le(less),
        ensures
            self.minus(less).le(other.minus(taken)),
    {
        reveal(F32::rank);
        reveal(F32::spec_minus);
        let f = ieee::single();
        lemma_neg_value(f, less.bits as u64);
        lemma_neg_value(f, taken.bits as u64);
        lemma_plus_isotone(
            f,
            self.bits as u64,
            ieee::spec_neg(f, less.bits as u64),
            other.bits as u64,
            ieee::spec_neg(f, taken.bits as u64),
        );
    }

    /// The sum of larger numbers, one of them finite, is no smaller.
    pub proof fn law_plus_isotone(self, more: F32, other: F32, given: F32)
        requires
            self.finite(),
            other.finite(),
            self.le(other),
            more.le(given),
        ensures
            self.plus(more).le(other.plus(given)),
    {
        reveal(F32::rank);
        reveal(F32::spec_plus);
        let f = ieee::single();
        lemma_plus_isotone(
            f,
            self.bits as u64,
            more.bits as u64,
            other.bits as u64,
            given.bits as u64,
        );
    }

    /// The product of a larger number and a positive one is no smaller.
    pub proof fn law_times_isotone(self, other: F32, by: F32)
        requires
            self.le(other),
            by.finite(),
            by.rank() > 0,
        ensures
            self.times(by).le(other.times(by)),
    {
        reveal(F32::rank);
        reveal(F32::spec_times);
        lemma_times_isotone(ieee::single(), self.bits as u64, other.bits as u64, by.bits as u64);
    }
}

} // verus!
