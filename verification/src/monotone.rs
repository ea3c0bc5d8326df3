//! How the arithmetic keeps the order of numbers.

use crate::float::{F32, F64, INF32, NEG_INF32};
use crate::ieee;
use crate::ieee::Format;
use crate::rounding;
use vstd::arithmetic::div_mod::*;
use vstd::arithmetic::power2::*;
use vstd::prelude::*;

verus! {

/// Rounding to an integer keeps order.
proof fn lemma_half_even_ordered(a: nat, b: nat, den: nat)
    requires
        den > 0,
        a <= b,
    ensures
        rounding::half_even(a, den) <= rounding::half_even(b, den),
{
    lemma_fundamental_div_mod(a as int, den as int);
    lemma_fundamental_div_mod(b as int, den as int);
    lemma_div_is_ordered(a as int, b as int, den as int);
    let qa = a / den;
    let qb = b / den;
    if qa == qb {
        assert(a % den <= b % den);
    }
}

/// Rounding a quotient goes no further than the bounds that it lies between.
pub proof fn lemma_half_even_bounds(n: nat, den: nat, lo: nat, hi: nat)
    requires
        den > 0,
        lo * den <= n <= hi * den,
    ensures
        lo <= rounding::half_even(n, den) <= hi,
{
    assert((lo * den) / den == lo && (lo * den) % den == 0) by {
        lemma_fundamental_div_mod_converse((lo * den) as int, den as int, lo as int, 0);
    }
    assert((hi * den) / den == hi && (hi * den) % den == 0) by {
        lemma_fundamental_div_mod_converse((hi * den) as int, den as int, hi as int, 0);
    }
    lemma_half_even_ordered((lo * den) as nat, n, den);
    lemma_half_even_ordered(n, (hi * den) as nat, den);
}

/// Rounding to a magnitude keeps order.
pub proof fn lemma_round_ordered(p: nat, inf: nat, a: nat, b: nat, den: nat)
    requires
        p > 0,
        den > 0,
        a <= b,
    ensures
        rounding::round_mag(p, inf, a, den) <= rounding::round_mag(p, inf, b, den),
{
    let h = pow2((p - 1) as nat);
    let w = den * pow2(p);
    lemma_pow2_pos(p);
    lemma_pow2_pos((p - 1) as nat);
    lemma_pow2_unfold(p);
    assert(w > 0) by (nonlinear_arith)
        requires
            w == den * pow2(p),
            den > 0,
            pow2(p) > 0,
    ;
    let ka = rounding::shift_for(a, w);
    let kb = rounding::shift_for(b, w);
    rounding::lemma_shift_bounds(a, w);
    rounding::lemma_shift_bounds(b, w);
    lemma_pow2_pos(ka);
    lemma_pow2_pos(kb);
    let pa = pow2(ka);
    let pb = pow2(kb);
    let da = den * pa;
    let db = den * pb;
    assert(da > 0 && db > 0) by (nonlinear_arith)
        requires
            da == den * pa,
            db == den * pb,
            den > 0,
            pa > 0,
            pb > 0,
    ;
    if ka == kb {
        lemma_half_even_ordered(a, b, da);
    } else {
        if kb < ka {
            rounding::lemma_pow2_mono(kb, (ka - 1) as nat);
            let pc = pow2((ka - 1) as nat);
            assert(w * pb <= w * pc) by (nonlinear_arith)
                requires
                    pb <= pc,
            ;
        }
        assert(ka < kb);
        lemma_pow2_unfold(kb);
        let pc = pow2((kb - 1) as nat);
        assert(w * pc == h * db && w * pb == (2 * h) * db && w * pa == (2 * h) * da)
            by (nonlinear_arith)
            requires
                w == den * (2 * h),
                pb == 2 * pc,
                db == den * pb,
                da == den * pa,
        ;
        lemma_half_even_bounds(a, da, 0, 2 * h);
        lemma_half_even_bounds(b, db, h, 2 * h);
        assert(ka * h + 2 * h <= kb * h + h) by (nonlinear_arith)
            requires
                ka + 1 <= kb,
        ;
    }
}

/// The magnitude of a significand and an exponent.
pub proof fn lemma_units_of(p: nat, k: nat, m: nat)
    requires
        p > 0,
        pow2((p - 1) as nat) <= m <= 2 * pow2((p - 1) as nat),
    ensures
        rounding::units(p, k * pow2((p - 1) as nat) + m) == m * pow2(k),
{
    let h = pow2((p - 1) as nat);
    lemma_pow2_pos((p - 1) as nat);
    let mag = k * h + m;
    assert(mag >= h) by (nonlinear_arith)
        requires
            mag == k * h + m,
            m >= h,
    ;
    if m < 2 * h {
        assert(mag == h * (k + 1) + (m - h)) by (nonlinear_arith)
            requires
                mag == k * h + m,
        ;
        lemma_fundamental_div_mod_converse(mag as int, h as int, (k + 1) as int, (m - h) as int);
    } else {
        assert(mag == h * (k + 2) + 0) by (nonlinear_arith)
            requires
                mag == k * h + m,
                m == 2 * h,
        ;
        lemma_fundamental_div_mod_converse(mag as int, h as int, (k + 2) as int, 0);
        lemma_pow2_unfold(k + 1);
        let c = pow2(k);
        assert(h * (2 * c) == (2 * h) * c) by (nonlinear_arith);
    }
}

/// Rounding changes a quotient that is not below the normal range by no more than one
/// part in `2^p`.
pub proof fn lemma_round_error(p: nat, inf: nat, num: nat, den: nat)
    requires
        p > 0,
        den > 0,
        num >= den * pow2((p - 1) as nat),
        rounding::round_mag(p, inf, num, den) < inf,
    ensures
        ({
            let u = rounding::units(p, rounding::round_mag(p, inf, num, den));
            &&& (u * den) * pow2(p) <= num * (pow2(p) + 1)
            &&& (u * den) * pow2(p) >= num * (pow2(p) - 1)
        }),
{
    let h = pow2((p - 1) as nat);
    let pp = pow2(p);
    let w = den * pp;
    lemma_pow2_pos(p);
    lemma_pow2_pos((p - 1) as nat);
    lemma_pow2_unfold(p);
    assert(w > 0) by (nonlinear_arith)
        requires
            w == den * pp,
            den > 0,
            pp > 0,
    ;
    let k = rounding::shift_for(num, w);
    rounding::lemma_shift_bounds(num, w);
    let c = pow2(k);
    lemma_pow2_pos(k);
    let d = den * c;
    assert(d > 0) by (nonlinear_arith)
        requires
            d == den * c,
            den > 0,
            c > 0,
    ;
    assert(w * c == (2 * h) * d) by (nonlinear_arith)
        requires
            w == den * pp,
            pp == 2 * h,
            d == den * c,
    ;
    if k > 0 {
        lemma_pow2_unfold(k);
        let e = pow2((k - 1) as nat);
        assert(w * e == h * d) by (nonlinear_arith)
            requires
                w == den * pp,
                pp == 2 * h,
                d == den * c,
                c == 2 * e,
        ;
    } else {
        lemma2_to64();
        assert(h * d == den * h) by (nonlinear_arith)
            requires
                d == den * c,
                c == 1,
        ;
    }
    assert(h * d <= num);
    let m = rounding::half_even(num, d);
    lemma_half_even_bounds(num, d, h, 2 * h);
    lemma_fundamental_div_mod(num as int, d as int);
    let q = num / d;
    let r = num % d;
    assert(2 * (m * d) <= 2 * num + d && 2 * (m * d) >= 2 * num - d) by (nonlinear_arith)
        requires
            num == d * q + r,
            0 <= r < d,
            m == q || m == q + 1,
            m == q ==> 2 * r <= d,
            m == q + 1 ==> 2 * r >= d,
    ;
    lemma_units_of(p, k, m);
    let u = m * c;
    assert(u * den == m * d) by (nonlinear_arith)
        requires
            u == m * c,
            d == den * c,
    ;
    assert((m * d) * pp <= num * (pp + 1) && (m * d) * pp >= num * (pp - 1)) by (nonlinear_arith)
        requires
            2 * (m * d) <= 2 * num + d,
            2 * (m * d) >= 2 * num - d,
            h * d <= num,
            pp == 2 * h,
            pp > 0,
    ;
}

/// A magnitude rounds to itself.
pub proof fn lemma_round_exact(p: nat, inf: nat, m: nat)
    requires
        p > 0,
        m < inf,
    ensures
        rounding::round_mag(p, inf, rounding::units(p, m), 1) == m,
{
    let h = pow2((p - 1) as nat);
    let w = pow2(p);
    lemma_pow2_pos(p);
    lemma_pow2_pos((p - 1) as nat);
    lemma_pow2_unfold(p);
    assert(1 * w == w);
    if m < h {
        lemma2_to64();
        assert(w * pow2(0) == w) by (nonlinear_arith)
            requires
                pow2(0) == 1,
        ;
        rounding::lemma_shift_for(m, w, 0);
        assert(1 * pow2(0) == 1);
        assert(m / 1 == m && m % 1 == 0);
        assert(0 * h == 0);
    } else {
        let f = m / h;
        let low = m % h;
        lemma_fundamental_div_mod(m as int, h as int);
        assert(f >= 1) by (nonlinear_arith)
            requires
                m == h * f + low,
                m >= h,
                low < h,
        ;
        let k = (f - 1) as nat;
        let d = pow2(k);
        lemma_pow2_pos(k);
        let u = (h + low) * d;
        assert(u < w * d) by (nonlinear_arith)
            requires
                u == (h + low) * d,
                low < h,
                w == 2 * h,
                d > 0,
        ;
        if k > 0 {
            let c = pow2((k - 1) as nat);
            lemma_pow2_unfold(k);
            assert(u >= w * c) by (nonlinear_arith)
                requires
                    u == (h + low) * d,
                    w == 2 * h,
                    d == 2 * c,
                    low >= 0,
            ;
        }
        rounding::lemma_shift_for(u, w, k);
        assert(1 * d == d);
        lemma_fundamental_div_mod_converse(u as int, d as int, (h + low) as int, 0);
        assert(k * h + (h + low) == m) by (nonlinear_arith)
            requires
                m == h * f + low,
                k == f - 1,
        ;
    }
}

/// A magnitude, given as a fraction, rounds to itself.
pub proof fn lemma_round_exact_over(p: nat, inf: nat, m: nat, den: nat)
    requires
        p > 0,
        den > 0,
        m < inf,
    ensures
        rounding::round_mag(p, inf, rounding::units(p, m) * den, den) == m,
{
    lemma_round_exact(p, inf, m);
    rounding::lemma_round_scale(p, inf, rounding::units(p, m), 1, den);
    assert(1 * den == den);
}

/// A magnitude that is no larger stands for a value that is no larger.
pub proof fn lemma_units_ordered(p: nat, a: nat, b: nat)
    requires
        p > 0,
        a <= b,
    ensures
        rounding::units(p, a) <= rounding::units(p, b),
{
    if a < b {
        ieee::lemma_units_increase(p, a, b);
    }
}

/// Adding what is not negative takes a number no lower, and adding what is not
/// positive takes it no higher.
pub proof fn lemma_plus_ordered(f: Format, x: u64, y: u64)
    requires
        f.wf(),
        f.fits(x),
        f.fits(y),
        !f.nan(x),
        !f.nan(y),
        !(f.infinite(x) && f.infinite(y) && f.neg(x) != f.neg(y)),
    ensures
        !f.nan(ieee::spec_plus(f, x, y)),
        f.value(y) >= 0 ==> f.value(x) <= f.value(ieee::spec_plus(f, x, y)),
        f.value(y) <= 0 ==> f.value(ieee::spec_plus(f, x, y)) <= f.value(x),
{
    let p = f.precision as nat;
    let inf = f.inf as nat;
    let r = ieee::spec_plus(f, x, y);
    let mx = f.mag(x) as nat;
    lemma_units_zero(p);
    if f.infinite(x) {
    } else if f.infinite(y) {
        lemma_units_ordered(p, mx, inf);
    } else {
        let sum = f.value(x) + f.value(y);
        if sum == 0 {
        } else {
            let n = ieee::abs_of(sum);
            let m = rounding::round_mag(p, inf, n, 1);
            assert(m <= inf);
            assert(f.mag(r) == m && f.neg(r) == (sum < 0));
            lemma_round_exact(p, inf, mx);
            let ux = f.units(x);
            if n <= ux {
                lemma_round_ordered(p, inf, n, ux, 1);
                lemma_units_ordered(p, m, mx);
            }
            if ux <= n {
                lemma_round_ordered(p, inf, ux, n, 1);
                lemma_units_ordered(p, mx, m);
            }
        }
    }
}

pub proof fn lemma_units_zero(p: nat)
    requires
        p > 0,
    ensures
        rounding::units(p, 0) == 0,
{
    lemma_pow2_pos((p - 1) as nat);
}

/// The difference of a number and one that is no larger is not negative.
pub proof fn lemma_minus_sign(f: Format, x: u64, y: u64)
    requires
        f.wf(),
        f.fits(x),
        f.fits(y),
        f.finite(x),
        f.finite(y),
        f.value(y) <= f.value(x),
    ensures
        !f.nan(ieee::spec_minus(f, x, y)),
        f.value(ieee::spec_minus(f, x, y)) >= 0,
{
    let z = ieee::spec_neg(f, y);
    lemma_units_zero(f.precision as nat);
    assert(f.value(z) == -f.value(y));
}

/// The product of two numbers that are not negative, one of them neither zero nor
/// infinite, is not negative.
pub proof fn lemma_times_sign(f: Format, x: u64, y: u64)
    requires
        f.wf(),
        f.fits(x),
        f.fits(y),
        !f.nan(x),
        !f.neg(x) || f.zero(x),
        !f.neg(y),
        f.finite(y),
        !f.zero(y),
    ensures
        !f.nan(ieee::spec_times(f, x, y)),
        f.value(ieee::spec_times(f, x, y)) >= 0,
{
    let p = f.precision as nat;
    lemma_units_zero(p);
    if f.zero(x) {
        let d = pow2(f.unit as nat);
        lemma_pow2_pos(f.unit as nat);
        assert(f.units(x) * f.units(y) == 0) by (nonlinear_arith)
            requires
                f.units(x) == 0,
        ;
        lemma_round_zero(p, f.inf as nat, d);
    }
}

pub proof fn lemma_round_zero(p: nat, inf: nat, den: nat)
    requires
        p > 0,
        den > 0,
        inf > 0,
    ensures
        rounding::round_mag(p, inf, 0, den) == 0,
{
    lemma_pow2_pos(p);
    let w = den * pow2(p);
    assert(w > 0) by (nonlinear_arith)
        requires
            w == den * pow2(p),
            den > 0,
            pow2(p) > 0,
    ;
    let d = den * pow2(0);
    lemma2_to64();
    assert(d == den) by (nonlinear_arith)
        requires
            d == den * pow2(0),
            pow2(0) == 1,
    ;
    assert(0nat / den == 0 && 0nat % den == 0) by {
        lemma_fundamental_div_mod_converse(0, den as int, 0, 0);
    }
    let h = pow2((p - 1) as nat);
    assert(0 * h == 0);
}

/// A pattern stands for zero where its magnitude is zero, and only there.
pub proof fn lemma_sign(f: Format, x: u64)
    requires
        f.wf(),
    ensures
        f.zero(x) <==> f.value(x) == 0,
        f.value(x) > 0 ==> !f.neg(x),
        f.value(x) < 0 ==> f.neg(x),
{
    lemma_units_zero(f.precision as nat);
    if f.mag(x) > 0 {
        ieee::lemma_units_increase(f.precision as nat, 0, f.mag(x) as nat);
    }
}

impl F64 {
    /// A pattern between those of zero and of infinity is that of a positive number.
    pub proof fn lemma_positive(self)
        requires
            0 < self.bits < 0x7ff0_0000_0000_0000,
        ensures
            self.finite(),
            self.rank() > 0,
    {
        reveal(F64::rank);
        lemma_sign(ieee::double(), self.bits);
    }

    /// Zero.
    pub proof fn lemma_zero(self)
        requires
            self.bits == 0,
        ensures
            self.finite(),
            self.rank() == 0,
    {
        reveal(F64::rank);
        lemma_sign(ieee::double(), self.bits);
    }

    /// Adding what is not negative takes a number no lower.
    pub proof fn law_plus_raises(self, other: F64)
        requires
            !self.nan(),
            !other.nan(),
            other.rank() >= 0,
            self.finite() || self.rank() >= 0 || other.finite(),
        ensures
            self.le(self.plus(other)),
    {
        reveal(F64::rank);
        reveal(F64::spec_plus);
        let f = ieee::double();
        lemma_sign(f, self.bits);
        lemma_sign(f, other.bits);
        lemma_plus_ordered(f, self.bits, other.bits);
    }

    /// Taking away what is not negative takes a number no higher.
    pub proof fn law_minus_lowers(self, other: F64)
        requires
            !self.nan(),
            !other.nan(),
            other.rank() >= 0,
            self.finite() || self.rank() <= 0 || other.finite(),
        ensures
            self.minus(other).le(self),
    {
        reveal(F64::rank);
        reveal(F64::spec_minus);
        let f = ieee::double();
        let z = ieee::spec_neg(f, other.bits);
        lemma_sign(f, self.bits);
        lemma_sign(f, other.bits);
        lemma_plus_ordered(f, self.bits, z);
    }

    /// The difference of a number and one that is no larger is not negative.
    pub proof fn law_minus_sign(self, other: F64)
        requires
            self.finite(),
            other.finite(),
            other.le(self),
        ensures
            !self.minus(other).nan(),
            self.minus(other).rank() >= 0,
    {
        reveal(F64::rank);
        reveal(F64::spec_minus);
        lemma_minus_sign(ieee::double(), self.bits, other.bits);
    }

    /// A number that is not negative, times a positive one that is not infinite, is
    /// not negative.
    pub proof fn law_times_sign(self, other: F64)
        requires
            !self.nan(),
            self.rank() >= 0,
            other.finite(),
            other.rank() > 0,
        ensures
            !self.times(other).nan(),
            self.times(other).rank() >= 0,
    {
        reveal(F64::rank);
        reveal(F64::spec_times);
        let f = ieee::double();
        lemma_sign(f, self.bits);
        lemma_sign(f, other.bits);
        lemma_times_sign(f, self.bits, other.bits);
    }
}

impl F32 {
    /// A pattern between those of zero and of infinity is that of a positive number.
    pub proof fn lemma_positive(self)
        requires
            0 < self.bits < 0x7f80_0000,
        ensures
            self.finite(),
            self.rank() > 0,
    {
        reveal(F32::rank);
        lemma_sign(ieee::single(), self.bits as u64);
    }

    /// Zero.
    pub proof fn lemma_zero(self)
        requires
            self.bits == 0,
        ensures
            self.finite(),
            self.rank() == 0,
    {
        reveal(F32::rank);
        lemma_sign(ieee::single(), self.bits as u64);
    }

    /// A finite number lies between the infinities.
    pub proof fn lemma_between_infinities(self)
        requires
            self.finite(),
        ensures
            self.lt((F32 { bits: INF32 })),
            (F32 { bits: NEG_INF32 }).lt(self),
    {
        reveal(F32::rank);
        let f = ieee::single();
        ieee::lemma_value_order(f, self.bits as u64, INF32 as u64);
        ieee::lemma_value_order(f, NEG_INF32 as u64, self.bits as u64);
    }

    /// Adding what is not negative takes a number no lower.
    pub proof fn law_plus_raises(self, other: F32)
        requires
            !self.nan(),
            !other.nan(),
            other.rank() >= 0,
            self.finite() || self.rank() >= 0 || other.finite(),
        ensures
            self.le(self.plus(other)),
    {
        reveal(F32::rank);
        reveal(F32::spec_plus);
        let f = ieee::single();
        lemma_sign(f, self.bits as u64);
        lemma_sign(f, other.bits as u64);
        lemma_plus_ordered(f, self.bits as u64, other.bits as u64);
    }

    /// Taking away what is not negative takes a number no higher.
    pub proof fn law_minus_lowers(self, other: F32)
        requires
            !self.nan(),
            !other.nan(),
            other.rank() >= 0,
            self.finite() || self.rank() <= 0 || other.finite(),
        ensures
            self.minus(other).le(self),
    {
        reveal(F32::rank);
        reveal(F32::spec_minus);
        let f = ieee::single();
        let z = ieee::spec_neg(f, other.bits as u64);
        lemma_sign(f, self.bits as u64);
        lemma_sign(f, other.bits as u64);
        lemma_plus_ordered(f, self.bits as u64, z);
    }

    /// The difference of a number and one that is no larger is not negative.
    pub proof fn law_minus_sign(self, other: F32)
        requires
            self.finite(),
            other.finite(),
            other.le(self),
        ensures
            !self.minus(other).nan(),
            self.minus(other).rank() >= 0,
    {
        reveal(F32::rank);
        reveal(F32::spec_minus);
        lemma_minus_sign(ieee::single(), self.bits as u64, other.bits as u64);
    }

    /// A number that is not negative, times a positive one that is not infinite, is
    /// not negative.
    pub proof fn law_times_sign(self, other: F32)
        requires
            !self.nan(),
            self.rank() >= 0,
            other.finite(),
            other.rank() > 0,
        ensures
            !self.times(other).nan(),
            self.times(other).rank() >= 0,
    {
        reveal(F32::rank);
        reveal(F32::spec_times);
        let f = ieee::single();
        lemma_sign(f, self.bits as u64);
        lemma_sign(f, other.bits as u64);
        lemma_times_sign(f, self.bits as u64, other.bits as u64);
    }
}

} // verus!
