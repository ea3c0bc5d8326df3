//! How near midpoints and halves come to the exact ones.

use crate::float::{F32, F64, HALF32, HALF64};
use crate::ieee;
use crate::ieee::Format;
use crate::isotone;
use crate::monotone;
use crate::rounding;
use vstd::arithmetic::div_mod::*;
use vstd::arithmetic::power2::*;
use vstd::prelude::*;

verus! {

/// The pattern of one half.
pub open spec fn half_of(f: Format) -> u64 {
    if f.precision == 53 {
        HALF64
    } else {
        HALF32 as u64
    }
}

proof fn lemma_half_units(f: Format)
    requires
        f.wf(),
    ensures
        f.finite(half_of(f)),
        f.value(half_of(f)) > 0,
        f.units(half_of(f)) == pow2((f.unit - 1) as nat),
        pow2(f.unit as nat) == 2 * pow2((f.unit - 1) as nat),
        pow2((f.unit - 1) as nat) > 0,
{
    lemma2_to64();
    lemma2_to64_rest();
    lemma_pow2_unfold(f.unit as nat);
    lemma_pow2_pos((f.unit - 1) as nat);
    if f.precision == 53 {
        let h = pow2(52);
        assert(h == 0x10_0000_0000_0000);
        assert(HALF64 as nat / h == 0x3fe && HALF64 as nat % h == 0);
        lemma_pow2_adds(52, 1021);
    } else {
        let h = pow2(23);
        assert(h == 0x80_0000);
        assert(HALF32 as nat / h == 0x7e && HALF32 as nat % h == 0);
        lemma_pow2_adds(23, 125);
    }
}

/// The magnitude twice as large.
spec fn doubled(p: nat, m: nat) -> nat {
    if m < pow2((p - 1) as nat) {
        2 * m
    } else {
        m + pow2((p - 1) as nat)
    }
}

proof fn lemma_doubled(p: nat, m: nat)
    requires
        p > 1,
    ensures
        rounding::units(p, doubled(p, m)) == 2 * rounding::units(p, m),
{
    let h = pow2((p - 1) as nat);
    lemma_pow2_pos((p - 1) as nat);
    lemma2_to64();
    let d = doubled(p, m);
    if m < h {
        if d >= h {
            lemma_fundamental_div_mod_converse(d as int, h as int, 1, d - h);
            assert((h + (d - h)) * pow2(0) == d) by (nonlinear_arith)
                requires
                    pow2(0) == 1,
            ;
        }
    } else {
        lemma_fundamental_div_mod(m as int, h as int);
        let q = m / h;
        let r = m % h;
        assert(q >= 1) by (nonlinear_arith)
            requires
                m == h * q + r,
                m >= h,
                r < h,
        ;
        assert(d == (q + 1) * h + r) by (nonlinear_arith)
            requires
                m == h * q + r,
                d == m + h,
        ;
        lemma_fundamental_div_mod_converse(d as int, h as int, (q + 1) as int, r as int);
        lemma_pow2_unfold(q);
        let c = pow2((q - 1) as nat);
        assert((h + r) * (2 * c) == 2 * ((h + r) * c)) by (nonlinear_arith);
    }
}

/// Rounding a whole number of units that is not finite gives an infinity.
proof fn lemma_round_beyond(p: nat, inf: nat, m: nat)
    requires
        p > 0,
        m >= inf,
    ensures
        rounding::round_mag(p, inf, rounding::units(p, m), 1) == inf,
{
    monotone::lemma_round_exact(p, m + 1, m);
}

/// What lies beyond twice a number is not rounded to the other side of it.
proof fn lemma_rounded_beside_double(f: Format, x: u64, t: int)
    requires
        f.wf(),
        f.finite(x),
        rounding::round_mag(f.precision as nat, f.inf as nat, ieee::abs_of(t), 1) < f.inf,
    ensures
        2 * f.value(x) <= t ==> 2 * f.value(x) <= isotone::rounded(f, t, 1),
        t <= 2 * f.value(x) ==> isotone::rounded(f, t, 1) <= 2 * f.value(x),
{
    let p = f.precision as nat;
    let inf = f.inf as nat;
    let m = f.mag(x) as nat;
    let d = doubled(p, m);
    let a = f.value(x);
    lemma_doubled(p, m);
    monotone::lemma_sign(f, x);
    let r = rounding::round_mag(p, inf, ieee::abs_of(t), 1);
    ieee::lemma_units_increase(p, r, inf);
    if d < inf {
        monotone::lemma_round_exact(p, inf, d);
        assert(isotone::rounded(f, 2 * a, 1) == 2 * a);
    } else {
        lemma_round_beyond(p, inf, d);
        monotone::lemma_units_ordered(p, inf, d);
    }
    if 2 * a <= t {
        isotone::lemma_rounded_ordered(f, 2 * a, t, 1);
    }
    if t <= 2 * a {
        isotone::lemma_rounded_ordered(f, t, 2 * a, 1);
    }
}

/// A number is exact as a fraction of any denominator.
pub proof fn lemma_rounded_exact(f: Format, x: u64, den: nat)
    requires
        f.wf(),
        f.finite(x),
        den > 0,
    ensures
        isotone::rounded(f, f.value(x) * den, den) == f.value(x),
{
    let p = f.precision as nat;
    let inf = f.inf as nat;
    let m = f.mag(x) as nat;
    monotone::lemma_round_exact_over(p, inf, m, den);
    monotone::lemma_sign(f, x);
    isotone::lemma_abs_times(f.value(x), den);
}

/// The midpoint of two numbers, where it is finite, lies between them.
pub proof fn lemma_middle_between(f: Format, x: u64, y: u64)
    requires
        f.wf(),
        f.finite(x),
        f.finite(y),
        f.value(x) <= f.value(y),
        f.finite(ieee::spec_times(f, ieee::spec_plus(f, x, y), half_of(f))),
    ensures
        f.value(x) <= f.value(ieee::spec_times(f, ieee::spec_plus(f, x, y), half_of(f))),
        f.value(ieee::spec_times(f, ieee::spec_plus(f, x, y), half_of(f))) <= f.value(y),
{
    let z = ieee::spec_plus(f, x, y);
    let a = f.value(x);
    let b = f.value(y);
    let s = f.value(z);
    lemma_half_units(f);
    isotone::lemma_plus_value(f, x, y);
    monotone::lemma_sign(f, half_of(f));
    assert(f.finite(z));
    lemma_sum_finite(f, x, y);
    lemma_rounded_beside_double(f, x, a + b);
    lemma_rounded_beside_double(f, y, a + b);
    assert(2 * a <= s <= 2 * b);
    isotone::lemma_times_value(f, z, half_of(f));
    let g = pow2((f.unit - 1) as nat);
    let d = pow2(f.unit as nat);
    lemma_rounded_exact(f, x, d);
    lemma_rounded_exact(f, y, d);
    assert(a * d <= s * g && s * g <= b * d) by (nonlinear_arith)
        requires
            d == 2 * g,
            2 * a <= s <= 2 * b,
            g > 0,
    ;
    isotone::lemma_rounded_ordered(f, a * d, s * g, d);
    isotone::lemma_rounded_ordered(f, s * g, b * d, d);
}

/// The magnitude of a finite sum.
proof fn lemma_sum_finite(f: Format, x: u64, y: u64)
    requires
        f.wf(),
        f.finite(x),
        f.finite(y),
        f.finite(ieee::spec_plus(f, x, y)),
    ensures
        rounding::round_mag(
            f.precision as nat,
            f.inf as nat,
            ieee::abs_of(f.value(x) + f.value(y)),
            1,
        ) < f.inf,
{
    if f.value(x) + f.value(y) == 0 {
        monotone::lemma_round_zero(f.precision as nat, f.inf as nat, 1);
    }
}

/// The sum of two numbers, where it is finite, is off by no more than one part in `2^p`.
pub proof fn lemma_sum_near(f: Format, x: u64, y: u64)
    requires
        f.wf(),
        f.finite(x),
        f.finite(y),
        f.finite(ieee::spec_plus(f, x, y)),
    ensures
        ({
            let s = f.value(x) + f.value(y);
            let e = f.value(ieee::spec_plus(f, x, y)) - s;
            ieee::abs_of(e) * pow2(f.precision as nat) <= ieee::abs_of(s)
        }),
{
    let p = f.precision as nat;
    let inf = f.inf as nat;
    let s = f.value(x) + f.value(y);
    let n = ieee::abs_of(s);
    let h = pow2((p - 1) as nat);
    isotone::lemma_plus_value(f, x, y);
    lemma_sum_finite(f, x, y);
    let u = rounding::units(p, rounding::round_mag(p, inf, n, 1));
    if n < h {
        assert(rounding::units(p, n) == n);
        lemma_half_finite(f);
        monotone::lemma_round_exact(p, inf, n);
        assert(0 * pow2(p) == 0) by (nonlinear_arith);
    } else {
        assert(1 * h == h);
        monotone::lemma_round_error(p, inf, n, 1);
        let w = pow2(p) as int;
        let e = if u < n { n - u } else { u - n };
        assert(u * 1 == u);
        assert(e * w <= n) by (nonlinear_arith)
            requires
                u * w <= n * (w + 1),
                u * w >= n * (w - 1),
                e == n - u || e == u - n,
        ;
        assert(ieee::abs_of(f.value(ieee::spec_plus(f, x, y)) - s) == e);
    }
}

/// Half of a number is off by no more than half of the smallest positive one.
proof fn lemma_half_near(f: Format, x: u64)
    requires
        f.wf(),
        f.finite(x),
    ensures
        ({
            let r = ieee::spec_times(f, x, half_of(f));
            &&& f.finite(r)
            &&& -1 <= 2 * f.value(r) - f.value(x) <= 1
        }),
{
    let p = f.precision as nat;
    let inf = f.inf as nat;
    let h = pow2((p - 1) as nat);
    let g = pow2((f.unit - 1) as nat);
    let d = pow2(f.unit as nat);
    let m = f.mag(x) as nat;
    let n = f.units(x);
    lemma_half_units(f);
    isotone::lemma_times_value(f, x, half_of(f));
    monotone::lemma_sign(f, x);
    monotone::lemma_sign(f, half_of(f));
    lemma_pow2_pos((p - 1) as nat);
    lemma_pow2_unfold(p);
    let r = ieee::spec_times(f, x, half_of(f));
    let k = rounding::round_mag(p, inf, n * g, d);
    isotone::lemma_signed(f, f.neg(x), k);
    isotone::lemma_abs_times(f.value(x), g);
    if m >= 2 * h {
        let b = (m - h) as nat;
        lemma_doubled(p, b);
        assert(doubled(p, b) == m);
        monotone::lemma_round_exact_over(p, inf, b, d);
        let c = rounding::units(p, b);
        assert(n * g == c * d) by (nonlinear_arith)
            requires
                n == 2 * c,
                d == 2 * g,
        ;
        assert(k == b);
    } else {
        // Below twice the normal range the units are the magnitude itself.
        lemma2_to64();
        assert(n == m) by {
            if m >= h {
                lemma_fundamental_div_mod_converse(m as int, h as int, 1, m - h);
                assert((h + (m - h)) * pow2(0) == m) by (nonlinear_arith)
                    requires
                        pow2(0) == 1,
                ;
            }
        }
        let w = d * pow2(p);
        assert(n * g < w && w > 0) by (nonlinear_arith)
            requires
                n < 2 * h,
                w == d * pow2(p),
                pow2(p) == 2 * h,
                d == 2 * g,
                g > 0,
                h > 0,
        ;
        assert(rounding::shift_for(n * g, w) == 0);
        assert(d * pow2(0) == d) by (nonlinear_arith)
            requires
                pow2(0) == 1,
        ;
        let q = n / 2;
        let o = n % 2;
        assert(n * g == q * d + o * g && 0 <= o * g < d) by (nonlinear_arith)
            requires
                n == 2 * q + o,
                0 <= o < 2,
                d == 2 * g,
                g > 0,
        ;
        lemma_fundamental_div_mod_converse((n * g) as int, d as int, q as int, (o * g) as int);
        let e = rounding::half_even(n * g, d);
        assert(o == 0 ==> o * g == 0) by (nonlinear_arith);
        assert(e == q || (o == 1 && e == q + 1));
        assert(0 * h == 0);
        assert(e <= h);
        lemma_half_finite(f);
        assert(k == e);
        assert(rounding::units(p, e) == e) by {
            if e == h {
                lemma_fundamental_div_mod_converse(h as int, h as int, 1, 0);
                assert((h + 0) * pow2(0) == h) by (nonlinear_arith)
                    requires
                        pow2(0) == 1,
                ;
            }
        }
    }
}

/// The smallest normal magnitude is finite.
proof fn lemma_half_finite(f: Format)
    requires
        f.wf(),
    ensures
        pow2((f.precision - 1) as nat) < f.inf,
{
    lemma2_to64();
    lemma2_to64_rest();
}

/// Half of a sum, where it is finite, is near: twice it is off by no more than one part in
/// `2^p` of the exact sum, and one unit.
proof fn lemma_half_sum_near(f: Format, x: u64, y: u64)
    requires
        f.wf(),
        f.finite(x),
        f.finite(y),
        f.finite(ieee::spec_times(f, ieee::spec_plus(f, x, y), half_of(f))),
    ensures
        ({
            let s = f.value(x) + f.value(y);
            let m = f.value(ieee::spec_times(f, ieee::spec_plus(f, x, y), half_of(f)));
            ieee::abs_of(2 * m - s) * pow2(f.precision as nat) <= ieee::abs_of(s) + pow2(
                f.precision as nat,
            )
        }),
{
    let z = ieee::spec_plus(f, x, y);
    lemma_half_units(f);
    isotone::lemma_plus_value(f, x, y);
    monotone::lemma_sign(f, half_of(f));
    assert(f.finite(z));
    lemma_sum_near(f, x, y);
    lemma_half_near(f, z);
    let s = f.value(x) + f.value(y);
    let m = f.value(ieee::spec_times(f, z, half_of(f)));
    let w = pow2(f.precision as nat);
    let a = ieee::abs_of(2 * m - s);
    let e = ieee::abs_of(f.value(z) - s);
    assert(a <= e + 1);
    assert(a * w <= e * w + w) by (nonlinear_arith)
        requires
            a <= e + 1,
            w >= 0,
    ;
}

impl F64 {
    /// The midpoint of two numbers, where it is finite, lies between them.
    pub proof fn law_middle_between(self, other: F64)
        requires
            self.finite(),
            other.finite(),
            self.le(other),
            self.plus(other).times(F64 { bits: HALF64 }).finite(),
        ensures
            self.le(self.plus(other).times(F64 { bits: HALF64 })),
            self.plus(other).times(F64 { bits: HALF64 }).le(other),
    {
        reveal(F64::rank);
        reveal(F64::spec_plus);
        reveal(F64::spec_times);
        lemma_middle_between(ieee::double(), self.bits, other.bits);
    }
}

/// The larger of the two distances from zero.
pub open spec fn size(lo: int, hi: int) -> nat {
    if ieee::abs_of(lo) < ieee::abs_of(hi) {
        ieee::abs_of(hi)
    } else {
        ieee::abs_of(lo)
    }
}

/// Midpoint and half extent, as far as they are finite, tell the two bounds that they are
/// of, up to one part in `2^24` of the larger, and one unit.
pub proof fn law_half_extents(lo: F32, hi: F32)
    requires
        lo.finite(),
        hi.finite(),
        lo.plus(hi).times(F32 { bits: HALF32 }).finite(),
        hi.minus(lo).times(F32 { bits: HALF32 }).finite(),
    ensures
        ({
            let c = lo.plus(hi).times(F32 { bits: HALF32 }).rank();
            let r = hi.minus(lo).times(F32 { bits: HALF32 }).rank();
            let off = size(lo.rank(), hi.rank()) + 0x100_0000;
            &&& ieee::abs_of(c + r - hi.rank()) * 0x100_0000 <= off
            &&& ieee::abs_of(c - r - lo.rank()) * 0x100_0000 <= off
        }),
{
    reveal(F32::rank);
    reveal(F32::spec_plus);
    reveal(F32::spec_minus);
    reveal(F32::spec_times);
    lemma2_to64();
    let f = ieee::single();
    let x = lo.bits as u64;
    let y = hi.bits as u64;
    let z = ieee::spec_neg(f, x);
    isotone::lemma_neg_value(f, x);
    isotone::lemma_plus_value(f, x, y);
    isotone::lemma_plus_value(f, y, z);
    lemma_half_units(f);
    monotone::lemma_sign(f, half_of(f));
    let p = ieee::spec_plus(f, x, y);
    let q = ieee::spec_plus(f, y, z);
    lemma_times_fits(f, p);
    lemma_times_fits(f, q);
    lemma_half_sum_near(f, x, y);
    lemma_half_sum_near(f, y, z);
    let c = f.value(ieee::spec_times(f, p, half_of(f)));
    let r = f.value(ieee::spec_times(f, q, half_of(f)));
    let a = f.value(x);
    let b = f.value(y);
    let i = ieee::abs_of(2 * c - (a + b));
    let j = ieee::abs_of(2 * r - (b - a));
    let k = ieee::abs_of(c + r - b);
    let l = ieee::abs_of(c - r - a);
    assert(2 * k <= i + j);
    assert(2 * l <= i + j);
    assert(ieee::abs_of(a + b) + ieee::abs_of(b - a) == 2 * size(a, b));
}

proof fn lemma_times_fits(f: Format, x: u64)
    requires
        f.wf(),
        f.fits(x),
        !f.nan(x),
    ensures
        f.fits(ieee::spec_times(f, x, half_of(f))),
{
    lemma_half_units(f);
    monotone::lemma_sign(f, half_of(f));
    if f.finite(x) {
        isotone::lemma_times_value(f, x, half_of(f));
    }
}

/// Rounding changes a quotient by no more than one part in `2^p`, and half a unit.
proof fn lemma_round_near(p: nat, inf: nat, num: nat, den: nat)
    requires
        p > 0,
        den > 0,
        rounding::round_mag(p, inf, num, den) < inf,
    ensures
        ({
            let e = rounding::units(p, rounding::round_mag(p, inf, num, den)) * den - num;
            ieee::abs_of(e) * pow2(p) <= num + den * pow2((p - 1) as nat)
        }),
{
    let h = pow2((p - 1) as nat);
    let w = pow2(p);
    lemma_pow2_pos((p - 1) as nat);
    lemma_pow2_unfold(p);
    lemma2_to64();
    let m = rounding::round_mag(p, inf, num, den);
    let u = rounding::units(p, m);
    if num >= den * h {
        monotone::lemma_round_error(p, inf, num, den);
        let e = ieee::abs_of(u * den - num);
        let ud = u * den;
        let ww = w as int;
        assert(e * ww <= num) by (nonlinear_arith)
            requires
                ud * ww <= num * (ww + 1),
                ud * ww >= num * (ww - 1),
                e == num - ud || e == ud - num,
        ;
    } else {
        assert(num < den * w) by (nonlinear_arith)
            requires
                num < den * h,
                w == 2 * h,
                den > 0,
                h > 0,
        ;
        assert(rounding::shift_for(num, den * w) == 0);
        assert(den * pow2(0) == den) by (nonlinear_arith)
            requires
                pow2(0) == 1,
        ;
        assert(0 * h == 0);
        assert(m == rounding::half_even(num, den));
        assert(0 * den <= num <= h * den) by (nonlinear_arith)
            requires
                num < den * h,
        ;
        monotone::lemma_half_even_bounds(num, den, 0, h);
        assert(u == m) by {
            if m == h {
                lemma_fundamental_div_mod_converse(h as int, h as int, 1, 0);
                assert((h + 0) * pow2(0) == h) by (nonlinear_arith)
                    requires
                        pow2(0) == 1,
                ;
            }
        }
        lemma_fundamental_div_mod(num as int, den as int);
        let q = num / den;
        let r = num % den;
        let e = ieee::abs_of(m * den - num);
        assert(2 * e <= den) by (nonlinear_arith)
            requires
                num == den * q + r,
                0 <= r < den,
                m == q || m == q + 1,
                m == q ==> 2 * r <= den,
                m == q + 1 ==> 2 * r >= den,
                e == m * den - num || e == num - m * den,
                e >= 0,
        ;
        assert(e * w <= den * h) by (nonlinear_arith)
            requires
                2 * e <= den,
                w == 2 * h,
                h > 0,
        ;
    }
}

/// What a finite number was rounded from is within the finite range.
proof fn lemma_finite_rounded(f: Format, z: u64, s: int, den: nat)
    requires
        f.wf(),
        f.finite(z),
        f.value(z) == isotone::rounded(f, s, den),
    ensures
        rounding::round_mag(f.precision as nat, f.inf as nat, ieee::abs_of(s), den) < f.inf,
{
    let p = f.precision as nat;
    ieee::lemma_units_increase(p, f.mag(z) as nat, f.inf as nat);
}

/// Rounding to a finite number changes a quotient by no more than one part in `2^p`, and
/// half a unit.
pub proof fn lemma_rounded_near(f: Format, z: u64, s: int, den: nat)
    requires
        f.wf(),
        f.finite(z),
        den > 0,
        f.value(z) == isotone::rounded(f, s, den),
    ensures
        ieee::abs_of(f.value(z) * den - s) * pow2(f.precision as nat) <= ieee::abs_of(s) + den
            * pow2((f.precision - 1) as nat),
{
    let p = f.precision as nat;
    let inf = f.inf as nat;
    lemma_finite_rounded(f, z, s, den);
    lemma_round_near(p, inf, ieee::abs_of(s), den);
    let u = rounding::units(p, rounding::round_mag(p, inf, ieee::abs_of(s), den)) as int;
    assert((-u) * den == -(u * den)) by (nonlinear_arith);
    if s == 0 {
        monotone::lemma_round_zero(p, inf, den);
        monotone::lemma_units_zero(p);
    }
}

} // verus!
