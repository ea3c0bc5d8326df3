//! How near the arithmetic comes to the exact results.

use crate::float::{F32, F64, INF64, NEG_INF64, ONE32};
use crate::halving;
use crate::ieee;
use crate::ieee::Format;
use crate::isotone;
use crate::monotone;
use crate::rounding;
use vstd::arithmetic::div_mod::*;
use vstd::arithmetic::power2::*;
use vstd::prelude::*;

verus! {

/// How many of the smallest positive doubles make one.
pub open spec fn one64() -> nat {
    pow2(1074)
}

/// How many of the smallest positive singles make one.
pub open spec fn one32() -> nat {
    pow2(149)
}

/// The product of two finite numbers.
pub proof fn lemma_product_value(f: Format, x: u64, y: u64)
    requires
        f.wf(),
        f.finite(x),
        f.finite(y),
    ensures
        !f.nan(ieee::spec_times(f, x, y)),
        f.fits(ieee::spec_times(f, x, y)),
        f.value(ieee::spec_times(f, x, y)) == isotone::rounded(
            f,
            f.value(x) * f.value(y),
            pow2(f.unit as nat),
        ),
{
    let p = f.precision as nat;
    let inf = f.inf as nat;
    let d = pow2(f.unit as nat);
    lemma_pow2_pos(f.unit as nat);
    monotone::lemma_sign(f, x);
    monotone::lemma_sign(f, y);
    let a = f.units(x);
    let b = f.units(y);
    let n = a * b;
    let neg = f.neg(x) != f.neg(y);
    isotone::lemma_signed(f, neg, rounding::round_mag(p, inf, n, d));
    let v = f.value(x) * f.value(y);
    assert(v == if neg {
        -(n as int)
    } else {
        n as int
    }) by (nonlinear_arith)
        requires
            v == f.value(x) * f.value(y),
            n == a * b,
            f.value(x) == if f.neg(x) {
                -(a as int)
            } else {
                a as int
            },
            f.value(y) == if f.neg(y) {
                -(b as int)
            } else {
                b as int
            },
            neg == (f.neg(x) != f.neg(y)),
    ;
    if n == 0 {
        monotone::lemma_round_zero(p, inf, d);
        monotone::lemma_units_zero(p);
    }
}

/// A power of two as a double.
pub proof fn lemma_power(e: nat)
    requires
        e <= 2045,
    ensures
        ({
            let x = F64 { bits: ((e + 1) * 0x10_0000_0000_0000) as u64 };
            x.finite() && x.rank() == pow2(52 + e)
        }),
{
    reveal(F64::rank);
    let bits = ((e + 1) * 0x10_0000_0000_0000) as u64;
    assert(bits == (e + 1) * 0x10_0000_0000_0000);
    assert(bits < 0x7ff0_0000_0000_0000);
    lemma2_to64();
    lemma2_to64_rest();
    let h = pow2(52);
    assert(h == 0x10_0000_0000_0000);
    monotone::lemma_units_of(53, e, h);
    lemma_pow2_adds(52, e);
    assert(e * h + h == (e + 1) * h) by (nonlinear_arith);
}

/// What was rounded from no more than a power of two is finite, and no more itself.
pub proof fn lemma_bounded(z: u64, s: int, den: nat, e: nat)
    requires
        ieee::double().fits(z),
        !ieee::double().nan(z),
        den > 0,
        52 <= e <= 2097,
        ieee::double().value(z) == isotone::rounded(ieee::double(), s, den),
        ieee::abs_of(s) <= den * pow2(e),
    ensures
        ieee::double().finite(z),
        ieee::abs_of(ieee::double().value(z)) <= pow2(e),
{
    reveal(F64::rank);
    let f = ieee::double();
    lemma_power((e - 52) as nat);
    let x = F64 { bits: ((e - 52 + 1) * 0x10_0000_0000_0000) as u64 };
    let b = pow2(e) as int;
    assert(f.value(x.bits) == b);
    halving::lemma_rounded_exact(f, x.bits, den);
    assert(b * den == den * b) by (nonlinear_arith);
    isotone::lemma_rounded_ordered(f, s, b * den, den);
    isotone::lemma_rounded_ordered(f, -(b * den), s, den);
    assert(ieee::abs_of(-(b * den)) == ieee::abs_of(b * den));
    lemma_pow2_pos(e);
    assert(b * den > 0) by (nonlinear_arith)
        requires
            b > 0,
            den > 0,
    ;
    assert(isotone::rounded(f, -(b * den), den) == -b);
    if f.infinite(z) {
        monotone::lemma_sign(f, x.bits);
        ieee::lemma_units_increase(53, f.mag(x.bits) as nat, f.inf as nat);
    }
}

impl F64 {
    /// A finite sum is off by no more than one part in `2^53`, and is one of finite numbers.
    pub proof fn law_plus_near(self, other: F64)
        requires
            self.plus(other).finite(),
        ensures
            self.finite(),
            other.finite(),
            ({
                let s = self.rank() + other.rank();
                ieee::abs_of(self.plus(other).rank() - s) * pow2(53) <= ieee::abs_of(s)
            }),
    {
        reveal(F64::rank);
        reveal(F64::spec_plus);
        halving::lemma_sum_near(ieee::double(), self.bits, other.bits);
    }

    /// A finite difference is off by no more than one part in `2^53`, and is one of finite
    /// numbers.
    pub proof fn law_minus_near(self, other: F64)
        requires
            self.minus(other).finite(),
        ensures
            self.finite(),
            other.finite(),
            ({
                let d = self.rank() - other.rank();
                ieee::abs_of(self.minus(other).rank() - d) * pow2(53) <= ieee::abs_of(d)
            }),
    {
        reveal(F64::rank);
        reveal(F64::spec_minus);
        let f = ieee::double();
        isotone::lemma_neg_value(f, other.bits);
        halving::lemma_sum_near(f, self.bits, ieee::spec_neg(f, other.bits));
    }

    /// A finite product is off by no more than one part in `2^53`, and half of the smallest
    /// positive number.
    pub proof fn law_times_near(self, other: F64)
        requires
            self.times(other).finite(),
        ensures
            self.finite(),
            other.finite(),
            ({
                let s = self.rank() * other.rank();
                ieee::abs_of(self.times(other).rank() * one64() - s) * pow2(53) <= ieee::abs_of(s)
                    + one64() * pow2(52)
            }),
    {
        reveal(F64::rank);
        reveal(F64::spec_times);
        let f = ieee::double();
        lemma_pow2_pos(1074);
        lemma_product_value(f, self.bits, other.bits);
        halving::lemma_rounded_near(
            f,
            ieee::spec_times(f, self.bits, other.bits),
            self.rank() * other.rank(),
            one64(),
        );
    }

    /// A finite quotient is off by no more than one part in `2^53`, and half of the smallest
    /// positive number.
    pub proof fn law_over_near(self, other: F64)
        requires
            self.finite(),
            other.finite(),
            other.rank() > 0,
            self.over(other).finite(),
        ensures
            ({
                let s = self.rank() * one64();
                ieee::abs_of(self.over(other).rank() * other.rank() - s) * pow2(53)
                    <= ieee::abs_of(s) + other.rank() * pow2(52)
            }),
    {
        reveal(F64::rank);
        reveal(F64::spec_over);
        let f = ieee::double();
        monotone::lemma_sign(f, other.bits);
        isotone::lemma_over_value(f, self.bits, other.bits);
        halving::lemma_rounded_near(
            f,
            ieee::spec_over(f, self.bits, other.bits),
            self.rank() * one64(),
            f.units(other.bits),
        );
    }

    /// A number that was narrowed to a finite one is off by no more than one part in `2^24`,
    /// and half of the smallest positive single.
    pub proof fn law_narrow_near(self)
        requires
            self.narrow().finite(),
        ensures
            self.finite(),
            ({
                let s = self.rank() * one32();
                ieee::abs_of(self.narrow().rank() * one64() - s) * pow2(24) <= ieee::abs_of(s)
                    + one64() * pow2(23)
            }),
    {
        reveal(F64::rank);
        reveal(F32::rank);
        reveal(F64::spec_narrow);
        let g = ieee::single();
        assert(!self.nan());
        lemma_narrow_value(self);
        lemma_pow2_pos(1074);
        halving::lemma_rounded_near(
            g,
            ieee::spec_convert(ieee::double(), g, self.bits),
            self.rank() * one32(),
            one64(),
        );
    }
}

/// What a number is narrowed to.
proof fn lemma_narrow_value(x: F64)
    requires
        !x.nan(),
    ensures
        ({
            let g = ieee::single();
            let r = ieee::spec_convert(ieee::double(), g, x.bits);
            &&& x.narrow().bits == r
            &&& !g.nan(r)
            &&& x.finite() ==> g.value(r) == isotone::rounded(g, x.rank() * one32(), one64())
            &&& !x.finite() ==> !g.finite(r)
        }),
{
    reveal(F64::rank);
    reveal(F64::spec_narrow);
    let f = ieee::double();
    let g = ieee::single();
    lemma_pow2_pos(1074);
    lemma_pow2_pos(149);
    let n = f.units(x.bits) * pow2(149);
    isotone::lemma_signed(g, f.neg(x.bits), g.inf as nat);
    isotone::lemma_signed(
        g,
        f.neg(x.bits),
        rounding::round_mag(24, g.inf as nat, n, pow2(1074)),
    );
    monotone::lemma_sign(f, x.bits);
    let v = f.value(x.bits);
    isotone::lemma_abs_times(v, pow2(149));
    if v == 0 {
        monotone::lemma_round_zero(24, g.inf as nat, pow2(1074));
        monotone::lemma_units_zero(24);
    }
}

/// The rounded square root of a large number is off by no more than half a step of its
/// significand, which has all its digits.
proof fn lemma_root_steps(n: nat, inf: nat) -> (r: (nat, nat))
    requires
        n >= pow2(106),
    ensures
        ({
            let (k, m) = r;
            let c = pow2(2 * k);
            &&& pow2(52) <= m <= pow2(53)
            &&& n < pow2(106) * c
            &&& (2 * m - 1) * (2 * m - 1) * c <= 4 * n
            &&& 4 * n <= (2 * m + 1) * (2 * m + 1) * c
            &&& k >= 1 && n >= pow2((103 + 2 * k) as nat)
            &&& rounding::round_root(53, inf, n) == if k * pow2(52) + m < inf {
                k * pow2(52) + m
            } else {
                inf
            }
        }),
{
    let b = pow2(106);
    lemma_pow2_pos(106);
    rounding::lemma_shift_bounds(n, b);
    let t = rounding::shift_for(n, b);
    lemma2_to64();
    assert(b * pow2(0) == b) by (nonlinear_arith)
        requires
            pow2(0) == 1,
    ;
    assert(t > 0);
    let k = ((t + 1) / 2) as nat;
    let c = pow2(2 * k);
    lemma_pow2_pos(2 * k);
    rounding::lemma_pow2_mono(t, 2 * k);
    assert(b * pow2(t) <= b * c) by (nonlinear_arith)
        requires
            pow2(t) <= c,
    ;
    let w = n / c;
    let q = rounding::root(w);
    lemma_fundamental_div_mod(n as int, c as int);
    lemma_root_exists(w);
    assert(rounding::is_root(q, w));
    // The quotient has an even number of digits, or one less.
    lemma_pow2_adds(106, (t - 1) as nat);
    lemma_pow2_adds(104, 2 * k);
    rounding::lemma_pow2_mono(104 + 2 * k, (106 + t - 1) as nat);
    rounding::lemma_pow2_mono((103 + 2 * k) as nat, (106 + t - 1) as nat);
    let g = pow2(104);
    assert(g * c <= n);
    assert(w >= g) by (nonlinear_arith)
        requires
            g * c <= n,
            n == c * w + n % c,
            0 <= n % c < c,
            c > 0,
    ;
    assert(w < b) by (nonlinear_arith)
        requires
            n < b * c,
            n == c * w + n % c,
            0 <= n % c,
            c > 0,
    ;
    lemma_pow2_adds(52, 52);
    lemma_pow2_adds(53, 53);
    let h = pow2(52);
    let d = pow2(53);
    lemma_pow2_pos(52);
    assert(q >= h) by (nonlinear_arith)
        requires
            w < (q + 1) * (q + 1),
            w >= h * h,
    ;
    assert(q < d) by (nonlinear_arith)
        requires
            q * q <= w,
            w < d * d,
    ;
    assert(q * q * c <= n) by (nonlinear_arith)
        requires
            q * q <= w,
            n == c * w + n % c,
            0 <= n % c,
            c > 0,
    ;
    assert(n < (q + 1) * (q + 1) * c) by (nonlinear_arith)
        requires
            w + 1 <= (q + 1) * (q + 1),
            n == c * w + n % c,
            n % c < c,
            c > 0,
    ;
    let mid = ((2 * q + 1) * (2 * q + 1)) * c;
    let m = if 4 * n > mid || (4 * n == mid && q % 2 == 1) {
        (q + 1) as nat
    } else {
        q
    };
    if m == q {
        assert((2 * m - 1) * (2 * m - 1) * c <= 4 * (q * q * c)) by (nonlinear_arith)
            requires
                m == q,
                q >= 1,
                c > 0,
        ;
    } else {
        assert(2 * m - 1 == 2 * q + 1);
        assert(4 * ((q + 1) * (q + 1) * c) <= (2 * m + 1) * (2 * m + 1) * c) by (nonlinear_arith)
            requires
                m == q + 1,
                c > 0,
        ;
    }
    assert(2 * 53nat == 106);
    (k, m)
}

/// Every number has a rounded-down square root.
proof fn lemma_root_exists(n: nat)
    ensures
        exists|q: nat| rounding::is_root(q, n),
    decreases n,
{
    if n == 0 {
        assert(rounding::is_root(0, 0)) by (nonlinear_arith);
    } else {
        let before = (n - 1) as nat;
        lemma_root_exists(before);
        let q = choose|q: nat| rounding::is_root(q, before);
        if n < (q + 1) * (q + 1) {
            assert(rounding::is_root(q, n));
        } else {
            let r = q + 1;
            assert(r * r <= n < (r + 1) * (r + 1)) by (nonlinear_arith)
                requires
                    n - 1 < (q + 1) * (q + 1),
                    n >= (q + 1) * (q + 1),
                    r == q + 1,
            ;
            assert(rounding::is_root(r as nat, n));
        }
    }
}

impl F64 {
    /// The square of the root of a positive number is off by no more than one part in
    /// `2^51`.
    pub proof fn law_root_near(self)
        requires
            self.finite(),
            0 < self.rank() <= pow2(2097),
        ensures
            self.root().finite(),
            self.root().rank() > 0,
            ({
                let l = self.root().rank();
                ieee::abs_of(l * l - self.rank() * one64()) * pow2(51) <= l * l
            }),
    {
        reveal(F64::rank);
        reveal(F64::spec_root);
        let f = ieee::double();
        monotone::lemma_sign(f, self.bits);
        let x = f.units(self.bits);
        let n = x * pow2(1074);
        rounding::lemma_pow2_mono(106, 1074);
        lemma_pow2_pos(1074);
        assert(n >= pow2(1074)) by (nonlinear_arith)
            requires
                n == x * pow2(1074),
                x >= 1,
        ;
        lemma_pow2_adds(2097, 1074);
        assert(n <= pow2(3171)) by (nonlinear_arith)
            requires
                n == x * pow2(1074),
                x <= pow2(2097),
                pow2(3171) == pow2(2097) * pow2(1074),
        ;
        let (k, m) = lemma_root_steps(n, f.inf as nat);
        if 103 + 2 * k > 3171 {
            rounding::lemma_pow2_mono(3172, (103 + 2 * k) as nat);
            lemma_pow2_unfold(3172);
            lemma_pow2_pos(3171);
        }
        assert(k <= 1534);
        lemma2_to64();
        lemma2_to64_rest();
        let h = pow2(52);
        assert(k * h + m < f.inf) by (nonlinear_arith)
            requires
                k <= 1534,
                h == 0x10_0000_0000_0000,
                m <= 0x20_0000_0000_0000,
                f.inf == 0x7ff0_0000_0000_0000,
        ;
        isotone::lemma_signed(f, false, k * h + m);
        monotone::lemma_units_of(53, k, m);
        let l = self.root().rank();
        assert(l == m * pow2(k));
        lemma_pow2_adds(k, k);
        let c = pow2(2 * k) as int;
        lemma_pow2_pos(k);
        lemma_pow2_pos(2 * k);
        assert(l * l == m * m * c && l > 0) by (nonlinear_arith)
            requires
                l == m * pow2(k),
                c == pow2(k) * pow2(k),
                m > 0,
                pow2(k) > 0,
        ;
        let q = l * l;
        let e = ieee::abs_of(q - n);
        let w = 0x8_0000_0000_0000int;
        assert(4 * e <= 5 * (m * c)) by (nonlinear_arith)
            requires
                q == m * m * c,
                (2 * m - 1) * (2 * m - 1) * c <= 4 * n,
                4 * n <= (2 * m + 1) * (2 * m + 1) * c,
                e == q - n || e == n - q,
                c > 0,
                m >= 1,
        ;
        assert(e * w <= q) by (nonlinear_arith)
            requires
                4 * e <= 5 * (m * c),
                q == m * m * c,
                m >= 2 * w,
                c > 0,
                w > 0,
        ;
    }
}

/// The sum of three squares.
pub open spec fn squares(x: int, y: int, z: int) -> int {
    x * x + y * y + z * z
}

/// The roundings of a sum of three squares, taken together.
proof fn lemma_squares_drift(
    u: int,
    x: int,
    y: int,
    z: int,
    p: int,
    q: int,
    r: int,
    a: int,
    s: int,
)
    requires
        u > 0,
        p >= 0,
        q >= 0,
        r >= 0,
        ieee::abs_of(p * u - x * x) * 0x20_0000_0000_0000 <= x * x + u * 0x10_0000_0000_0000,
        ieee::abs_of(q * u - y * y) * 0x20_0000_0000_0000 <= y * y + u * 0x10_0000_0000_0000,
        ieee::abs_of(r * u - z * z) * 0x20_0000_0000_0000 <= z * z + u * 0x10_0000_0000_0000,
        ieee::abs_of(a - (p + q)) * 0x20_0000_0000_0000 <= p + q,
        ieee::abs_of(s - (a + r)) * 0x20_0000_0000_0000 <= ieee::abs_of(a + r),
    ensures
        s >= 0,
        ieee::abs_of(s * u - squares(x, y, z)) * 0x4_0000_0000_0000 <= squares(x, y, z) + u
            * 0x8_0000_0000_0000,
{
    let t = p + q + r;
    let e = ieee::abs_of(s - t) as int;
    assert(0 <= a <= 2 * (p + q));
    assert(e * 0x20_0000_0000_0000 <= 3 * t);
    let sq = squares(x, y, z);
    let (xx, yy, zz) = (x * x, y * y, z * z);
    let (pu, qu, ru, su, tu, eu) = (p * u, q * u, r * u, s * u, t * u, e * u);
    assert(tu == pu + qu + ru && (su - tu == eu || tu - su == eu) && tu >= 0 && eu
        * 0x20_0000_0000_0000 <= 3 * tu) by (nonlinear_arith)
        requires
            t == p + q + r,
            t >= 0,
            pu == p * u,
            qu == q * u,
            ru == r * u,
            su == s * u,
            tu == t * u,
            eu == e * u,
            s - t == e || t - s == e,
            e * 0x20_0000_0000_0000 <= 3 * t,
            u > 0,
    ;
    assert(xx >= 0 && yy >= 0 && zz >= 0) by (nonlinear_arith)
        requires
            xx == x * x,
            yy == y * y,
            zz == z * z,
    ;
    let d = ieee::abs_of(tu - sq) as int;
    assert(d * 0x20_0000_0000_0000 <= sq + 3 * (u * 0x10_0000_0000_0000));
    assert(tu <= 2 * sq + 3 * u);
    let f = ieee::abs_of(su - sq) as int;
    assert(f <= eu + d);
}

/// A finite sum of the squares of three numbers is off by no more than one part in `2^50`,
/// and two of the smallest positive number. It is one of finite numbers.
pub proof fn law_squares_near(x: F64, y: F64, z: F64)
    requires
        x.times(x).plus(y.times(y)).plus(z.times(z)).finite(),
    ensures
        x.finite(),
        y.finite(),
        z.finite(),
        x.times(x).plus(y.times(y)).plus(z.times(z)).rank() >= 0,
        ({
            let s = x.times(x).plus(y.times(y)).plus(z.times(z)).rank();
            let exact = squares(x.rank(), y.rank(), z.rank());
            ieee::abs_of(s * one64() - exact) * pow2(50) <= exact + one64() * pow2(51)
        }),
{
    let (p, q, r) = (x.times(x), y.times(y), z.times(z));
    let a = p.plus(q);
    let s = a.plus(r);
    a.law_plus_near(r);
    p.law_plus_near(q);
    x.law_times_near(x);
    y.law_times_near(y);
    z.law_times_near(z);
    lemma_square_sign(x);
    lemma_square_sign(y);
    lemma_square_sign(z);
    lemma2_to64();
    lemma2_to64_rest();
    lemma_pow2_pos(1074);
    lemma_squares_drift(
        one64() as int,
        x.rank(),
        y.rank(),
        z.rank(),
        p.rank(),
        q.rank(),
        r.rank(),
        a.rank(),
        s.rank(),
    );
}

/// No square is negative.
proof fn lemma_square_sign(x: F64)
    requires
        x.finite(),
    ensures
        x.times(x).rank() >= 0,
        x.rank() * x.rank() >= 0,
        ieee::abs_of(x.rank() * x.rank()) == x.rank() * x.rank(),
{
    reveal(F64::rank);
    reveal(F64::spec_times);
    lemma_pow2_pos(1074);
    lemma_product_value(ieee::double(), x.bits, x.bits);
    let v = x.rank();
    assert(v * v >= 0) by (nonlinear_arith);
}

/// The square of a number up to `2^510` is finite.
proof fn lemma_square_bounded(x: F64)
    requires
        x.finite(),
        ieee::abs_of(x.rank()) <= pow2(510) * one64(),
    ensures
        x.times(x).finite(),
        0 <= x.times(x).rank() <= pow2(2094),
{
    lemma_square_sign(x);
    reveal(F64::rank);
    reveal(F64::spec_times);
    let f = ieee::double();
    lemma_pow2_pos(1074);
    lemma_product_value(f, x.bits, x.bits);
    let v = x.rank();
    let m = ieee::abs_of(v);
    lemma_pow2_adds(510, 1074);
    lemma_pow2_adds(1584, 1584);
    lemma_pow2_adds(1074, 2094);
    let b = pow2(1584);
    assert(v * v == m * m) by (nonlinear_arith)
        requires
            m == v || m == -v,
    ;
    assert(m * m <= b * b) by (nonlinear_arith)
        requires
            0 <= m <= b,
    ;
    lemma_bounded(ieee::spec_times(f, x.bits, x.bits), v * v, one64(), 2094);
}

/// The sum of the squares of three numbers up to `2^510` is finite.
pub proof fn law_squares_finite(x: F64, y: F64, z: F64)
    requires
        x.finite(),
        y.finite(),
        z.finite(),
        ieee::abs_of(x.rank()) <= pow2(510) * one64(),
        ieee::abs_of(y.rank()) <= pow2(510) * one64(),
        ieee::abs_of(z.rank()) <= pow2(510) * one64(),
    ensures
        x.times(x).plus(y.times(y)).plus(z.times(z)).finite(),
        x.times(x).plus(y.times(y)).plus(z.times(z)).rank() <= pow2(2096),
{
    lemma_square_bounded(x);
    lemma_square_bounded(y);
    lemma_square_bounded(z);
    reveal(F64::rank);
    reveal(F64::spec_plus);
    let f = ieee::double();
    let (p, q, r) = (x.times(x), y.times(y), z.times(z));
    lemma_pow2_unfold(2095);
    lemma_pow2_unfold(2096);
    isotone::lemma_plus_value(f, p.bits, q.bits);
    assert(1 * pow2(2095) == pow2(2095));
    assert(1 * pow2(2096) == pow2(2096));
    lemma_bounded(ieee::spec_plus(f, p.bits, q.bits), p.rank() + q.rank(), 1, 2095);
    let a = p.plus(q);
    isotone::lemma_plus_value(f, a.bits, r.bits);
    lemma_bounded(ieee::spec_plus(f, a.bits, r.bits), a.rank() + r.rank(), 1, 2096);
}

/// The difference of two numbers up to `2^509` is finite.
pub proof fn lemma_difference_bounded(x: F64, y: F64)
    requires
        x.finite(),
        y.finite(),
        ieee::abs_of(x.rank()) <= pow2(509) * one64(),
        ieee::abs_of(y.rank()) <= pow2(509) * one64(),
    ensures
        x.minus(y).finite(),
        ieee::abs_of(x.minus(y).rank()) <= pow2(510) * one64(),
{
    reveal(F64::rank);
    reveal(F64::spec_minus);
    let f = ieee::double();
    let z = ieee::spec_neg(f, y.bits);
    isotone::lemma_neg_value(f, y.bits);
    isotone::lemma_plus_value(f, x.bits, z);
    lemma_pow2_adds(509, 1074);
    lemma_pow2_adds(510, 1074);
    lemma_pow2_unfold(1584);
    assert(1 * pow2(1584) == pow2(1584));
    lemma_bounded(ieee::spec_plus(f, x.bits, z), x.rank() - y.rank(), 1, 1584);
}

/// Infinity is above every finite number.
pub proof fn lemma_infinity_above(x: F64)
    requires
        x.finite(),
    ensures
        x.lt(F64 { bits: INF64 }),
        !(F64 { bits: INF64 }).nan(),
{
    reveal(F64::rank);
    let f = ieee::double();
    ieee::lemma_units_increase(53, f.mag(x.bits) as nat, f.inf as nat);
}

/// A quotient of no more than two is finite, and has the sign of what is divided.
pub proof fn lemma_quotient_bounded(x: F64, by: F64)
    requires
        x.finite(),
        by.finite(),
        by.rank() > 0,
        ieee::abs_of(x.rank()) <= 2 * by.rank(),
    ensures
        x.over(by).finite(),
        ieee::abs_of(x.over(by).rank()) <= 2 * one64(),
        x.rank() >= 0 ==> x.over(by).rank() >= 0,
        x.rank() <= 0 ==> x.over(by).rank() <= 0,
{
    reveal(F64::rank);
    reveal(F64::spec_over);
    let f = ieee::double();
    monotone::lemma_sign(f, by.bits);
    isotone::lemma_over_value(f, x.bits, by.bits);
    lemma_pow2_pos(1074);
    lemma_pow2_unfold(1075);
    isotone::lemma_abs_times(x.rank(), one64());
    let a = ieee::abs_of(x.rank());
    let b = f.units(by.bits);
    let u = one64();
    assert(a * u <= b * (2 * u)) by (nonlinear_arith)
        requires
            a <= 2 * b,
    ;
    lemma_bounded(ieee::spec_over(f, x.bits, by.bits), x.rank() * one64(), b, 1075);
    if x.rank() == 0 {
        monotone::lemma_round_zero(53, f.inf as nat, b);
        monotone::lemma_units_zero(53);
    }
}

/// One as a single, and two.
pub proof fn lemma_one32()
    ensures
        (F32 { bits: ONE32 }).finite(),
        (F32 { bits: ONE32 }).rank() == one32(),
        (F32 { bits: 0x4000_0000 }).finite(),
        (F32 { bits: 0x4000_0000 }).rank() == 2 * one32(),
{
    reveal(F32::rank);
    lemma2_to64();
    lemma2_to64_rest();
    monotone::lemma_units_of(24, 126, pow2(23));
    monotone::lemma_units_of(24, 127, pow2(23));
    lemma_pow2_adds(23, 126);
    lemma_pow2_adds(23, 127);
    lemma_pow2_unfold(150);
}

/// A number of no more than two is narrowed to a finite one of the same sign.
pub proof fn lemma_narrow_bounded(x: F64)
    requires
        x.finite(),
        ieee::abs_of(x.rank()) <= 2 * one64(),
    ensures
        x.narrow().finite(),
        x.rank() >= 0 ==> x.narrow().rank() >= 0,
        x.rank() <= 0 ==> x.narrow().rank() <= 0,
{
    lemma_narrow_value(x);
    lemma_one32();
    reveal(F32::rank);
    let g = ieee::single();
    let z = ieee::spec_convert(ieee::double(), g, x.bits);
    let two = 0x4000_0000u64;
    let b = 2 * one32() as int;
    let u = one64() as int;
    let o = one32() as int;
    lemma_pow2_pos(1074);
    lemma_pow2_pos(149);
    let s = x.rank() * o;
    assert(-(b * u) <= s <= b * u) by (nonlinear_arith)
        requires
            s == x.rank() * o,
            b == 2 * o,
            -(2 * u) <= x.rank() <= 2 * u,
            o > 0,
    ;
    assert(b * u > 0) by (nonlinear_arith)
        requires
            b > 0,
            u > 0,
    ;
    halving::lemma_rounded_exact(g, two, one64());
    isotone::lemma_rounded_ordered(g, s, b * u, one64());
    isotone::lemma_rounded_ordered(g, -(b * u), s, one64());
    assert(ieee::abs_of(-(b * u)) == ieee::abs_of(b * u));
    if g.infinite(z) {
        ieee::lemma_units_increase(24, two as nat, g.inf as nat);
    }
    isotone::lemma_abs_times(x.rank(), one32());
    if x.rank() == 0 {
        monotone::lemma_round_zero(24, g.inf as nat, one64());
        monotone::lemma_units_zero(24);
    }
}

/// The exact square of the distance of two points, over all three axes.
pub open spec fn apart(a: [F64; 3], b: [F64; 3]) -> int {
    squares(
        a[0].rank() - b[0].rank(),
        a[1].rank() - b[1].rank(),
        a[2].rank() - b[2].rank(),
    )
}

/// Whether a point is finite and no coordinate is over `2^509`.
pub open spec fn in_reach(p: [F64; 3]) -> bool {
    forall|k: int|
        0 <= k < 3 ==> (#[trigger] p[k]).finite() && ieee::abs_of(p[k].rank()) <= pow2(509)
            * one64()
}

/// The square of a difference that was rounded.
proof fn lemma_square_of_rounded(d: int, e: int)
    requires
        ieee::abs_of(d - e) * 0x20_0000_0000_0000 <= ieee::abs_of(e),
    ensures
        ieee::abs_of(d * d - e * e) * 0x8_0000_0000_0000 <= e * e,
{
    let t = d - e;
    let a = ieee::abs_of(t) as int;
    let b = ieee::abs_of(e) as int;
    assert(e * e == b * b) by (nonlinear_arith)
        requires
            b == e || b == -e,
    ;
    assert(d * d - e * e == t * (2 * e + t)) by (nonlinear_arith)
        requires
            t == d - e,
    ;
    let r = t * (2 * e + t);
    assert(-(3 * (a * b)) <= r <= 3 * (a * b)) by (nonlinear_arith)
        requires
            r == t * (2 * e + t),
            a == t || a == -t,
            b == e || b == -e,
            0 <= a <= b,
    ;
    assert(3 * (a * b) * 0x8_0000_0000_0000 <= b * b) by (nonlinear_arith)
        requires
            a * 0x20_0000_0000_0000 <= b,
            a >= 0,
            b >= 0,
    ;
}

/// The sum of the squares of the differences of two points, as it is computed.
pub open spec fn offsets_squared(a: [F64; 3], b: [F64; 3]) -> F64 {
    let (x, y, z) = (a[0].minus(b[0]), a[1].minus(b[1]), a[2].minus(b[2]));
    x.times(x).plus(y.times(y)).plus(z.times(z))
}

/// The computed square of the distance of two points is off by no more than one part in
/// `2^48`, and two of the smallest positive number.
pub proof fn lemma_apart_near(a: [F64; 3], b: [F64; 3])
    requires
        offsets_squared(a, b).finite(),
    ensures
        ieee::abs_of(offsets_squared(a, b).rank() * one64() - apart(a, b)) * pow2(48) <= apart(a, b)
            + one64() * pow2(49),
{
    let (x, y, z) = (a[0].minus(b[0]), a[1].minus(b[1]), a[2].minus(b[2]));
    law_squares_near(x, y, z);
    a[0].law_minus_near(b[0]);
    a[1].law_minus_near(b[1]);
    a[2].law_minus_near(b[2]);
    lemma2_to64();
    lemma2_to64_rest();
    lemma_square_of_rounded(x.rank(), a[0].rank() - b[0].rank());
    lemma_square_of_rounded(y.rank(), a[1].rank() - b[1].rank());
    lemma_square_of_rounded(z.rank(), a[2].rank() - b[2].rank());
    let s = offsets_squared(a, b).rank() * one64();
    let q = squares(x.rank(), y.rank(), z.rank());
    let d = apart(a, b);
    assert(ieee::abs_of(q - d) * 0x8_0000_0000_0000 <= d);
    assert(ieee::abs_of(s - d) <= ieee::abs_of(s - q) + ieee::abs_of(q - d));
}

/// The computed square of the distance of two points in reach is finite.
pub proof fn lemma_apart_finite(a: [F64; 3], b: [F64; 3])
    requires
        in_reach(a),
        in_reach(b),
    ensures
        offsets_squared(a, b).finite(),
{
    assert(a[0].finite() && a[1].finite() && a[2].finite());
    assert(b[0].finite() && b[1].finite() && b[2].finite());
    lemma_difference_bounded(a[0], b[0]);
    lemma_difference_bounded(a[1], b[1]);
    lemma_difference_bounded(a[2], b[2]);
    law_squares_finite(a[0].minus(b[0]), a[1].minus(b[1]), a[2].minus(b[2]));
}

/// Where one computed square is no larger than another, the exact one is no larger either,
/// up to rounding.
pub proof fn lemma_apart_ordered(a: [F64; 3], b: [F64; 3], c: [F64; 3], d: [F64; 3])
    requires
        offsets_squared(a, b).le(offsets_squared(c, d)),
        offsets_squared(a, b).finite(),
        offsets_squared(c, d).finite(),
    ensures
        apart(a, b) * (pow2(48) - 1) <= apart(c, d) * (pow2(48) + 1) + one64() * pow2(50),
{
    lemma_apart_near(a, b);
    lemma_apart_near(c, d);
    lemma2_to64();
    lemma2_to64_rest();
    lemma_pow2_pos(1074);
    let u = one64() as int;
    let x = offsets_squared(a, b).rank();
    let y = offsets_squared(c, d).rank();
    assert(x * u <= y * u) by (nonlinear_arith)
        requires
            x <= y,
            u > 0,
    ;
    let (e, g) = (apart(a, b), apart(c, d));
    let w = pow2(48) as int;
    assert(e * (w - 1) == e * w - e && g * (w + 1) == g * w + g) by (nonlinear_arith);
}

/// A quotient by a number of one or more is finite.
pub proof fn lemma_over_finite(x: F64, by: F64)
    requires
        x.finite(),
        by.finite(),
        by.rank() >= one64(),
    ensures
        x.over(by).finite(),
{
    reveal(F64::rank);
    reveal(F64::spec_over);
    let f = ieee::double();
    lemma_pow2_pos(1074);
    monotone::lemma_sign(f, by.bits);
    isotone::lemma_over_value(f, x.bits, by.bits);
    let z = ieee::spec_over(f, x.bits, by.bits);
    let v = x.rank();
    let b = f.units(by.bits);
    let m = ieee::abs_of(v) as int;
    let u = one64() as int;
    // The number itself is a bound for the quotient.
    let s = v * u;
    assert(-(m * b) <= s <= m * b) by (nonlinear_arith)
        requires
            s == v * u,
            m == v || m == -v,
            m >= 0,
            b >= u,
            u > 0,
    ;
    let y = f.mag(x.bits);
    assert(f.finite(y) && f.value(y) == m);
    halving::lemma_rounded_exact(f, y, b);
    isotone::lemma_rounded_ordered(f, s, m * b, b);
    isotone::lemma_rounded_ordered(f, -(m * b), s, b);
    isotone::lemma_abs_times(m, b);
    assert(ieee::abs_of(-(m * b)) == ieee::abs_of(m * b));
    if f.infinite(z) {
        ieee::lemma_units_increase(53, y as nat, f.inf as nat);
    }
}

/// Nothing over anything is nothing.
pub proof fn lemma_zero_over(x: F64, by: F64)
    requires
        x.finite(),
        x.rank() == 0,
        by.finite(),
        by.rank() > 0,
    ensures
        x.over(by).finite(),
        x.over(by).rank() == 0,
{
    lemma_pow2_pos(1074);
    lemma_quotient_bounded(x, by);
}

/// The root of nothing is nothing.
pub proof fn lemma_root_of_zero(x: F64)
    requires
        x.finite(),
        x.rank() == 0,
    ensures
        x.root().finite(),
        x.root().rank() == 0,
{
    reveal(F64::rank);
    reveal(F64::spec_root);
    monotone::lemma_sign(ieee::double(), x.bits);
}

/// A sum of squares is not negative.
pub proof fn lemma_squares_sign(x: int, y: int, z: int)
    ensures
        squares(x, y, z) >= 0,
{
    assert(x * x >= 0 && y * y >= 0 && z * z >= 0) by (nonlinear_arith);
}

/// Negative infinity is below every finite number.
pub proof fn lemma_infinity_below(x: F64)
    requires
        x.finite(),
    ensures
        (F64 { bits: NEG_INF64 }).lt(x),
        !(F64 { bits: NEG_INF64 }).nan(),
{
    reveal(F64::rank);
    let f = ieee::double();
    ieee::lemma_units_increase(53, f.mag(x.bits) as nat, f.inf as nat);
}

/// The difference of two numbers that are not too large together is finite.
pub proof fn lemma_minus_bounded(x: F64, y: F64, b: int)
    requires
        x.finite(),
        y.finite(),
        ieee::abs_of(x.rank()) + ieee::abs_of(y.rank()) <= b,
        b <= pow2(2060),
    ensures
        x.minus(y).finite(),
{
    reveal(F64::rank);
    reveal(F64::spec_minus);
    let f = ieee::double();
    let z = ieee::spec_neg(f, y.bits);
    isotone::lemma_neg_value(f, y.bits);
    isotone::lemma_plus_value(f, x.bits, z);
    assert(1 * pow2(2060) == pow2(2060));
    lemma_bounded(ieee::spec_plus(f, x.bits, z), x.rank() - y.rank(), 1, 2060);
}

} // verus!
