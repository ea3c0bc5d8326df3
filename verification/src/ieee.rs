//! Binary floating-point arithmetic on bit patterns.
//!
//! The two formats are the 64-bit and the 32-bit interchange formats of IEEE 754.
//! A pattern of either is held in a `u64`. Every operation returns the pattern
//! that rounding the exact result to nearest, ties to even, gives; where the
//! result is not a number the pattern is the positive quiet one without payload.

use crate::rounding;
use vstd::arithmetic::div_mod::*;
use vstd::arithmetic::mul::*;
use vstd::arithmetic::power2::*;
use vstd::prelude::*;

verus! {

/// A binary interchange format.
#[derive(Clone, Copy, Debug, PartialEq, Eq, Structural)]
pub struct Format {
    /// Significant bits, the hidden one included.
    pub precision: u32,
    /// Pattern of positive infinity.
    pub inf: u64,
    /// The pattern of an invalid result.
    pub invalid: u64,
    /// The sign bit.
    pub sign: u64,
    /// The smallest positive value is `2^-unit`.
    pub unit: u32,
}

/// The 64-bit format.
pub open spec fn spec_double() -> Format {
    Format {
        precision: 53,
        inf: 0x7ff0_0000_0000_0000,
        invalid: 0x7ff8_0000_0000_0000,
        sign: 0x8000_0000_0000_0000,
        unit: 1074,
    }
}

/// The 32-bit format.
pub open spec fn spec_single() -> Format {
    Format { precision: 24, inf: 0x7f80_0000, invalid: 0x7fc0_0000, sign: 0x8000_0000, unit: 149 }
}

/// The 64-bit format.
#[verifier::when_used_as_spec(spec_double)]
pub fn double() -> (f: Format)
    ensures
        f == spec_double(),
{
    Format {
        precision: 53,
        inf: 0x7ff0_0000_0000_0000,
        invalid: 0x7ff8_0000_0000_0000,
        sign: 0x8000_0000_0000_0000,
        unit: 1074,
    }
}

/// The 32-bit format.
#[verifier::when_used_as_spec(spec_single)]
pub fn single() -> (f: Format)
    ensures
        f == spec_single(),
{
    Format { precision: 24, inf: 0x7f80_0000, invalid: 0x7fc0_0000, sign: 0x8000_0000, unit: 149 }
}

impl Format {
    /// One of the two formats.
    pub open spec fn wf(self) -> bool {
        self == spec_double() || self == spec_single()
    }

    /// Whether `x` is a pattern of this format.
    pub open spec fn fits(self, x: u64) -> bool {
        x < 2 * self.sign
    }

    /// Whether the sign bit of `x` is set.
    pub open spec fn neg(self, x: u64) -> bool {
        x >= self.sign
    }

    /// The pattern without its sign bit.
    pub open spec fn mag(self, x: u64) -> u64 {
        if x >= self.sign {
            (x - self.sign) as u64
        } else {
            x
        }
    }

    /// Whether `x` is not a number.
    pub open spec fn nan(self, x: u64) -> bool {
        self.mag(x) > self.inf
    }

    /// Whether `x` is infinite.
    pub open spec fn infinite(self, x: u64) -> bool {
        self.mag(x) == self.inf
    }

    /// Whether `x` is neither infinite nor not a number.
    pub open spec fn finite(self, x: u64) -> bool {
        self.mag(x) < self.inf
    }

    /// Whether `x` is zero, of either sign.
    pub open spec fn zero(self, x: u64) -> bool {
        self.mag(x) == 0
    }

    /// The magnitude of `x` in units of the smallest positive value.
    pub open spec fn units(self, x: u64) -> nat {
        rounding::units(self.precision as nat, self.mag(x) as nat)
    }

    /// The value of `x` in units of the smallest positive value. An infinity
    /// stands one step beyond the largest finite value.
    pub open spec fn value(self, x: u64) -> int {
        if self.neg(x) {
            -(self.units(x) as int)
        } else {
            self.units(x) as int
        }
    }

    /// The pattern with the given sign and magnitude.
    pub open spec fn signed(self, neg: bool, mag: nat) -> u64 {
        if neg {
            (self.sign + mag) as u64
        } else {
            mag as u64
        }
    }

    /// The pattern nearest to `num / den` units, with the given sign.
    pub open spec fn nearest(self, neg: bool, num: nat, den: nat) -> u64 {
        self.signed(neg, rounding::round_mag(self.precision as nat, self.inf as nat, num, den))
    }
}

/// Distance of `v` from zero.
pub open spec fn abs_of(v: int) -> nat {
    if v < 0 {
        (-v) as nat
    } else {
        v as nat
    }
}

/// `x < y`: false where either is not a number; zeros of both signs are equal.
pub open spec fn spec_lt(f: Format, x: u64, y: u64) -> bool {
    !f.nan(x) && !f.nan(y) && f.value(x) < f.value(y)
}

/// `-x`.
pub open spec fn spec_neg(f: Format, x: u64) -> u64 {
    if f.neg(x) {
        (x - f.sign) as u64
    } else {
        (x + f.sign) as u64
    }
}

/// `x + y`.
pub open spec fn spec_plus(f: Format, x: u64, y: u64) -> u64 {
    if f.nan(x) || f.nan(y) || (f.infinite(x) && f.infinite(y) && f.neg(x) != f.neg(y)) {
        f.invalid
    } else if f.infinite(x) {
        x
    } else if f.infinite(y) {
        y
    } else {
        let sum = f.value(x) + f.value(y);
        if sum == 0 {
            f.signed(f.neg(x) && f.neg(y), 0)
        } else {
            f.nearest(sum < 0, abs_of(sum), 1)
        }
    }
}

/// `x - y`.
pub open spec fn spec_minus(f: Format, x: u64, y: u64) -> u64 {
    spec_plus(f, x, spec_neg(f, y))
}

/// `x * y`.
pub open spec fn spec_times(f: Format, x: u64, y: u64) -> u64 {
    let neg = f.neg(x) != f.neg(y);
    if f.nan(x) || f.nan(y) || (f.infinite(x) && f.zero(y)) || (f.zero(x) && f.infinite(y)) {
        f.invalid
    } else if f.infinite(x) || f.infinite(y) {
        f.signed(neg, f.inf as nat)
    } else {
        f.nearest(neg, f.units(x) * f.units(y), pow2(f.unit as nat))
    }
}

/// `x / y`.
pub open spec fn spec_over(f: Format, x: u64, y: u64) -> u64 {
    let neg = f.neg(x) != f.neg(y);
    if f.nan(x) || f.nan(y) || (f.infinite(x) && f.infinite(y)) || (f.zero(x) && f.zero(y)) {
        f.invalid
    } else if f.infinite(x) || f.zero(y) {
        f.signed(neg, f.inf as nat)
    } else if f.infinite(y) {
        f.signed(neg, 0)
    } else {
        f.nearest(neg, f.units(x) * pow2(f.unit as nat), f.units(y))
    }
}

/// The two formats' constants, as powers of two.
proof fn lemma_format(f: Format)
    requires
        f.wf(),
    ensures
        f.inf as nat / pow2((f.precision - 1) as nat) <= 2047,
        f.inf as nat % pow2((f.precision - 1) as nat) == 0,
        0 < f.inf < f.invalid < f.sign,
        f.sign <= 0x8000_0000_0000_0000,
        pow2((f.precision - 1) as nat) <= 0x10_0000_0000_0000,
        pow2((f.precision - 1) as nat) == f.sign / (if f.precision == 53 {
            2048
        } else {
            256
        }),
{
    lemma2_to64();
    lemma2_to64_rest();
    if f.precision == 53 {
        assert(f.inf as nat / pow2(52) == 0x7ff0_0000_0000_0000nat / 0x10_0000_0000_0000nat);
        assert(f.inf as nat % pow2(52) == 0x7ff0_0000_0000_0000nat % 0x10_0000_0000_0000nat);
    } else {
        assert(f.inf as nat / pow2(23) == 0x7f80_0000nat / 0x80_0000nat);
        assert(f.inf as nat % pow2(23) == 0x7f80_0000nat % 0x80_0000nat);
    }
}

/// Exponent and significand of a finite magnitude.
fn decode(f: Format, mag: u64) -> (r: (u64, u32))
    requires
        f.wf(),
        mag <= f.inf,
    ensures
        rounding::units(f.precision as nat, mag as nat) == r.0 * pow2(r.1 as nat),
        r.0 < pow2(f.precision as nat),
        r.1 > 0 ==> r.0 >= pow2((f.precision - 1) as nat),
        mag == r.1 * pow2((f.precision - 1) as nat) + r.0,
        r.1 <= 2046,
        mag > 0 ==> r.0 > 0,
{
    proof {
        lemma_format(f);
        lemma2_to64();
        lemma2_to64_rest();
        lemma_pow2_unfold(f.precision as nat);
    }
    let step: u64 = if f.precision == 53 {
        0x10_0000_0000_0000
    } else {
        0x80_0000
    };
    let ghost h = pow2((f.precision - 1) as nat);
    assert(step == h);
    let field: u64 = mag / step;
    let low: u64 = mag % step;
    proof {
        lemma_fundamental_div_mod(mag as int, step as int);
        lemma_div_is_ordered(mag as int, f.inf as int, step as int);
    }
    if field == 0 {
        proof {
            assert(mag < step);
            assert(mag * pow2(0) == mag) by (nonlinear_arith)
                requires
                    pow2(0) == 1,
            ;
        }
        (mag, 0)
    } else {
        proof {
            assert(mag >= step) by (nonlinear_arith)
                requires
                    mag == step * field + low,
                    field >= 1,
                    low >= 0,
            ;
            assert(mag == (field - 1) * step + (step + low)) by (nonlinear_arith)
                requires
                    mag == step * field + low,
            ;
        }
        (step + low, (field - 1) as u32)
    }
}


/// A larger magnitude pattern stands for a larger magnitude.
pub proof fn lemma_units_increase(p: nat, a: nat, b: nat)
    requires
        p > 0,
        a < b,
    ensures
        rounding::units(p, a) < rounding::units(p, b),
{
    let h = pow2((p - 1) as nat);
    lemma_pow2_pos((p - 1) as nat);
    if b >= h {
        lemma_fundamental_div_mod(b as int, h as int);
        let fb = b / h;
        assert(fb >= 1) by (nonlinear_arith)
            requires
                b == h * fb + b % h,
                b >= h,
                b % h < h,
                h > 0,
        ;
        lemma_pow2_pos((fb - 1) as nat);
        let pb = pow2((fb - 1) as nat);
        if a < h {
            assert((h + b % h) * pb >= h) by (nonlinear_arith)
                requires
                    pb >= 1,
                    b % h >= 0,
                    h > 0,
            ;
        } else {
            lemma_fundamental_div_mod(a as int, h as int);
            let fa = a / h;
            assert(fa >= 1) by (nonlinear_arith)
                requires
                    a == h * fa + a % h,
                    a >= h,
                    a % h < h,
                    h > 0,
            ;
            lemma_div_is_ordered(a as int, b as int, h as int);
            let pa = pow2((fa - 1) as nat);
            lemma_pow2_pos((fa - 1) as nat);
            if fa == fb {
                assert(a % h < b % h);
                let ra = a % h;
                let rb = b % h;
                assert((h + ra) * pa < (h + rb) * pa) by (nonlinear_arith)
                    requires
                        ra < rb,
                        pa > 0,
                ;
            } else {
                lemma_pow2_unfold(fa);
                rounding::lemma_pow2_mono(fa, (fb - 1) as nat);
                let ra = a % h;
                assert((h + ra) * pa < (h + h) * pa) by (nonlinear_arith)
                    requires
                        ra < h,
                        pa > 0,
                ;
                assert((h + h) * pa == h * (2 * pa)) by (nonlinear_arith);
                assert(h * (2 * pa) <= h * pb) by (nonlinear_arith)
                    requires
                        2 * pa <= pb,
                        h > 0,
                ;
                assert(h * pb <= (h + b % h) * pb) by (nonlinear_arith)
                    requires
                        b % h >= 0,
                        pb > 0,
                ;
            }
        }
    }
}

/// The order of the values is the order of the signed magnitude patterns.
pub proof fn lemma_value_order(f: Format, x: u64, y: u64)
    requires
        f.wf(),
    ensures
        (f.value(x) < f.value(y)) == ((if f.neg(x) {
            -(f.mag(x) as int)
        } else {
            f.mag(x) as int
        }) < (if f.neg(y) {
            -(f.mag(y) as int)
        } else {
            f.mag(y) as int
        })),
{
    let p = f.precision as nat;
    let a = f.mag(x) as nat;
    let b = f.mag(y) as nat;
    lemma_pow2_pos((p - 1) as nat);
    if a < b {
        lemma_units_increase(p, a, b);
    }
    if b < a {
        lemma_units_increase(p, b, a);
    }
    if a > 0 {
        lemma_units_increase(p, 0, a);
    }
    if b > 0 {
        lemma_units_increase(p, 0, b);
    }
}

/// The sign of `x` and its magnitude pattern.
fn parts(f: Format, x: u64) -> (r: (bool, u64))
    requires
        f.wf(),
    ensures
        r.0 == f.neg(x),
        r.1 == f.mag(x),
{
    if x >= f.sign {
        (true, x - f.sign)
    } else {
        (false, x)
    }
}

/// Whether `x` is not a number.
pub fn is_nan(f: Format, x: u64) -> (r: bool)
    requires
        f.wf(),
    ensures
        r == f.nan(x),
{
    parts(f, x).1 > f.inf
}

/// Whether `x` is finite.
pub fn is_finite(f: Format, x: u64) -> (r: bool)
    requires
        f.wf(),
    ensures
        r == f.finite(x),
{
    parts(f, x).1 < f.inf
}

/// `x < y`.
pub fn lt(f: Format, x: u64, y: u64) -> (r: bool)
    requires
        f.wf(),
        f.fits(x),
        f.fits(y),
    ensures
        r == spec_lt(f, x, y),
{
    let (nx, mx) = parts(f, x);
    let (ny, my) = parts(f, y);
    proof {
        lemma_value_order(f, x, y);
    }
    if mx > f.inf || my > f.inf {
        return false;
    }
    if nx {
        if ny {
            my < mx
        } else {
            mx > 0 || my > 0
        }
    } else if ny {
        false
    } else {
        mx < my
    }
}

/// `-x`.
pub fn negate(f: Format, x: u64) -> (r: u64)
    requires
        f.wf(),
        f.fits(x),
    ensures
        r == spec_neg(f, x),
        f.fits(r),
{
    if x >= f.sign {
        x - f.sign
    } else {
        x + f.sign
    }
}

/// The pattern with the given sign and magnitude.
fn with_sign(f: Format, neg: bool, mag: u64) -> (r: u64)
    requires
        f.wf(),
        mag < f.sign,
    ensures
        r == f.signed(neg, mag as nat),
        f.fits(r),
        f.neg(r) == neg,
        f.mag(r) == mag,
{
    if neg {
        f.sign + mag
    } else {
        mag
    }
}

/// Adding or taking away less than a quarter of the last place changes nothing.
proof fn lemma_far(p: nat, inf: nat, m: nat, s: nat, delta: nat, minus: bool)
    requires
        p >= 2,
        s >= 2,
        pow2((p - 1) as nat) <= m < pow2(p),
        4 * delta < pow2(s),
        s * pow2((p - 1) as nat) + m <= inf,
    ensures
        m * pow2(s) >= delta,
        rounding::round_mag(
            p,
            inf,
            (if minus {
                m * pow2(s) - delta
            } else {
                (m * pow2(s) + delta) as int
            }) as nat,
            1,
        ) == s * pow2((p - 1) as nat) + m,
{
    let h = pow2((p - 1) as nat);
    let w = pow2(s);
    lemma_pow2_pos((p - 1) as nat);
    lemma_pow2_pos(s);
    lemma_pow2_unfold(p);
    lemma_pow2_unfold(s);
    lemma_pow2_unfold((s - 1) as nat);
    let w1 = pow2((s - 1) as nat);
    let w2 = pow2((s - 2) as nat);
    assert(m * w >= w) by (nonlinear_arith)
        requires
            m >= 1,
            w > 0,
    ;
    let x: nat = (if minus {
        m * w - delta
    } else {
        (m * w + delta) as int
    }) as nat;
    assert(1 * pow2(p) == pow2(p));
    assert(1 * pow2(s) == pow2(s));
    assert(1 * w1 == w1);
    if !minus || m > h || delta == 0 {
        assert(x < pow2(p) * w) by (nonlinear_arith)
            requires
                x <= m * w + delta,
                delta < w,
                m + 1 <= pow2(p),
        ;
        assert(x >= pow2(p) * w1) by (nonlinear_arith)
            requires
                x >= m * w - delta,
                !minus || m >= h + 1 || delta == 0,
                !minus ==> x >= m * w,
                delta == 0 ==> x >= m * w,
                m >= h,
                delta < w,
                pow2(p) == 2 * h,
                w == 2 * w1,
        ;
        rounding::lemma_shift_for(x, pow2(p), s);
        if minus && delta > 0 {
            assert(x == (m - 1) * w + (w - delta)) by (nonlinear_arith)
                requires
                    x == m * w - delta,
            ;
            lemma_fundamental_div_mod_converse(x as int, w as int, m - 1, w - delta);
        } else {
            lemma_fundamental_div_mod_converse(x as int, w as int, m as int, delta as int);
        }
    } else {
        assert(x < pow2(p) * w1) by (nonlinear_arith)
            requires
                x == m * w - delta,
                m == h,
                delta > 0,
                pow2(p) == 2 * h,
                w == 2 * w1,
        ;
        assert(x >= pow2(p) * w2) by (nonlinear_arith)
            requires
                x == m * w - delta,
                m == h,
                h >= 1,
                4 * delta < w,
                pow2(p) == 2 * h,
                w == 4 * w2,
        ;
        rounding::lemma_shift_for(x, pow2(p), (s - 1) as nat);
        assert(x == (2 * m - 1) * w1 + (w1 - delta)) by (nonlinear_arith)
            requires
                x == m * w - delta,
                w == 2 * w1,
        ;
        lemma_fundamental_div_mod_converse(x as int, w1 as int, 2 * m - 1, w1 - delta);
        assert((s - 1) * h + pow2(p) == s * h + m) by (nonlinear_arith)
            requires
                pow2(p) == 2 * h,
                m == h,
        ;
    }
}


/// `u` with the given sign.
pub open spec fn with_neg(neg: bool, u: nat) -> int {
    if neg {
        -(u as int)
    } else {
        u as int
    }
}

/// Sign and rounded magnitude of the sum of two decoded values, the first of
/// which has the larger exponent.
fn sum_decoded(f: Format, n1: bool, d1: (u64, u32), n2: bool, d2: (u64, u32)) -> (r: (bool, u64))
    requires
        f.wf(),
        d1.0 < pow2(f.precision as nat),
        d2.0 < pow2(f.precision as nat),
        d1.1 > 0 ==> d1.0 >= pow2((f.precision - 1) as nat),
        d2.1 <= d1.1 <= 2046,
        d1.1 * pow2((f.precision - 1) as nat) + d1.0 <= f.inf,
    ensures
        ({
            let sum = with_neg(n1, d1.0 as nat * pow2(d1.1 as nat)) + with_neg(
                n2,
                d2.0 as nat * pow2(d2.1 as nat),
            );
            &&& sum == 0 ==> r == (n1 && n2, 0u64)
            &&& sum != 0 ==> r.0 == (sum < 0) && r.1 == rounding::round_mag(
                f.precision as nat,
                f.inf as nat,
                abs_of(sum),
                1,
            )
        }),
        r.1 <= f.inf,
{
    let (m1, s1) = d1;
    let (m2, s2) = d2;
    let d: u32 = s1 - s2;
    let ghost p = f.precision as nat;
    let ghost u1 = m1 as nat * pow2(s1 as nat);
    let ghost u2 = m2 as nat * pow2(s2 as nat);
    let ghost w = pow2(s2 as nat);
    proof {
        lemma2_to64();
        lemma2_to64_rest();
        rounding::lemma_pow2_mono(p, 53);
        lemma_pow2_pos(s2 as nat);
        lemma_pow2_pos(d as nat);
        lemma_pow2_adds(d as nat, s2 as nat);
        assert(u1 == (m1 * pow2(d as nat)) * w) by (nonlinear_arith)
            requires
                u1 == m1 * pow2(s1 as nat),
                pow2(s1 as nat) == pow2(d as nat) * w,
        ;
    }
    if d <= 64 {
        proof {
            rounding::lemma_pow2_mono(d as nat, 64);
            lemma_pow2_adds(53, 64);
            lemma_pow2_adds(53, 74);
            rounding::lemma_pow2_mono(10, 74);
            assert(m1 * pow2(d as nat) <= pow2(53) * pow2(64)) by (nonlinear_arith)
                requires
                    m1 <= pow2(53),
                    pow2(d as nat) <= pow2(64),
            ;
            assert(pow2(117) * 1024 <= pow2(127)) by {
                lemma_pow2_adds(117, 10);
            }
        }
        let a: u128 = rounding::shift_left(m1 as u128, d);
        let b: u128 = m2 as u128;
        if n1 == n2 {
            let n: u128 = a + b;
            proof {
                assert(n * w == u1 + u2) by (nonlinear_arith)
                    requires
                        n == a + b,
                        u1 == a * w,
                        u2 == b * w,
                ;
            }
            if n == 0 {
                proof {
                    assert(0 * w == 0);
                }
                return (n1 && n2, 0);
            }
            proof {
                assert(n * w > 0) by (nonlinear_arith)
                    requires
                        n > 0,
                        w > 0,
                ;
            }
            (n1, rounding::round_scaled(f.precision, f.inf, n, s2 as i32))
        } else if a == b {
            (false, 0)
        } else if a > b {
            let n: u128 = a - b;
            proof {
                assert(n * w == u1 - u2 && n * w > 0) by (nonlinear_arith)
                    requires
                        n == a - b,
                        n > 0,
                        w > 0,
                        u1 == a * w,
                        u2 == b * w,
                ;
            }
            (n1, rounding::round_scaled(f.precision, f.inf, n, s2 as i32))
        } else {
            let n: u128 = b - a;
            proof {
                assert(n * w == u2 - u1 && n * w > 0) by (nonlinear_arith)
                    requires
                        n == b - a,
                        n > 0,
                        w > 0,
                        u1 == a * w,
                        u2 == b * w,
                ;
            }
            (n2, rounding::round_scaled(f.precision, f.inf, n, s2 as i32))
        }
    } else {
        let step: u64 = if f.precision == 53 {
            0x10_0000_0000_0000
        } else {
            0x80_0000
        };
        proof {
            rounding::lemma_pow2_mono(55, d as nat);
            assert(4 * u2 < pow2(s1 as nat)) by (nonlinear_arith)
                requires
                    u2 == m2 * w,
                    m2 < pow2(53),
                    pow2(s1 as nat) == pow2(d as nat) * w,
                    pow2(d as nat) >= pow2(55),
                    pow2(55) == 4 * pow2(53),
                    w > 0,
            ;
            lemma_far(p, f.inf as nat, m1 as nat, s1 as nat, u2, n1 != n2);
            lemma_pow2_pos(s1 as nat);
            assert(u1 >= pow2(s1 as nat)) by (nonlinear_arith)
                requires
                    u1 == m1 * pow2(s1 as nat),
                    m1 >= 1,
                    pow2(s1 as nat) > 0,
            ;
            assert(s1 * step <= 2046 * step) by (nonlinear_arith)
                requires
                    s1 <= 2046,
                    step >= 0,
            ;
        }
        (n1, s1 as u64 * step + m1)
    }
}

/// `x + y`.
pub fn plus(f: Format, x: u64, y: u64) -> (r: u64)
    requires
        f.wf(),
        f.fits(x),
        f.fits(y),
    ensures
        r == spec_plus(f, x, y),
        f.fits(r),
{
    let (nx, mx) = parts(f, x);
    let (ny, my) = parts(f, y);
    proof {
        lemma_format(f);
    }
    if mx > f.inf || my > f.inf {
        return f.invalid;
    }
    if mx == f.inf {
        if my == f.inf && nx != ny {
            return f.invalid;
        }
        return x;
    }
    if my == f.inf {
        return y;
    }
    let dx = decode(f, mx);
    let dy = decode(f, my);
    let (neg, mag) = if dx.1 >= dy.1 {
        sum_decoded(f, nx, dx, ny, dy)
    } else {
        sum_decoded(f, ny, dy, nx, dx)
    };
    with_sign(f, neg, mag)
}

/// `x - y`.
pub fn minus(f: Format, x: u64, y: u64) -> (r: u64)
    requires
        f.wf(),
        f.fits(x),
        f.fits(y),
    ensures
        r == spec_minus(f, x, y),
        f.fits(r),
{
    plus(f, x, negate(f, y))
}

/// `x * y`.
pub fn times(f: Format, x: u64, y: u64) -> (r: u64)
    requires
        f.wf(),
        f.fits(x),
        f.fits(y),
    ensures
        r == spec_times(f, x, y),
        f.fits(r),
{
    let (nx, mx) = parts(f, x);
    let (ny, my) = parts(f, y);
    let neg: bool = nx != ny;
    proof {
        lemma_format(f);
    }
    if mx > f.inf || my > f.inf {
        return f.invalid;
    }
    if (mx == f.inf && my == 0) || (mx == 0 && my == f.inf) {
        return f.invalid;
    }
    if mx == f.inf || my == f.inf {
        return with_sign(f, neg, f.inf);
    }
    let (a, s) = decode(f, mx);
    let (b, t) = decode(f, my);
    proof {
        lemma2_to64();
        lemma2_to64_rest();
        rounding::lemma_pow2_mono(f.precision as nat, 53);
        lemma_pow2_adds(53, 53);
        rounding::lemma_pow2_mono(106, 127);
        assert(a * b <= pow2(53) * pow2(53)) by (nonlinear_arith)
            requires
                a <= pow2(53),
                b <= pow2(53),
        ;
        assert(a * b < pow2(53) * pow2(53)) by (nonlinear_arith)
            requires
                0 <= a < pow2(53),
                0 <= b < pow2(53),
        ;
        lemma_pow2_adds(63, 64);
    }
    let n: u128 = a as u128 * b as u128;
    let e: i32 = s as i32 + t as i32 - f.unit as i32;
    let mag: u64 = rounding::round_scaled(f.precision, f.inf, n, e);
    proof {
        let p = f.precision as nat;
        let inf = f.inf as nat;
        let u = pow2(f.unit as nat);
        lemma_pow2_pos(f.unit as nat);
        lemma_pow2_adds(s as nat, t as nat);
        let st = pow2((s + t) as nat);
        lemma_pow2_pos((s + t) as nat);
        let num = f.units(x) * f.units(y);
        assert(num == n * st) by (nonlinear_arith)
            requires
                num == (a * pow2(s as nat)) * (b * pow2(t as nat)),
                n == a * b,
                st == pow2(s as nat) * pow2(t as nat),
        ;
        if e >= 0 {
            lemma_pow2_adds(e as nat, f.unit as nat);
            assert(num == (n * pow2(e as nat)) * u) by (nonlinear_arith)
                requires
                    num == n * st,
                    st == pow2(e as nat) * u,
            ;
            assert(1 * u == u);
            rounding::lemma_round_scale(p, inf, (n * pow2(e as nat)) as nat, 1, u);
        } else {
            lemma_pow2_adds((-e) as nat, (s + t) as nat);
            lemma_pow2_pos((-e) as nat);
            rounding::lemma_round_scale(p, inf, n as nat, pow2((-e) as nat), st);
        }
    }
    with_sign(f, neg, mag)
}


/// `x / y`.
pub fn over(f: Format, x: u64, y: u64) -> (r: u64)
    requires
        f.wf(),
        f.fits(x),
        f.fits(y),
    ensures
        r == spec_over(f, x, y),
        f.fits(r),
{
    let (nx, mx) = parts(f, x);
    let (ny, my) = parts(f, y);
    let neg: bool = nx != ny;
    proof {
        lemma_format(f);
    }
    if mx > f.inf || my > f.inf {
        return f.invalid;
    }
    if (mx == f.inf && my == f.inf) || (mx == 0 && my == 0) {
        return f.invalid;
    }
    if mx == f.inf || my == 0 {
        return with_sign(f, neg, f.inf);
    }
    if my == f.inf {
        return with_sign(f, neg, 0);
    }
    let ghost p = f.precision as nat;
    let ghost inf = f.inf as nat;
    if mx == 0 {
        proof {
            lemma_pow2_pos((p - 1) as nat);
            lemma_units_increase(p, 0, my as nat);
            let uy = f.units(y);
            lemma_pow2_pos(p);
            lemma_pow2_pos(0);
            assert(0 * pow2(f.unit as nat) == 0);
            assert(uy * pow2(p) > 0 && uy * pow2(0) > 0) by (nonlinear_arith)
                requires
                    uy > 0,
                    pow2(p) > 0,
                    pow2(0) > 0,
            ;
            lemma_small_mod(0, uy * pow2(0));
            lemma_basic_div(0, (uy * pow2(0)) as int);
            assert(0 * pow2((p - 1) as nat) == 0);
        }
        return with_sign(f, neg, 0);
    }
    let (a, s) = decode(f, mx);
    let (b, t) = decode(f, my);
    let len: u32 = rounding::bit_length(a as u128);
    proof {
        lemma2_to64();
        lemma2_to64_rest();
        rounding::lemma_pow2_mono(p, 53);
        if len > f.precision {
            rounding::lemma_pow2_mono(p, (len - 1) as nat);
        }
    }
    let up: u32 = f.precision - len;
    let total: u32 = up + 64;
    let ghost big = a as nat * pow2(total as nat);
    proof {
        // `a` moved up to the top bit of the format, and 64 places more.
        lemma_pow2_adds(len as nat, total as nat);
        lemma_pow2_adds((len - 1) as nat, total as nat);
        assert(len + total == p + 64);
        lemma_pow2_pos(total as nat);
        assert(big < pow2(p + 64)) by (nonlinear_arith)
            requires
                big == a * pow2(total as nat),
                a < pow2(len as nat),
                pow2(p + 64) == pow2(len as nat) * pow2(total as nat),
                pow2(total as nat) > 0,
        ;
        assert(big >= pow2((p + 63) as nat)) by (nonlinear_arith)
            requires
                big == a * pow2(total as nat),
                a >= pow2((len - 1) as nat),
                pow2((p + 63) as nat) == pow2((len - 1) as nat) * pow2(total as nat),
        ;
        rounding::lemma_pow2_mono(p + 64, 117);
        lemma_pow2_adds(117, 10);
        lemma_pow2_adds(53, 64);
    }
    let wide: u128 = rounding::shift_left(a as u128, total);
    let q: u128 = wide / (b as u128);
    let rest: u128 = wide % (b as u128);
    proof {
        // The quotient has at least `p + 1` bits.
        lemma_pow2_adds(p, 63);
        rounding::lemma_pow2_mono(p, 63);
        assert(wide as nat / b as nat >= pow2(63)) by {
            lemma_fundamental_div_mod(wide as int, b as int);
            let qq = wide as nat / b as nat;
            let rr = wide as nat % b as nat;
            assert(qq >= pow2(63)) by (nonlinear_arith)
                requires
                    wide == b * qq + rr,
                    rr < b,
                    b < pow2(p),
                    wide >= pow2(p) * pow2(63),
            ;
        }
        lemma_div_nonincreasing(wide as int, b as int);
        assert(pow2(118) == 2 * pow2(117)) by {
            lemma_pow2_unfold(118);
        }
        rounding::lemma_pow2_mono(118, 127);
    }
    let n: u128 = 2 * q + (if rest > 0 {
        1u128
    } else {
        0u128
    });
    let e: i32 = s as i32 - t as i32 + f.unit as i32 - total as i32 - 1;
    proof {
        rounding::lemma_pow2_mono(118, 127);
        lemma_pow2_adds(63, 64);
    }
    let mag: u64 = rounding::round_scaled(f.precision, f.inf, n, e);
    proof {
        rounding::lemma_round_quotient(p, inf, wide as nat, b as nat, e as int);
        let num = f.units(x) * pow2(f.unit as nat);
        let den = f.units(y);
        let ps = pow2(s as nat);
        let pt = pow2(t as nat);
        let pu = pow2(f.unit as nat);
        let pw = pow2(total as nat);
        lemma_pow2_pos(s as nat);
        lemma_pow2_pos(t as nat);
        lemma_pow2_pos(f.unit as nat);
        lemma_pow2_unfold((total + 1) as nat);
        let pv = pow2((total + 1) as nat);
        lemma_pow2_pos((total + 1) as nat);
        assert(den > 0) by (nonlinear_arith)
            requires
                den == b * pt,
                b > 0,
                pt > 0,
        ;
        // num / den * 2^(total + 1) == 2 * wide * 2^(s + unit) / (b * 2^t)
        lemma_pow2_adds(s as nat, f.unit as nat);
        lemma_pow2_adds(t as nat, (total + 1) as nat);
        let up_e = (s + f.unit) as nat;
        let down_e = (t + total + 1) as nat;
        assert(num * pv == (2 * wide) * pow2(up_e)) by (nonlinear_arith)
            requires
                num == (a * ps) * pu,
                wide == a * pw,
                pv == 2 * pw,
                pow2(up_e) == ps * pu,
        ;
        assert(den * pv == b * pow2(down_e)) by (nonlinear_arith)
            requires
                den == b * pt,
                pow2(down_e) == pt * pv,
        ;
        rounding::lemma_round_scale(p, inf, num, den, pv);
        lemma_pow2_pos(down_e);
        lemma_pow2_pos(up_e);
        if e >= 0 {
            lemma_pow2_adds(e as nat, down_e);
            let pe = pow2(e as nat);
            assert((2 * wide) * pow2(up_e) == ((2 * wide) * pe) * pow2(down_e))
                by (nonlinear_arith)
                requires
                    pow2(up_e) == pe * pow2(down_e),
            ;
            assert(b * 1 == b);
            rounding::lemma_round_scale(p, inf, ((2 * wide) * pe) as nat, b as nat, pow2(down_e));
        } else {
            lemma_pow2_adds((-e) as nat, up_e);
            let pe = pow2((-e) as nat);
            lemma_pow2_pos((-e) as nat);
            assert(b * pow2(down_e) == (b * pe) * pow2(up_e)) by (nonlinear_arith)
                requires
                    pow2(down_e) == pe * pow2(up_e),
            ;
            assert(b * pe > 0) by (nonlinear_arith)
                requires
                    b > 0,
                    pe > 0,
            ;
            rounding::lemma_round_scale(p, inf, (2 * wide) as nat, (b * pe) as nat, pow2(up_e));
        }
    }
    with_sign(f, neg, mag)
}


/// `x`, a pattern of `f`, in the format `g`.
pub open spec fn spec_convert(f: Format, g: Format, x: u64) -> u64 {
    if f.nan(x) {
        g.invalid
    } else if f.infinite(x) {
        g.signed(f.neg(x), g.inf as nat)
    } else {
        g.nearest(f.neg(x), f.units(x) * pow2(g.unit as nat), pow2(f.unit as nat))
    }
}

/// `x`, a pattern of `f`, in the format `g`.
pub fn convert(f: Format, g: Format, x: u64) -> (r: u64)
    requires
        f.wf(),
        g.wf(),
        f.fits(x),
    ensures
        r == spec_convert(f, g, x),
        g.fits(r),
{
    let (neg, mag) = parts(f, x);
    proof {
        lemma_format(f);
        lemma_format(g);
    }
    if mag > f.inf {
        return g.invalid;
    }
    if mag == f.inf {
        return with_sign(g, neg, g.inf);
    }
    let (m, s) = decode(f, mag);
    let e: i32 = s as i32 + g.unit as i32 - f.unit as i32;
    proof {
        lemma2_to64();
        lemma2_to64_rest();
        rounding::lemma_pow2_mono(f.precision as nat, 53);
        rounding::lemma_pow2_mono(53, 127);
    }
    let r: u64 = rounding::round_scaled(g.precision, g.inf, m as u128, e);
    proof {
        lemma_round_shifted(
            g.precision as nat,
            g.inf as nat,
            m as nat,
            s as nat,
            g.unit as nat,
            f.unit as nat,
        );
    }
    with_sign(g, neg, r)
}

/// `m * 2^s * 2^up / 2^down` is `m` scaled by one power of two.
proof fn lemma_round_shifted(p: nat, inf: nat, m: nat, s: nat, up: nat, down: nat)
    requires
        p > 0,
    ensures
        rounding::round_mag(p, inf, (m * pow2(s)) * pow2(up), pow2(down)) == rounding::round_mag(
            p,
            inf,
            rounding::scale_num(m, s + up - down),
            rounding::scale_den(s + up - down),
        ),
{
    let e = s + up - down;
    lemma_pow2_adds(s, up);
    lemma_pow2_pos(s + up);
    lemma_pow2_pos(down);
    assert((m * pow2(s)) * pow2(up) == m * pow2(s + up)) by (nonlinear_arith)
        requires
            pow2(s + up) == pow2(s) * pow2(up),
    ;
    if e >= 0 {
        lemma_pow2_adds(e as nat, down);
        let pe = pow2(e as nat);
        assert(m * pow2(s + up) == (m * pe) * pow2(down)) by (nonlinear_arith)
            requires
                pow2(s + up) == pe * pow2(down),
        ;
        assert(1 * pow2(down) == pow2(down));
        rounding::lemma_round_scale(p, inf, m * pe, 1, pow2(down));
    } else {
        lemma_pow2_adds((-e) as nat, s + up);
        lemma_pow2_pos((-e) as nat);
        rounding::lemma_round_scale(p, inf, m, pow2((-e) as nat), pow2(s + up));
    }
}

/// The pattern nearest to the integer `n`.
pub open spec fn spec_from_uint(f: Format, n: nat) -> u64 {
    f.nearest(false, n * pow2(f.unit as nat), 1)
}

/// The pattern nearest to the integer `n`.
pub fn from_uint(f: Format, n: u64) -> (r: u64)
    requires
        f.wf(),
    ensures
        r == spec_from_uint(f, n as nat),
        f.fits(r),
{
    proof {
        lemma_format(f);
        lemma2_to64();
        rounding::lemma_pow2_mono(64, 127);
    }
    let mag: u64 = rounding::round_scaled(f.precision, f.inf, n as u128, f.unit as i32);
    with_sign(f, false, mag)
}

/// The integer part of the magnitude of `x`.
pub open spec fn whole(f: Format, x: u64) -> nat {
    f.units(x) / pow2(f.unit as nat)
}

/// The magnitude of `x` to the nearest integer, halves away from zero.
pub open spec fn nearest_whole(f: Format, x: u64) -> nat {
    (2 * f.units(x) + pow2(f.unit as nat)) / (2 * pow2(f.unit as nat))
}

/// `n`, or `top` where `n` is larger.
pub open spec fn capped(n: nat, top: nat) -> nat {
    if n <= top {
        n
    } else {
        top
    }
}

/// `x` cut to an unsigned integer of at most `top`: zero for negative values and
/// for what is not a number.
pub open spec fn spec_to_uint(f: Format, x: u64, top: nat) -> nat {
    if f.nan(x) || f.neg(x) {
        0
    } else if f.infinite(x) {
        top
    } else {
        capped(whole(f, x), top)
    }
}

/// `m * 2^s / 2^unit`, rounded down, as long as it is at most `top`.
fn whole_of(m: u64, s: u32, unit: u32, top: u64) -> (r: u64)
    requires
        s <= 2046,
        unit <= 1075,
        m < pow2(60),
    ensures
        r == capped((m * pow2(s as nat)) as nat / pow2(unit as nat), top as nat),
{
    let ghost num = (m * pow2(s as nat)) as nat;
    proof {
        lemma2_to64();
        lemma2_to64_rest();
        lemma_pow2_pos(unit as nat);
        lemma_pow2_pos(s as nat);
    }
    if m == 0 {
        proof {
            assert(num == 0) by (nonlinear_arith)
                requires
                    num == m * pow2(s as nat),
                    m == 0,
            ;
            lemma_basic_div(0, pow2(unit as nat) as int);
        }
        return 0;
    }
    if s >= unit {
        let d: u32 = s - unit;
        let ghost pd = pow2(d as nat);
        proof {
            lemma_pow2_adds(d as nat, unit as nat);
            assert(num == (m * pd) * pow2(unit as nat)) by (nonlinear_arith)
                requires
                    num == m * pow2(s as nat),
                    pow2(s as nat) == pd * pow2(unit as nat),
            ;
            lemma_div_by_multiple((m * pd) as int, pow2(unit as nat) as int);
            assert(num as nat / pow2(unit as nat) == m * pd);
        }
        if d >= 64 {
            proof {
                rounding::lemma_pow2_mono(64, d as nat);
                assert(m * pd >= pow2(64)) by (nonlinear_arith)
                    requires
                        m >= 1,
                        pd >= pow2(64),
                ;
            }
            return top;
        }
        proof {
            rounding::lemma_pow2_mono(d as nat, 64);
            lemma_pow2_adds(60, 64);
            lemma_pow2_adds(124, 4);
            assert(m * pd <= pow2(60) * pow2(64)) by (nonlinear_arith)
                requires
                    m <= pow2(60),
                    pd <= pow2(64),
            ;
            lemma_pow2_adds(64, 64);
        }
        let wide: u128 = rounding::shift_left(m as u128, d);
        if wide <= top as u128 {
            wide as u64
        } else {
            top
        }
    } else {
        let d: u32 = unit - s;
        let ghost pd = pow2(d as nat);
        proof {
            lemma_pow2_adds(d as nat, s as nat);
            lemma_pow2_pos(d as nat);
            lemma_div_denominator(m as int, 1, 1);
            // (m * 2^s) / (2^d * 2^s) == m / 2^d
            assert(num as int / pow2(unit as nat) as int == m as int / pd as int) by {
                lemma_truncate(m as nat, pd, pow2(s as nat));
            }
        }
        if d >= 60 {
            proof {
                rounding::lemma_pow2_mono(60, d as nat);
                lemma_basic_div(m as int, pd as int);
            }
            return 0;
        }
        let (q, _r) = rounding::split_at_bit(m as u128, d);
        proof {
            lemma_div_nonincreasing(m as int, pd as int);
        }
        if q <= top as u128 {
            q as u64
        } else {
            top
        }
    }
}

/// A common factor does not change a quotient.
proof fn lemma_truncate(a: nat, b: nat, c: nat)
    requires
        b > 0,
        c > 0,
    ensures
        (a * c) / (b * c) == a / b,
{
    let q = a / b;
    let r = a % b;
    lemma_fundamental_div_mod(a as int, b as int);
    assert(a * c == q * (b * c) + r * c && 0 <= r * c < b * c) by (nonlinear_arith)
        requires
            a == b * q + r,
            0 <= r < b,
            c > 0,
    ;
    lemma_fundamental_div_mod_converse((a * c) as int, (b * c) as int, q as int, (r * c) as int);
}

/// `x` cut to an unsigned integer of at most `top`.
pub fn to_uint(f: Format, x: u64, top: u64) -> (r: u64)
    requires
        f.wf(),
    ensures
        r == spec_to_uint(f, x, top as nat),
{
    let (neg, mag) = parts(f, x);
    if mag > f.inf || neg {
        return 0;
    }
    if mag == f.inf {
        return top;
    }
    let (m, s) = decode(f, mag);
    proof {
        rounding::lemma_pow2_mono(f.precision as nat, 60);
    }
    whole_of(m, s, f.unit, top)
}

/// The nearest integer to the magnitude of `x`, halves away from zero, and at
/// most `top`; zero for what is not a number.
pub open spec fn spec_round_mag(f: Format, x: u64, top: nat) -> nat {
    if f.nan(x) {
        0
    } else if f.infinite(x) {
        top
    } else {
        capped(nearest_whole(f, x), top)
    }
}

/// The nearest integer to the magnitude of `x`, halves away from zero.
pub fn round_mag(f: Format, x: u64, top: u64) -> (r: u64)
    requires
        f.wf(),
    ensures
        r == spec_round_mag(f, x, top as nat),
{
    let (_neg, mag) = parts(f, x);
    if mag > f.inf {
        return 0;
    }
    if mag == f.inf {
        return top;
    }
    let (m, s) = decode(f, mag);
    let ghost pu = pow2(f.unit as nat);
    let ghost ps = pow2(s as nat);
    proof {
        lemma2_to64();
        lemma2_to64_rest();
        rounding::lemma_pow2_mono(f.precision as nat, 53);
        lemma_pow2_pos(f.unit as nat);
        lemma_pow2_pos(s as nat);
        lemma_pow2_unfold((f.unit + 1) as nat);
    }
    let ghost num = 2 * f.units(x) + pu;
    if s >= f.unit {
        // An integer already.
        proof {
            let d = (s - f.unit) as nat;
            lemma_pow2_adds(d, f.unit as nat);
            let pd = pow2(d);
            let v = (m * pd) as nat;
            assert(f.units(x) == v * pu) by (nonlinear_arith)
                requires
                    f.units(x) == m * ps,
                    ps == pd * pu,
                    v == m * pd,
            ;
            assert(num == v * (2 * pu) + pu) by (nonlinear_arith)
                requires
                    num == 2 * (v * pu) + pu,
            ;
            lemma_fundamental_div_mod_converse(num as int, (2 * pu) as int, v as int, pu as int);
            lemma_div_by_multiple(v as int, pu as int);
        }
        whole_of(m, s, f.unit, top)
    } else {
        let d: u32 = f.unit - s;
        let ghost pd = pow2(d as nat);
        proof {
            lemma_pow2_adds(d as nat, s as nat);
            lemma_pow2_pos(d as nat);
            assert(num == (2 * m + pd) * ps && 2 * pu == (2 * pd) * ps) by (nonlinear_arith)
                requires
                    num == 2 * (m * ps) + pu,
                    pu == pd * ps,
            ;
            lemma_truncate((2 * m + pd) as nat, 2 * pd, ps);
            lemma_pow2_unfold((d + 1) as nat);
        }
        if d >= 60 {
            proof {
                rounding::lemma_pow2_mono(60, d as nat);
                lemma_basic_div((2 * m + pd) as int, (2 * pd) as int);
            }
            return 0;
        }
        proof {
            rounding::lemma_pow2_mono(d as nat, 59);
            assert(1 * pd == pd);
        }
        let half: u128 = rounding::shift_left(1, d);
        let (q, _r) = rounding::split_at_bit(2 * (m as u128) + half, d + 1);
        proof {
            lemma_div_nonincreasing((2 * m + pd) as int, pow2((d + 1) as nat) as int);
        }
        if q <= top as u128 {
            q as u64
        } else {
            top
        }
    }
}


/// The square root of `x`.
pub open spec fn spec_root(f: Format, x: u64) -> u64 {
    if f.nan(x) || (f.neg(x) && !f.zero(x)) {
        f.invalid
    } else if f.zero(x) || f.infinite(x) {
        x
    } else {
        f.signed(
            false,
            rounding::round_root(
                f.precision as nat,
                f.inf as nat,
                f.units(x) * pow2(f.unit as nat),
            ),
        )
    }
}

/// The square root of `x`.
pub fn root(f: Format, x: u64) -> (r: u64)
    requires
        f.wf(),
        f.fits(x),
    ensures
        r == spec_root(f, x),
        f.fits(r),
{
    let (neg, mag) = parts(f, x);
    proof {
        lemma_format(f);
    }
    if mag > f.inf || (neg && mag > 0) {
        return f.invalid;
    }
    if mag == 0 || mag == f.inf {
        return x;
    }
    let (m, s) = decode(f, mag);
    let len: u32 = rounding::bit_length(m as u128);
    let ghost p = f.precision as nat;
    proof {
        lemma2_to64();
        lemma2_to64_rest();
        rounding::lemma_pow2_mono(p, 53);
        if len > 53 {
            rounding::lemma_pow2_mono(53, (len - 1) as nat);
        }
    }
    let exp: u32 = s + f.unit;
    let up: u32 = if (120 - len) % 2 == exp % 2 {
        120 - len
    } else {
        119 - len
    };
    proof {
        lemma_pow2_pos(up as nat);
        lemma_pow2_adds(len as nat, up as nat);
        lemma_pow2_adds((len - 1) as nat, up as nat);
        rounding::lemma_pow2_mono((len + up) as nat, 120);
        rounding::lemma_pow2_mono(118, (len - 1 + up) as nat);
        assert(m * pow2(up as nat) < pow2((len + up) as nat)) by (nonlinear_arith)
            requires
                m < pow2(len as nat),
                pow2((len + up) as nat) == pow2(len as nat) * pow2(up as nat),
                pow2(up as nat) > 0,
        ;
        assert(m * pow2(up as nat) >= pow2((len - 1 + up) as nat)) by (nonlinear_arith)
            requires
                m >= pow2((len - 1) as nat),
                pow2((len - 1 + up) as nat) == pow2((len - 1) as nat) * pow2(up as nat),
        ;
        rounding::lemma_pow2_mono(120, 122);
        rounding::lemma_pow2_mono(122, 127);
        lemma_pow2_adds(63, 64);
    }
    let wide: u128 = rounding::shift_left(m as u128, up);
    let r: u128 = rounding::floor_root(wide);
    proof {
        lemma_pow2_adds(59, 59);
        lemma_pow2_adds(60, 60);
        if r < pow2(59) {
            assert((r + 1) * (r + 1) <= pow2(59) * pow2(59)) by (nonlinear_arith)
                requires
                    r + 1 <= pow2(59),
            ;
        }
        if r >= pow2(60) {
            assert(r * r >= pow2(60) * pow2(60)) by (nonlinear_arith)
                requires
                    r >= pow2(60),
            ;
        }
        rounding::lemma_pow2_mono(p, 59);
        assert(r * r <= wide);
    }
    let n: u128 = 2 * r + (if r * r == wide {
        0u128
    } else {
        1u128
    });
    let e: i32 = (exp as i32 - up as i32) / 2 - 1;
    proof {
        rounding::lemma_pow2_mono(62, 127);
    }
    let out: u64 = rounding::round_scaled(f.precision, f.inf, n, e);
    proof {
        let num = f.units(x) * pow2(f.unit as nat);
        lemma_pow2_adds(s as nat, f.unit as nat);
        assert(num == m * pow2(exp as nat)) by (nonlinear_arith)
            requires
                num == (m * pow2(s as nat)) * pow2(f.unit as nat),
                pow2(exp as nat) == pow2(s as nat) * pow2(f.unit as nat),
        ;
        assert(exp - up == 2 * e + 2);
        if e >= 0 {
            let c = (2 * e) as nat;
            lemma_pow2_adds(c, 2);
            lemma_pow2_adds((c + 2) as nat, up as nat);
            assert(num == (4 * wide) * pow2(c)) by (nonlinear_arith)
                requires
                    num == m * pow2(exp as nat),
                    wide == m * pow2(up as nat),
                    pow2(exp as nat) == (pow2(c) * 4) * pow2(up as nat),
            ;
        } else {
            let c = (-2 * e) as nat;
            lemma_pow2_adds(c, exp as nat);
            lemma_pow2_adds(up as nat, 2);
            assert(num * pow2(c) == 4 * wide) by (nonlinear_arith)
                requires
                    num == m * pow2(exp as nat),
                    wide == m * pow2(up as nat),
                    pow2(c) * pow2(exp as nat) == pow2(up as nat) * 4,
            ;
        }
        rounding::lemma_round_root(p, f.inf as nat, num, wide as nat, r as nat, e as int);
    }
    with_sign(f, false, out)
}

} // verus!
