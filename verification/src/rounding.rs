//! Rounding of exact rational magnitudes to binary floating point.
//!
//! A binary format is given by its precision `p` (the number of significant
//! bits, the hidden one included) and by the bit pattern `inf` of its infinity.
//! The magnitude of a finite value is counted in *units*, multiples of the
//! smallest positive value of the format, so every finite magnitude is a natural
//! number.

use vstd::arithmetic::div_mod::*;
use vstd::arithmetic::mul::*;
use vstd::arithmetic::power2::*;
use vstd::prelude::*;

verus! {

/// The magnitude, in units, that the bit pattern `mag` (sign bit cleared) stands
/// for in a format of precision `p`.
pub open spec fn units(p: nat, mag: nat) -> nat
    recommends
        p > 0,
{
    let h = pow2((p - 1) as nat);
    if mag < h {
        mag
    } else {
        (h + mag % h) * pow2((mag / h - 1) as nat)
    }
}

/// The least `k` for which `n < bound * 2^k`.
pub open spec fn shift_for(n: nat, bound: nat) -> nat
    recommends
        bound > 0,
    decreases (if n >= bound { n - bound + 1 } else { 0 }),
{
    if n < bound || bound == 0 {
        0
    } else {
        1 + shift_for(n, 2 * bound)
    }
}

/// `num / den` to the nearest integer, ties to the even one.
pub open spec fn half_even(num: nat, den: nat) -> nat
    recommends
        den > 0,
{
    let q = num / den;
    let r = num % den;
    if 2 * r > den || (2 * r == den && q % 2 == 1) {
        q + 1
    } else {
        q
    }
}

/// The bit pattern of the magnitude nearest to `num / den` units, ties to even;
/// `inf` where that is beyond the largest finite magnitude.
pub open spec fn round_mag(p: nat, inf: nat, num: nat, den: nat) -> nat
    recommends
        p > 0,
        den > 0,
{
    let k = shift_for(num, den * pow2(p));
    let r = k * pow2((p - 1) as nat) + half_even(num, den * pow2(k));
    if r < inf {
        r
    } else {
        inf
    }
}

/// `n * 2^0` is `n`.
proof fn lemma_times_one(n: nat)
    ensures
        n * pow2(0) == n,
{
    lemma2_to64();
    assert(n * pow2(0) == n) by (nonlinear_arith)
        requires
            pow2(0) == 1,
    ;
}

/// What `shift_for` returns is characterised by the two bounds around `n`.
pub proof fn lemma_shift_for(n: nat, bound: nat, k: nat)
    requires
        bound > 0,
        n < bound * pow2(k),
        k == 0 || n >= bound * pow2((k - 1) as nat),
    ensures
        shift_for(n, bound) == k,
    decreases k,
{
    lemma_times_one(bound);
    if k > 0 {
        let j = (k - 1) as nat;
        lemma_pow2_unfold(k);
        lemma_pow2_pos(j);
        assert(bound * pow2(k) == (2 * bound) * pow2(j)) by (nonlinear_arith)
            requires
                pow2(k) == 2 * pow2(j),
        ;
        assert(bound * pow2(j) >= bound) by (nonlinear_arith)
            requires
                pow2(j) >= 1,
        ;
        if j > 0 {
            lemma_pow2_unfold(j);
            let i = (j - 1) as nat;
            assert(bound * pow2(j) == (2 * bound) * pow2(i)) by (nonlinear_arith)
                requires
                    pow2(j) == 2 * pow2(i),
            ;
        }
        lemma_shift_for(n, 2 * bound, j);
    }
}

/// The two bounds that `shift_for` meets.
pub proof fn lemma_shift_bounds(n: nat, bound: nat)
    requires
        bound > 0,
    ensures
        n < bound * pow2(shift_for(n, bound)),
        shift_for(n, bound) == 0 || n >= bound * pow2((shift_for(n, bound) - 1) as nat),
    decreases (if n >= bound { n - bound + 1 } else { 0 }),
{
    lemma_times_one(bound);
    if n < bound {
    } else {
        lemma_shift_bounds(n, 2 * bound);
        let j = shift_for(n, 2 * bound);
        let k = j + 1;
        lemma_pow2_unfold(k);
        assert(shift_for(n, bound) == k);
        assert(bound * pow2(k) == (2 * bound) * pow2(j)) by (nonlinear_arith)
            requires
                pow2(k) == 2 * pow2(j),
        ;
        if j > 0 {
            lemma_pow2_unfold(j);
            let i = (j - 1) as nat;
            assert(bound * pow2(j) == (2 * bound) * pow2(i)) by (nonlinear_arith)
                requires
                    pow2(j) == 2 * pow2(i),
            ;
        }
    }
}

/// Rounding depends on the quotient alone.
pub proof fn lemma_half_even_scale(num: nat, den: nat, c: nat)
    requires
        den > 0,
        c > 0,
    ensures
        half_even(num * c, den * c) == half_even(num, den),
{
    let q = num / den;
    let r = num % den;
    lemma_fundamental_div_mod(num as int, den as int);
    assert(num == den * q + r);
    assert(num * c == q * (den * c) + r * c) by (nonlinear_arith)
        requires
            num == den * q + r,
    ;
    assert(0 <= r * c < den * c) by (nonlinear_arith)
        requires
            0 <= r < den,
            c > 0,
    ;
    lemma_fundamental_div_mod_converse((num * c) as int, (den * c) as int, q as int, (r * c) as int);
    assert(2 * r > den ==> 2 * (r * c) > den * c) by (nonlinear_arith)
        requires
            c > 0,
    ;
    assert(2 * r < den ==> 2 * (r * c) < den * c) by (nonlinear_arith)
        requires
            c > 0,
    ;
    assert(2 * r == den ==> 2 * (r * c) == den * c) by (nonlinear_arith);
}

/// Rounding depends on the quotient alone.
pub proof fn lemma_round_scale(p: nat, inf: nat, num: nat, den: nat, c: nat)
    requires
        p > 0,
        den > 0,
        c > 0,
    ensures
        round_mag(p, inf, num * c, den * c) == round_mag(p, inf, num, den),
{
    lemma_pow2_pos(p);
    let b = den * pow2(p);
    assert(b > 0) by (nonlinear_arith)
        requires
            den > 0,
            pow2(p) > 0,
            b == den * pow2(p),
    ;
    assert((den * c) * pow2(p) == b * c) by (nonlinear_arith)
        requires
            b == den * pow2(p),
    ;
    let k = shift_for(num, b);
    lemma_shift_bounds(num, b);
    lemma_pow2_pos(k);
    assert(b * c > 0) by (nonlinear_arith)
        requires
            b > 0,
            c > 0,
    ;
    assert(num * c < (b * c) * pow2(k)) by (nonlinear_arith)
        requires
            num < b * pow2(k),
            c > 0,
    ;
    if k > 0 {
        let pk = pow2((k - 1) as nat);
        assert(num * c >= (b * c) * pk) by (nonlinear_arith)
            requires
                num >= b * pk,
                c > 0,
        ;
    }
    lemma_shift_for(num * c, b * c, k);
    let d = den * pow2(k);
    assert(d > 0) by (nonlinear_arith)
        requires
            den > 0,
            pow2(k) > 0,
            d == den * pow2(k),
    ;
    assert((den * c) * pow2(k) == d * c) by (nonlinear_arith)
        requires
            d == den * pow2(k),
    ;
    lemma_half_even_scale(num, d, c);
}

/// `2^a <= 2^b` for `a <= b`.
pub proof fn lemma_pow2_mono(a: nat, b: nat)
    requires
        a <= b,
    ensures
        pow2(a) <= pow2(b),
{
    if a < b {
        lemma_pow2_strictly_increases(a, b);
    }
}

/// The number of bits of `n`.
pub fn bit_length(n: u128) -> (len: u32)
    ensures
        len <= 128,
        n < pow2(len as nat),
        n > 0 ==> len > 0 && n >= pow2((len - 1) as nat),
        n == 0 ==> len == 0,
{
    let mut len: u32 = 0;
    let mut rest: u128 = n;
    proof {
        lemma2_to64();
        assert(n * 1 == n);
    }
    while rest > 0
        invariant
            len <= 128,
            rest * pow2(len as nat) <= n < (rest + 1) * pow2(len as nat),
            rest == 0 && n > 0 ==> len > 0 && n >= pow2((len - 1) as nat),
            n == 0 ==> len == 0 && rest == 0,
        decreases rest,
    {
        let ghost before = rest;
        let ghost l = len as nat;
        proof {
            if len == 128 {
                lemma2_to64();
                lemma_pow2_adds(64, 64);
                assert(pow2(128) == 0x1_0000_0000_0000_0000 * 0x1_0000_0000_0000_0000);
                assert(rest * pow2(128) >= pow2(128)) by (nonlinear_arith)
                    requires
                        rest >= 1,
                ;
            }
        }
        rest = rest / 2;
        len = len + 1;
        proof {
            lemma_pow2_unfold(len as nat);
            lemma_pow2_pos(l);
            assert(rest * pow2(len as nat) <= before * pow2(l)) by (nonlinear_arith)
                requires
                    pow2(len as nat) == 2 * pow2(l),
                    2 * rest <= before,
                    pow2(l) > 0,
            ;
            assert((before + 1) * pow2(l) <= (rest + 1) * pow2(len as nat)) by (nonlinear_arith)
                requires
                    pow2(len as nat) == 2 * pow2(l),
                    before <= 2 * rest + 1,
                    pow2(l) > 0,
            ;
            if rest == 0 {
                assert(before * pow2(l) == pow2(l)) by (nonlinear_arith)
                    requires
                        before == 1,
                ;
            }
        }
    }
    proof {
        assert((rest + 1) * pow2(len as nat) == pow2(len as nat)) by (nonlinear_arith)
            requires
                rest == 0,
        ;
    }
    len
}


/// A left shift that loses no bit multiplies by a power of two.
proof fn lemma_shl(x: u128, s: u32)
    requires
        s < 128,
        x * pow2(s as nat) <= u128::MAX,
    ensures
        (x << s) == x * pow2(s as nat),
    decreases s,
{
    lemma_times_one(x as nat);
    if s == 0 {
        assert(x << 0u32 == x) by (bit_vector);
    } else {
        let t = (s - 1) as u32;
        lemma_pow2_unfold(s as nat);
        assert(x * pow2(s as nat) == 2 * (x * pow2(t as nat))) by (nonlinear_arith)
            requires
                pow2(s as nat) == 2 * pow2(t as nat),
        ;
        lemma_shl(x, t);
        let y = x << t;
        assert(x << s == (x << t) << 1u32) by (bit_vector)
            requires
                0 < s < 128,
                t == s - 1,
        ;
        assert(y << 1u32 == y * 2) by (bit_vector)
            requires
                y * 2 <= 0xffff_ffff_ffff_ffff_ffff_ffff_ffff_ffffu128,
        ;
    }
}

/// `2^127` and `2^128` as literals.
proof fn lemma_pow2_big()
    ensures
        pow2(127) == 0x8000_0000_0000_0000_0000_0000_0000_0000,
        pow2(128) == 0x1_0000_0000_0000_0000_0000_0000_0000_0000,
{
    lemma2_to64();
    lemma2_to64_rest();
    lemma_pow2_adds(63, 64);
    lemma_pow2_adds(64, 64);
}

/// `x` shifted left by `s`, where no bit is lost.
pub fn shift_left(x: u128, s: u32) -> (r: u128)
    requires
        s < 128,
        x * pow2(s as nat) <= u128::MAX,
    ensures
        r == x * pow2(s as nat),
{
    proof {
        lemma_shl(x, s);
    }
    x << s
}

/// `x` divided by a power of two: quotient and remainder.
pub fn split_at_bit(x: u128, s: u32) -> (r: (u128, u128))
    requires
        s < 128,
    ensures
        r.0 == x as nat / pow2(s as nat),
        r.1 == x as nat % pow2(s as nat),
{
    proof {
        lemma_pow2_pos(s as nat);
        vstd::bits::lemma_u128_shr_is_div(x, s as u128);
        lemma_fundamental_div_mod(x as int, pow2(s as nat) as int);
        assert(x >> s == x >> (s as u128)) by (bit_vector)
            requires
                s < 128,
        ;
        let q = x as nat / pow2(s as nat);
        assert(q * pow2(s as nat) == pow2(s as nat) * q) by (nonlinear_arith);
    }
    let q: u128 = x >> s;
    let base: u128 = shift_left(q, s);
    (q, x - base)
}

/// Numerator of `n * 2^e` as a fraction.
pub open spec fn scale_num(n: nat, e: int) -> nat {
    if e >= 0 {
        n * pow2(e as nat)
    } else {
        n
    }
}

/// Denominator of `n * 2^e` as a fraction.
pub open spec fn scale_den(e: int) -> nat {
    if e >= 0 {
        1
    } else {
        pow2((-e) as nat)
    }
}

/// The shift that rounding `n * 2^e` to `p` bits takes, from the number of bits
/// of `n`.
proof fn lemma_scaled_shift(p: nat, n: nat, e: int, len: nat, k: nat)
    requires
        p > 0,
        len > 0,
        pow2((len - 1) as nat) <= n < pow2(len),
        k == (if len + e - p > 0 { len + e - p } else { 0 }),
    ensures
        shift_for(scale_num(n, e), scale_den(e) * pow2(p)) == k,
{
    let num = scale_num(n, e);
    let den = scale_den(e);
    lemma_pow2_pos(p);
    if e >= 0 {
        let f = e as nat;
        lemma_pow2_pos(f);
        lemma_pow2_adds(len, f);
        lemma_pow2_adds(p, k);
        assert(num < pow2(len + f)) by (nonlinear_arith)
            requires
                n < pow2(len),
                num == n * pow2(f),
                pow2(len + f) == pow2(len) * pow2(f),
                pow2(f) > 0,
        ;
        lemma_pow2_mono(len + f, p + k);
        assert(den * pow2(p) == pow2(p)) by (nonlinear_arith)
            requires
                den == 1,
        ;
        if k > 0 {
            let l = (len - 1) as nat;
            let j = (k - 1) as nat;
            lemma_pow2_adds(l, f);
            lemma_pow2_adds(p, j);
            assert(l + f == p + j);
            assert(num >= pow2(l + f)) by (nonlinear_arith)
                requires
                    n >= pow2(l),
                    num == n * pow2(f),
                    pow2(l + f) == pow2(l) * pow2(f),
                    pow2(f) > 0,
            ;
        }
        lemma_shift_for(num, pow2(p), k);
    } else {
        let f = (-e) as nat;
        lemma_pow2_pos(f);
        lemma_pow2_adds(f, p);
        let b = pow2(f + p);
        lemma_pow2_pos(f + p);
        lemma_pow2_adds(f + p, k);
        lemma_pow2_mono(len, f + p + k);
        if k > 0 {
            let j = (k - 1) as nat;
            lemma_pow2_adds(f + p, j);
            assert((len - 1) as nat == f + p + j);
        }
        lemma_shift_for(n, b, k);
    }
}

/// Rounding `n * 2^e` to a multiple of `2^k`: `k - e` low bits of `n` go.
proof fn lemma_scaled_half_even(n: nat, e: int, k: nat)
    ensures
        k >= e ==> half_even(scale_num(n, e), scale_den(e) * pow2(k)) == half_even(
            n,
            pow2((k - e) as nat),
        ),
        k <= e ==> half_even(scale_num(n, e), scale_den(e) * pow2(k)) == n * pow2((e - k) as nat),
{
    let num = scale_num(n, e);
    let den = scale_den(e);
    lemma_pow2_pos(k);
    if e >= 0 {
        let f = e as nat;
        assert(den * pow2(k) == pow2(k)) by (nonlinear_arith)
            requires
                den == 1,
        ;
        if k <= e {
            let d = (e - k) as nat;
            lemma_pow2_adds(d, k);
            assert(num == (n * pow2(d)) * pow2(k)) by (nonlinear_arith)
                requires
                    num == n * pow2(f),
                    pow2(f) == pow2(d) * pow2(k),
            ;
            lemma_fundamental_div_mod_converse(
                num as int,
                pow2(k) as int,
                (n * pow2(d)) as int,
                0,
            );
        }
        if k >= e {
            let d = (k - e) as nat;
            lemma_pow2_adds(d, f);
            lemma_pow2_pos(d);
            lemma_pow2_pos(f);
            lemma_half_even_scale(n, pow2(d), pow2(f));
        }
    } else {
        let f = (-e) as nat;
        lemma_pow2_adds(f, k);
    }
}

/// The bit pattern of `n * 2^e` units, rounded to `p` bits.
pub fn round_scaled(p: u32, inf: u64, n: u128, e: i32) -> (mag: u64)
    requires
        2 <= p <= 64,
        n < pow2(127),
        -10000 <= e <= 10000,
    ensures
        mag == round_mag(p as nat, inf as nat, scale_num(n as nat, e as int), scale_den(e as int)),
        mag <= inf,
{
    let len: u32 = bit_length(n);
    let over: i32 = len as i32 + e - p as i32;
    let k: i32 = if over > 0 && n > 0 { over } else { 0 };
    let drop: i32 = k - e;
    let ghost num = scale_num(n as nat, e as int);
    let ghost den = scale_den(e as int);
    proof {
        lemma_pow2_big();
        lemma_scaled_half_even(n as nat, e as int, k as nat);
        lemma_pow2_pos(p as nat);
        lemma_pow2_pos((if e < 0 { -e } else { e as int }) as nat);
        if n > 0 {
            lemma_scaled_shift(p as nat, n as nat, e as int, len as nat, k as nat);
            if len > 127 {
                lemma_pow2_mono(127, (len - 1) as nat);
            }
        } else {
            assert(num == 0) by (nonlinear_arith)
                requires
                    num == 0 * pow2(e as nat) || num == 0,
            ;
            assert(den * pow2(p as nat) > 0) by (nonlinear_arith)
                requires
                    den > 0,
                    pow2(p as nat) > 0,
            ;
        }
        assert(shift_for(num, den * pow2(p as nat)) == k);
    }
    let m: u128 = if drop <= 0 {
        let up: u32 = (-drop) as u32;
        proof {
            if n > 0 {
                lemma_pow2_adds(len as nat, up as nat);
                lemma_pow2_pos(up as nat);
                lemma_pow2_mono((len + up) as nat, p as nat);
                lemma_pow2_mono(p as nat, 64);
                lemma2_to64();
                assert(n * pow2(up as nat) < pow2((len + up) as nat)) by (nonlinear_arith)
                    requires
                        n < pow2(len as nat),
                        pow2((len + up) as nat) == pow2(len as nat) * pow2(up as nat),
                        pow2(up as nat) > 0,
                ;
            }
        }
        if n == 0 {
            proof {
                assert(0 * pow2(up as nat) == 0) by (nonlinear_arith);
            }
            0
        } else {
            shift_left(n, up)
        }
    } else if drop >= 128 {
        proof {
            lemma_pow2_mono(128, drop as nat);
            lemma_small_mod(n as nat, pow2(drop as nat));
            lemma_basic_div(n as int, pow2(drop as nat) as int);
        }
        0
    } else {
        let (q, r) = split_at_bit(n, drop as u32);
        proof {
            lemma_pow2_unfold(drop as nat);
            lemma_pow2_pos(drop as nat);
            lemma_pow2_mono((drop - 1) as nat, 126);
            lemma_pow2_mono(126, 127);
            lemma_times_one(1);
            lemma_div_nonincreasing(n as int, pow2(drop as nat) as int);
            lemma_mod_bound(n as int, pow2(drop as nat) as int);
        }
        let half: u128 = shift_left(1, (drop - 1) as u32);
        if r > half || (r == half && q % 2 == 1) {
            q + 1
        } else {
            q
        }
    };
    proof {
        assert(m == half_even(num, den * pow2(k as nat)));
    }
    proof {
        lemma_pow2_mono((p - 1) as nat, 63);
        lemma2_to64_rest();
    }
    let step: u128 = shift_left(1, p - 1);
    proof {
        assert(k * step <= 20200 * pow2(63)) by (nonlinear_arith)
            requires
                0 <= k <= 20200,
                0 <= step <= pow2(63),
        ;
    }
    let r: u128 = (k as u128) * step + m;
    if r < inf as u128 {
        r as u64
    } else {
        inf
    }
}


/// An inexact quotient rounds like the odd number that stands between its
/// neighbours, where two or more bits are dropped.
proof fn lemma_half_even_sticky(num: nat, den: nat, d: nat)
    requires
        den > 0,
        num % den > 0,
        d >= 2,
    ensures
        half_even(2 * num, den * pow2(d)) == half_even(2 * (num / den) + 1, pow2(d)),
{
    let q = num / den;
    let r = num % den;
    let n = 2 * q + 1;
    let w = pow2(d);
    let h = pow2((d - 1) as nat);
    let g = pow2((d - 2) as nat);
    lemma_fundamental_div_mod(num as int, den as int);
    lemma_pow2_pos(d);
    lemma_pow2_pos((d - 2) as nat);
    lemma_pow2_unfold(d);
    lemma_pow2_unfold((d - 1) as nat);
    let big_q = n / w;
    let big_r = n % w;
    lemma_fundamental_div_mod(n as int, w as int);
    assert(big_r % 2 == 1) by {
        assert(n == 2 * (h * big_q) + big_r) by (nonlinear_arith)
            requires
                n == w * big_q + big_r,
                w == 2 * h,
        ;
    }
    let rem = (den * (big_r - 1) + 2 * r) as nat;
    assert(2 * num == big_q * (den * w) + rem && 0 <= rem < den * w) by (nonlinear_arith)
        requires
            num == den * q + r,
            2 * q + 1 == w * big_q + big_r,
            rem == den * (big_r - 1) + 2 * r,
            0 < r < den,
            1 <= big_r <= w - 1,
    ;
    lemma_fundamental_div_mod_converse(
        (2 * num) as int,
        (den * w) as int,
        big_q as int,
        rem as int,
    );
    if big_r > h {
        assert(2 * rem > den * w) by (nonlinear_arith)
            requires
                rem == den * (big_r - 1) + 2 * r,
                big_r - 1 >= h,
                w == 2 * h,
                r > 0,
                den > 0,
        ;
    } else {
        assert(big_r != h) by {
            assert(h == 2 * g);
        }
        assert(2 * rem < den * w) by (nonlinear_arith)
            requires
                rem == den * (big_r - 1) + 2 * r,
                big_r + 1 <= h,
                w == 2 * h,
                r < den,
                den > 0,
        ;
    }
}

/// Rounding `num / den * 2^(e + 1)` through its integer quotient: the quotient
/// doubled, and odd where the division left a remainder.
pub proof fn lemma_round_quotient(p: nat, inf: nat, num: nat, den: nat, e: int)
    requires
        p > 0,
        den > 0,
        num / den >= pow2(p),
    ensures
        round_mag(p, inf, scale_num(2 * num, e), den * scale_den(e)) == round_mag(
            p,
            inf,
            scale_num(
                2 * (num / den) + (if num % den > 0 {
                    1nat
                } else {
                    0nat
                }),
                e,
            ),
            scale_den(e),
        ),
{
    let q = num / den;
    let r = num % den;
    lemma_fundamental_div_mod(num as int, den as int);
    let sd = scale_den(e);
    lemma_pow2_pos((if e < 0 {
        -e
    } else {
        e
    }) as nat);
    if r == 0 {
        let n = 2 * q;
        assert(2 * num == n * den) by (nonlinear_arith)
            requires
                num == den * q,
                n == 2 * q,
        ;
        assert(scale_num(2 * num, e) == scale_num(n, e) * den) by (nonlinear_arith)
            requires
                2 * num == n * den,
                e >= 0 ==> scale_num(2 * num, e) == (2 * num) * pow2(e as nat),
                e >= 0 ==> scale_num(n, e) == n * pow2(e as nat),
                e < 0 ==> scale_num(2 * num, e) == 2 * num,
                e < 0 ==> scale_num(n, e) == n,
        ;
        assert(den * sd == sd * den) by (nonlinear_arith);
        lemma_round_scale(p, inf, scale_num(n, e), sd, den);
    } else {
        let n = 2 * q + 1;
        lemma_pow2_unfold(p + 1);
        // The number of bits of `n`.
        let len = shift_for(n, 1);
        lemma_shift_bounds(n, 1);
        assert(1 * pow2(len) == pow2(len));
        lemma_times_one(1);
        assert(len > 0);
        assert(1 * pow2((len - 1) as nat) == pow2((len - 1) as nat));
        if len < p + 2 {
            lemma_pow2_mono(len, p + 1);
        }
        let k = (if len + e - p > 0 {
            len + e - p
        } else {
            0
        }) as nat;
        lemma_scaled_shift(p, n, e, len, k);
        let d = (k - e) as nat;
        assert(d >= 2);
        lemma_half_even_sticky(num, den, d);
        lemma_scaled_half_even(n, e, k);
        // The shift of the fraction itself.
        let b = pow2(p + d);
        lemma_pow2_adds(p, d);
        lemma_pow2_pos(p + d);
        lemma_pow2_mono(len, p + d);
        lemma_pow2_unfold(p + d);
        assert(n + 1 <= b);
        assert(2 * num < den * b) by (nonlinear_arith)
            requires
                num == den * q + r,
                0 < r < den,
                n == 2 * q + 1,
                n + 1 <= b,
        ;
        let big = scale_num(2 * num, e);
        let bound = (den * sd) * pow2(p);
        lemma_pow2_pos(p);
        lemma_pow2_pos(k);
        assert(bound > 0) by (nonlinear_arith)
            requires
                bound == (den * sd) * pow2(p),
                den > 0,
                sd > 0,
                pow2(p) > 0,
        ;
        if e >= 0 {
            let f = e as nat;
            lemma_pow2_adds(d, f);
            assert(big < bound * pow2(k)) by (nonlinear_arith)
                requires
                    big == (2 * num) * pow2(f),
                    2 * num < den * b,
                    b == pow2(p) * pow2(d),
                    pow2(k) == pow2(d) * pow2(f),
                    bound == (den * sd) * pow2(p),
                    sd == 1,
                    pow2(f) > 0,
            ;
        } else {
            let f = (-e) as nat;
            lemma_pow2_adds(k, f);
            assert(big < bound * pow2(k)) by (nonlinear_arith)
                requires
                    big == 2 * num,
                    2 * num < den * b,
                    b == pow2(p) * pow2(d),
                    pow2(d) == pow2(k) * pow2(f),
                    bound == (den * sd) * pow2(p),
                    sd == pow2(f),
            ;
        }
        if k > 0 {
            let j = (k - 1) as nat;
            let c = pow2((p + d - 1) as nat);
            assert((len - 1) as nat == (p + d - 1) as nat);
            lemma_pow2_unfold((p + d - 1) as nat);
            assert(n - 1 >= c);
            lemma_pow2_unfold(k);
            assert(2 * num >= den * c) by (nonlinear_arith)
                requires
                    num == den * q + r,
                    0 < r,
                    n == 2 * q + 1,
                    n - 1 >= c,
                    den > 0,
            ;
            assert(big >= bound * pow2(j)) by {
                if e >= 0 {
                    let f = e as nat;
                    lemma_pow2_adds(d, f);
                    assert(2 * big >= bound * pow2(k)) by (nonlinear_arith)
                        requires
                            big == (2 * num) * pow2(f),
                            2 * num >= den * c,
                            2 * c == pow2(p) * pow2(d),
                            pow2(k) == pow2(d) * pow2(f),
                            bound == (den * sd) * pow2(p),
                            sd == 1,
                            pow2(f) > 0,
                    ;
                } else {
                    let f = (-e) as nat;
                    lemma_pow2_adds(k, f);
                    assert(2 * big >= bound * pow2(k)) by (nonlinear_arith)
                        requires
                            big == 2 * num,
                            2 * num >= den * c,
                            2 * c == pow2(p) * pow2(d),
                            pow2(d) == pow2(k) * pow2(f),
                            bound == (den * sd) * pow2(p),
                            sd == pow2(f),
                    ;
                }
                assert(bound * pow2(k) == 2 * (bound * pow2(j))) by (nonlinear_arith)
                    requires
                        pow2(k) == 2 * pow2(j),
                ;
            }
        }
        lemma_shift_for(big, bound, k);
        // Both fractions drop the same bits.
        lemma_pow2_pos(d);
        if e >= 0 {
            let f = e as nat;
            lemma_pow2_adds(d, f);
            assert(den * pow2(d) > 0) by (nonlinear_arith)
                requires
                    den > 0,
                    pow2(d) > 0,
            ;
            lemma_half_even_scale(2 * num, den * pow2(d), pow2(f));
            assert((den * sd) * pow2(k) == (den * pow2(d)) * pow2(f)) by (nonlinear_arith)
                requires
                    pow2(k) == pow2(d) * pow2(f),
                    sd == 1,
            ;
        } else {
            let f = (-e) as nat;
            lemma_pow2_adds(k, f);
            assert((den * sd) * pow2(k) == den * pow2(d)) by (nonlinear_arith)
                requires
                    pow2(d) == pow2(k) * pow2(f),
                    sd == pow2(f),
            ;
        }
    }
}


/// Whether `q` is the square root of `n`, rounded down.
pub open spec fn is_root(q: nat, n: nat) -> bool {
    q * q <= n < (q + 1) * (q + 1)
}

/// The square root of `n`, rounded down.
pub open spec fn root(n: nat) -> nat {
    choose|q: nat| is_root(q, n)
}

/// The bit pattern of the magnitude nearest to the square root of `n`, in units,
/// ties to even.
pub open spec fn round_root(p: nat, inf: nat, n: nat) -> nat
    recommends
        p > 0,
{
    // The least `k` for which the root is below `2^(p + k)`.
    let k = (shift_for(n, pow2(2 * p)) + 1) / 2;
    let q = root(n / pow2(2 * k));
    let mid = ((2 * q + 1) * (2 * q + 1)) * pow2(2 * k);
    let m = if 4 * n > mid || (4 * n == mid && q % 2 == 1) {
        q + 1
    } else {
        q
    };
    let r = k * pow2((p - 1) as nat) + m;
    if r < inf {
        r
    } else {
        inf
    }
}

/// There is one rounded-down square root.
pub proof fn lemma_root(n: nat, q: nat)
    requires
        is_root(q, n),
    ensures
        root(n) == q,
{
    let r = root(n);
    assert(is_root(r, n));
    if r < q {
        assert((r + 1) * (r + 1) <= q * q) by (nonlinear_arith)
            requires
                r + 1 <= q,
        ;
    }
    if q < r {
        assert((q + 1) * (q + 1) <= r * r) by (nonlinear_arith)
            requires
                q + 1 <= r,
        ;
    }
}

/// The square root of `n`, rounded down.
pub fn floor_root(n: u128) -> (q: u128)
    requires
        n < pow2(122),
    ensures
        is_root(q as nat, n as nat),
{
    proof {
        lemma_pow2_adds(61, 61);
        lemma2_to64();
        lemma2_to64_rest();
    }
    let mut r: u128 = 0;
    let mut w: u128 = 0x2000_0000_0000_0000;
    let ghost mut i: nat = 61;
    while w > 1
        invariant
            w == pow2(i),
            i <= 61,
            r + w <= 0x2000_0000_0000_0000,
            r * r <= n < (r + w) * (r + w),
        decreases w,
    {
        proof {
            if i == 0 {
                lemma2_to64();
            }
            lemma_pow2_unfold(i);
            lemma_pow2_pos((i - 1) as nat);
            i = (i - 1) as nat;
        }
        let ghost before = r;
        w = w / 2;
        let c: u128 = r + w;
        proof {
            assert(c * c <= 0x2000_0000_0000_0000 * 0x2000_0000_0000_0000) by (nonlinear_arith)
                requires
                    0 <= c <= 0x2000_0000_0000_0000,
            ;
        }
        if c * c <= n {
            r = c;
        }
        proof {
            assert(r + w == before + 2 * w || r + w == c);
        }
    }
    proof {
        lemma_pow2_pos(i);
        assert(w == 1);
    }
    r
}

/// Comparing across a common factor.
proof fn lemma_cross(n: nat, a: nat, g: nat, h: nat, s: nat, t: nat, y: nat)
    requires
        n * g == a * h,
        s * g == t * h,
        g > 0,
        h > 0,
    ensures
        n < y * s <==> a < y * t,
        n == y * s <==> a == y * t,
{
    assert((y * s) * g == (y * t) * h) by (nonlinear_arith)
        requires
            s * g == t * h,
    ;
    let u = y * s;
    let v = y * t;
    if n < u {
        assert(n * g < u * g) by (nonlinear_arith)
            requires
                n < u,
                g > 0,
        ;
    }
    if n > u {
        assert(n * g > u * g) by (nonlinear_arith)
            requires
                n > u,
                g > 0,
        ;
    }
    if a < v {
        assert(a * h < v * h) by (nonlinear_arith)
            requires
                a < v,
                h > 0,
        ;
    }
    if a > v {
        assert(a * h > v * h) by (nonlinear_arith)
            requires
                a > v,
                h > 0,
        ;
    }
}

/// `2^(2 a)` is the square of `2^a`.
proof fn lemma_pow2_square(a: nat)
    ensures
        pow2(2 * a) == pow2(a) * pow2(a),
{
    lemma_pow2_adds(a, a);
}

/// Rounding the square root of `n`, where `n` is `4 * m * 2^(2 e)`, through the
/// root of `m` rounded down: doubled, and odd where `m` is not a square.
pub proof fn lemma_round_root(p: nat, inf: nat, n: nat, m: nat, r: nat, e: int)
    requires
        p > 0,
        is_root(r, m),
        r >= pow2(p),
        e >= 0 ==> n == (4 * m) * pow2((2 * e) as nat),
        e < 0 ==> n * pow2((-2 * e) as nat) == 4 * m,
    ensures
        round_root(p, inf, n) == round_mag(
            p,
            inf,
            scale_num(
                2 * r + (if r * r == m {
                    0nat
                } else {
                    1nat
                }),
                e,
            ),
            scale_den(e),
        ),
{
    let exact = r * r == m;
    let c: nat = 2 * r + (if exact {
        0nat
    } else {
        1nat
    });
    let a = 4 * m;
    lemma_pow2_unfold(p + 1);
    lemma_pow2_pos(p);
    let len = shift_for(c, 1);
    lemma_shift_bounds(c, 1);
    lemma_times_one(1);
    assert(1 * pow2(len) == pow2(len));
    assert(len > 0);
    assert(1 * pow2((len - 1) as nat) == pow2((len - 1) as nat));
    if len < p + 2 {
        lemma_pow2_mono(len, p + 1);
    }
    let k = (if len + e - p > 0 {
        len + e - p
    } else {
        0
    }) as nat;
    lemma_scaled_shift(p, c, e, len, k);
    lemma_scaled_half_even(c, e, k);
    let d = (k - e) as nat;
    assert(d >= 2);
    // n * g == a * h and 4^k * g == 4^d * h
    let g = if e >= 0 {
        1nat
    } else {
        pow2((-2 * e) as nat)
    };
    let h = if e >= 0 {
        pow2((2 * e) as nat)
    } else {
        1nat
    };
    lemma_pow2_pos((if e >= 0 {
        2 * e
    } else {
        -2 * e
    }) as nat);
    assert(n * g == a * h) by (nonlinear_arith)
        requires
            e >= 0 ==> n == a * h && g == 1,
            e < 0 ==> n * g == a && h == 1,
    ;
    let s = pow2(2 * k);
    let t = pow2(2 * d);
    if e >= 0 {
        lemma_pow2_adds(2 * d, (2 * e) as nat);
    } else {
        lemma_pow2_adds(2 * k, (-2 * e) as nat);
    }
    assert(s * g == t * h) by (nonlinear_arith)
        requires
            e >= 0 ==> s == t * h && g == 1,
            e < 0 ==> s * g == t && h == 1,
    ;
    lemma_pow2_square(d);
    let w = pow2(d);
    let hw = pow2((d - 1) as nat);
    let qw = pow2((d - 2) as nat);
    lemma_pow2_pos(d);
    lemma_pow2_unfold(d);
    lemma_pow2_unfold((d - 1) as nat);
    // How `a` stands to a square: as `c` stands to an even number.
    assert forall|y: nat| y % 2 == 0 implies (a < #[trigger] (y * y) <==> c < y) && (a == y * y
        <==> c == y) by {
        if exact {
            assert(a == c * c) by (nonlinear_arith)
                requires
                    a == 4 * (r * r),
                    c == 2 * r,
            ;
            if c < y {
                assert(c * c < y * y) by (nonlinear_arith)
                    requires
                        c < y,
                ;
            }
            if c > y {
                assert(c * c > y * y) by (nonlinear_arith)
                    requires
                        c > y,
                ;
            }
        } else {
            assert((c - 1) * (c - 1) < a < (c + 1) * (c + 1)) by (nonlinear_arith)
                requires
                    a == 4 * m,
                    r * r < m < (r + 1) * (r + 1),
                    c == 2 * r + 1,
            ;
            if c < y {
                assert((c + 1) * (c + 1) <= y * y) by (nonlinear_arith)
                    requires
                        c + 1 <= y,
                ;
            } else {
                assert(c != y);
                assert((c - 1) * (c - 1) >= y * y) by (nonlinear_arith)
                    requires
                        c - 1 >= y,
                ;
            }
        }
    }
    // The shift.
    let b = pow2(2 * p);
    lemma_pow2_square(p);
    lemma_pow2_pos(2 * p);
    lemma_pow2_adds(p, d);
    lemma_pow2_mono(len, p + d);
    {
        let y = pow2(p) * w;
        assert(y % 2 == 0) by {
            assert(y == 2 * (pow2(p) * hw)) by (nonlinear_arith)
                requires
                    y == pow2(p) * w,
                    w == 2 * hw,
            ;
        }
        assert(y * y == b * t) by (nonlinear_arith)
            requires
                y == pow2(p) * w,
                b == pow2(p) * pow2(p),
                t == w * w,
        ;
        assert(a < y * y <==> c < y);
        lemma_cross(n, a, g, h, s, t, b);
        assert(n < b * s);
    }
    if k > 0 {
        let s1 = pow2((2 * k - 2) as nat);
        let t1 = pow2((2 * d - 2) as nat);
        lemma_pow2_adds((2 * k - 2) as nat, 2);
        lemma_pow2_adds((2 * d - 2) as nat, 2);
        lemma2_to64();
        assert(s1 * g == t1 * h) by (nonlinear_arith)
            requires
                s * g == t * h,
                s == s1 * 4,
                t == t1 * 4,
        ;
        lemma_pow2_square((d - 1) as nat);
        lemma_pow2_adds(p, (d - 1) as nat);
        let y = pow2(p) * hw;
        assert(y % 2 == 0) by {
            assert(y == 2 * (pow2(p) * qw)) by (nonlinear_arith)
                requires
                    y == pow2(p) * hw,
                    hw == 2 * qw,
            ;
        }
        assert(y * y == b * t1) by (nonlinear_arith)
            requires
                y == pow2(p) * hw,
                b == pow2(p) * pow2(p),
                t1 == hw * hw,
        ;
        assert(a < y * y <==> c < y);
        assert((len - 1) as nat == p + (d - 1));
        lemma_cross(n, a, g, h, s1, t1, b);
        assert(n >= b * s1);
    }
    let j = shift_for(n, b);
    lemma_shift_bounds(n, b);
    assert((j + 1) / 2 == k) by {
        if j > 2 * k {
            lemma_pow2_mono(2 * k, (j - 1) as nat);
            assert(b * pow2((j - 1) as nat) >= b * s) by (nonlinear_arith)
                requires
                    pow2((j - 1) as nat) >= s,
            ;
        }
        if k > 0 && j <= 2 * k - 2 {
            lemma_pow2_mono(j, (2 * k - 2) as nat);
            assert(b * pow2(j) <= b * pow2((2 * k - 2) as nat)) by (nonlinear_arith)
                requires
                    pow2(j) <= pow2((2 * k - 2) as nat),
            ;
        }
    }
    // The quotient.
    let q = c / w;
    let rem = c % w;
    lemma_fundamental_div_mod(c as int, w as int);
    lemma_pow2_pos(2 * k);
    {
        let y0 = q * w;
        let y1 = (q + 1) * w;
        assert(y0 % 2 == 0 && y1 % 2 == 0) by {
            assert(y0 == 2 * (q * hw) && y1 == 2 * ((q + 1) * hw)) by (nonlinear_arith)
                requires
                    y0 == q * w,
                    y1 == (q + 1) * w,
                    w == 2 * hw,
            ;
        }
        assert(y0 <= c < y1) by (nonlinear_arith)
            requires
                c == w * q + rem,
                0 <= rem < w,
                y0 == q * w,
                y1 == (q + 1) * w,
        ;
        assert(y0 * y0 == (q * q) * t && y1 * y1 == ((q + 1) * (q + 1)) * t) by (nonlinear_arith)
            requires
                y0 == q * w,
                y1 == (q + 1) * w,
                t == w * w,
        ;
        assert(a < y0 * y0 <==> c < y0);
        assert(a < y1 * y1 <==> c < y1);
        lemma_cross(n, a, g, h, s, t, q * q);
        lemma_cross(n, a, g, h, s, t, (q + 1) * (q + 1));
        let nq = n / s;
        lemma_fundamental_div_mod(n as int, s as int);
        let ns = n % s;
        assert(q * q <= nq < (q + 1) * (q + 1)) by (nonlinear_arith)
            requires
                n == s * nq + ns,
                0 <= ns < s,
                (q * q) * s <= n < ((q + 1) * (q + 1)) * s,
        ;
        assert(is_root(q, nq));
        lemma_root(nq, q);
    }
    // The last place.
    {
        let o = 2 * q + 1;
        let y = o * hw;
        assert(y % 2 == 0) by {
            assert(y == 2 * (o * qw)) by (nonlinear_arith)
                requires
                    y == o * hw,
                    hw == 2 * qw,
            ;
        }
        assert(y == w * q + hw) by (nonlinear_arith)
            requires
                y == o * hw,
                o == 2 * q + 1,
                w == 2 * hw,
        ;
        assert(4 * (y * y) == (o * o) * t) by (nonlinear_arith)
            requires
                y == o * hw,
                t == w * w,
                w == 2 * hw,
        ;
        assert(a < y * y <==> c < y);
        assert(a == y * y <==> c == y);
        assert((4 * n) * g == (4 * a) * h) by (nonlinear_arith)
            requires
                n * g == a * h,
        ;
        lemma_cross(4 * n, 4 * a, g, h, s, t, o * o);
    }
}

} // verus!
