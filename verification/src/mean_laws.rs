//! That means are means, and how many triangles are asked for.

use crate::float::{F32, F64};
use crate::halving;
use crate::ieee;
use crate::isotone;
use crate::model;
use crate::monotone;
use crate::nearness;
use crate::rounding;
use crate::simplify;
use crate::turn_laws;
use vstd::arithmetic::div_mod::*;
use vstd::arithmetic::power2::*;
use vstd::prelude::*;

verus! {

/// The exact sum of the coordinates of points along axis `k`.
pub open spec fn exact_sum(points: Seq<[F64; 3]>, k: int) -> int
    decreases points.len(),
{
    if points.len() == 0 {
        0
    } else {
        exact_sum(points.drop_last(), k) + points.last()[k].rank()
    }
}

/// Whether every coordinate of the points along axis `k` is finite and at most `reach`.
pub open spec fn coordinates_within(points: Seq<[F64; 3]>, k: int, reach: int) -> bool {
    forall|i: int| 0 <= i < points.len() ==> turn_laws::within((#[trigger] points[i])[k], reach)
}

proof fn lemma_sum(points: Seq<[F64; 3]>, k: int, reach: int)
    requires
        0 <= k < 3,
        coordinates_within(points, k, reach),
        0 <= reach <= pow2(1900),
        points.len() <= 0x8_0000_0000_0000,
    ensures
        ({
            let s = model::sum_along(points, k);
            let n = points.len() as int;
            &&& s.finite()
            &&& turn_laws::near(s.rank(), exact_sum(points, k), 2 * n * n * reach)
            &&& -(n * reach) <= exact_sum(points, k) <= n * reach
            &&& -(2 * n * reach) <= s.rank() <= 2 * n * reach
        }),
    decreases points.len(),
{
    (F64 { bits: 0 }).lemma_zero();
    if points.len() > 0 {
        let rest = points.drop_last();
        assert forall|i: int| 0 <= i < rest.len() implies turn_laws::within(
            (#[trigger] rest[i])[k],
            reach,
        ) by {
            assert(turn_laws::within(points[i][k], reach));
        }
        lemma_sum(rest, k, reach);
        let n = points.len() as int;
        let m = n - 1;
        let a = model::sum_along(rest, k);
        let x = points.last()[k];
        assert(turn_laws::within(points[n - 1][k], reach));
        lemma_pow2_adds(60, 1900);
        lemma2_to64_rest();
        rounding::lemma_pow2_mono(1960, 2060);
        let big = 2 * m * reach;
        assert(0 <= big && big + reach <= pow2(1960)) by (nonlinear_arith)
            requires
                big == 2 * m * reach,
                0 <= m < 0x8_0000_0000_0000,
                0 <= reach <= pow2(1900),
                pow2(1960) == 0x1000_0000_0000_0000 * pow2(1900),
        ;
        turn_laws::lemma_sum(a, x, big, reach);
        let s = a.plus(x);
        let d = s.rank() - a.rank() - x.rank();
        let w = 0x20_0000_0000_0000int;
        assert(2 * m * m * reach + big + reach <= 2 * n * n * reach) by (nonlinear_arith)
            requires
                big == 2 * m * reach,
                n == m + 1,
                m >= 0,
                reach >= 0,
        ;
        assert(n * reach == m * reach + reach && big == 2 * (m * reach) && 2 * n * reach == 2 * (n
            * reach)) by (nonlinear_arith)
            requires
                n == m + 1,
                big == 2 * m * reach,
        ;
        let e = s.rank() - exact_sum(points, k);
        assert(e * w <= 2 * n * n * reach);
        assert(2 * n * n * reach <= (n * reach) * w) by (nonlinear_arith)
            requires
                0 < n <= 0x8_0000_0000_0000,
                reach >= 0,
                w == 0x20_0000_0000_0000,
        ;
    }
}

/// An integer as a double, where it is not too large, is that integer.
proof fn lemma_whole(n: nat)
    requires
        0 < n <= 0x8_0000_0000_0000,
    ensures
        F64::spec_from_uint(n as u64).finite(),
        F64::spec_from_uint(n as u64).rank() > 0,
        ({
            let v = F64::spec_from_uint(n as u64).rank();
            let u = nearness::one64() as int;
            ieee::abs_of(v - n * u) * 0x20_0000_0000_0000 <= n * u + 0x10_0000_0000_0000
        }),
        F64::spec_from_uint(n as u64).rank() >= nearness::one64(),
{
    reveal(F64::rank);
    reveal(F64::spec_from_uint);
    let f = ieee::double();
    lemma_pow2_pos(1074);
    lemma2_to64_rest();
    let s = n * pow2(1074);
    let z = ieee::spec_from_uint(f, n);
    isotone::lemma_signed(f, false, rounding::round_mag(53, f.inf as nat, s, 1));
    assert(f.value(z) == isotone::rounded(f, s as int, 1));
    lemma_pow2_adds(51, 1074);
    assert(s <= pow2(1125)) by (nonlinear_arith)
        requires
            s == n * pow2(1074),
            n <= 0x8_0000_0000_0000,
            pow2(1125) == 0x8_0000_0000_0000 * pow2(1074),
    ;
    assert(1 * pow2(1125) == pow2(1125));
    nearness::lemma_bounded(z, s as int, 1, 1125);
    halving::lemma_rounded_near(f, z, s as int, 1);
    assert(f.value(z) * 1 == f.value(z));
    // One is a double.
    nearness::lemma_power(1022);
    let one = F64 { bits: (1023 * 0x10_0000_0000_0000) as u64 };
    halving::lemma_rounded_exact(f, one.bits, 1);
    assert(pow2(1074) as int * 1 == pow2(1074));
    assert(s >= pow2(1074)) by (nonlinear_arith)
        requires
            s == n * pow2(1074),
            n >= 1,
    ;
    isotone::lemma_rounded_ordered(f, pow2(1074) as int, s as int, 1);
    monotone::lemma_sign(f, z);
}

/// The centre of a mesh is the mean of its vertices: along each axis, as many times the
/// centre as there are vertices is the sum of all of them, up to rounding, with no vertex
/// farther than `reach`.
pub proof fn law_mean(points: Seq<[F64; 3]>, k: int, reach: int)
    requires
        0 <= k < 3,
        0 < points.len() <= 0x8_0000_0000_0000,
        coordinates_within(points, k, reach),
        0 <= reach <= pow2(1900),
    ensures
        ({
            let c = model::mean_along(points, k);
            let n = points.len() as int;
            &&& c.finite()
            &&& turn_laws::near(
                n * c.rank(),
                exact_sum(points, k),
                20 * n * n * reach + 0x40_0000_0000_0000 * n,
            )
        }),
{
    let n = points.len() as int;
    lemma_sum(points, k, reach);
    lemma_whole(points.len());
    let s = model::sum_along(points, k);
    let d = F64::spec_from_uint(points.len() as u64);
    nearness::lemma_over_finite(s, d);
    s.law_over_near(d);
    lemma2_to64_rest();
    lemma_pow2_pos(1074);
    let u = nearness::one64() as int;
    isotone::lemma_abs_times(s.rank(), nearness::one64());
    let (sv, dv, c) = (s.rank(), d.rank(), model::mean_along(points, k).rank());
    rounding::lemma_pow2_mono(53, 1074);
    lemma_mean_drift(u, n, reach, sv, dv, c, exact_sum(points, k));
}

proof fn lemma_mean_drift(u: int, n: int, reach: int, s: int, d: int, c: int, exact: int)
    requires
        u >= 0x20_0000_0000_0000,
        0 < n <= 0x8_0000_0000_0000,
        reach >= 0,
        d >= u,
        -(2 * n * reach) <= s <= 2 * n * reach,
        ieee::abs_of(d - n * u) * 0x20_0000_0000_0000 <= n * u + 0x10_0000_0000_0000,
        ieee::abs_of(c * d - s * u) * 0x20_0000_0000_0000 <= ieee::abs_of(s) * u + d
            * 0x10_0000_0000_0000,
        turn_laws::near(s, exact, 2 * n * n * reach),
    ensures
        turn_laws::near(n * c, exact, 20 * n * n * reach + 0x40_0000_0000_0000 * n),
{
    let w = 0x20_0000_0000_0000int;
    let a = ieee::abs_of(s) as int;
    let z = ieee::abs_of(c) as int;
    let nr = n * reach;
    assert(2 * n * reach == 2 * nr && nr >= 0) by (nonlinear_arith)
        requires
            nr == n * reach,
            n > 0,
            reach >= 0,
    ;
    let nu = n * u;
    let au = a * u;
    let cd = c * d;
    // How large the quotient is.
    assert(d <= 2 * nu && 2 * d >= nu) by {
        assert(nu >= u) by (nonlinear_arith)
            requires
                nu == n * u,
                n >= 1,
                u > 0,
        ;
    }
    isotone::lemma_abs_times(c, d as nat);
    isotone::lemma_abs_times(s, u as nat);
    let zd = z * d;
    assert(zd * w <= au * w + au + d * 0x10_0000_0000_0000);
    assert(zd <= 2 * au + d);
    assert(n * z <= 8 * nr + 2 * n) by (nonlinear_arith)
        requires
            z * d <= 2 * (a * u) + d,
            2 * d >= n * u,
            d <= 2 * (n * u),
            0 <= a <= 2 * nr,
            u > 0,
            n > 0,
            z >= 0,
    ;
    // Times the number of points.
    let t = n * c - s;
    let e1 = cd - s * u;
    let e2 = nu - d;
    assert(t * u == e1 + c * e2) by (nonlinear_arith)
        requires
            t == n * c - s,
            e1 == c * d - s * u,
            e2 == n * u - d,
    ;
    turn_laws::lemma_product_size(c, e2 * w, z, nu + 0x10_0000_0000_0000);
    assert(c * (e2 * w) == (c * e2) * w) by (nonlinear_arith);
    let znu = z * (nu + 0x10_0000_0000_0000);
    assert(znu <= 2 * ((8 * nr + 2 * n) * u)) by (nonlinear_arith)
        requires
            znu == z * (n * u + 0x10_0000_0000_0000),
            n * z <= 8 * nr + 2 * n,
            u >= 0x20_0000_0000_0000,
            z >= 0,
            n >= 1,
    ;
    assert((t * u) * w == e1 * w + (c * e2) * w);
    let total = 2 * nr + 0x20_0000_0000_0000 * n + 2 * (8 * nr + 2 * n);
    assert(au <= 2 * (nr * u)) by (nonlinear_arith)
        requires
            au == a * u,
            a <= 2 * nr,
            u > 0,
    ;
    assert(total * u == 2 * (nr * u) + 0x20_0000_0000_0000 * (n * u) + 2 * ((8 * nr + 2 * n) * u))
        by (nonlinear_arith)
        requires
            total == 2 * nr + 0x20_0000_0000_0000 * n + 2 * (8 * nr + 2 * n),
    ;
    assert(-(total * u) <= (t * u) * w <= total * u);
    assert(-total <= t * w <= total) by (nonlinear_arith)
        requires
            -(total * u) <= (t * u) * w <= total * u,
            u > 0,
    ;
    // As many roundings as there are points are more than these few.
    let r2 = n * n * reach;
    assert(r2 >= nr && 2 * n * n * reach == 2 * r2 && 20 * n * n * reach == 20 * r2)
        by (nonlinear_arith)
        requires
            r2 == n * n * reach,
            nr == n * reach,
            n >= 1,
            reach >= 0,
    ;
}

/// A mesh is reduced to the share of its indices that is asked for, rounded down to whole
/// triangles, but to no fewer than four triangles.
pub proof fn law_share_of_indices(count: usize, ratio: F32)
    requires
        count <= 0x4000_0000,
        ratio.finite(),
        0 < ratio.rank() < nearness::one32(),
    ensures
        ({
            let t = simplify::spec_request(count, ratio).target_count as int;
            let o = nearness::one32() as int;
            let share = count * ratio.rank();
            &&& t % 3 == 0
            &&& t >= 12
            &&& t > 12 ==> t * o * 0x40_0000 <= share * 0x40_0001 + o
            &&& share * 0x3f_ffff <= (t + 3) * o * 0x40_0000 + o
        }),
{
    let o = nearness::one32() as int;
    lemma_pow2_pos(149);
    lemma2_to64();
    lemma2_to64_rest();
    rounding::lemma_pow2_mono(24, 149);
    let g = ieee::single();
    let n = count as int;
    let c = F32::from_uint(count as u64);
    let r = ratio.rank();
    lemma_count(count as u64);
    let cv = c.rank();
    reveal(F32::rank);
    reveal(F32::spec_times);
    reveal(F32::spec_to_uint);
    let p = c.times(ratio);
    let z = ieee::spec_times(g, c.bits as u64, ratio.bits as u64);
    nearness::lemma_product_value(g, c.bits as u64, ratio.bits as u64);
    let cr = cv * r;
    let top = 0x4f00_0000u64;
    monotone::lemma_units_of(24, 157, pow2(23));
    lemma_pow2_adds(23, 157);
    lemma_pow2_adds(31, 149);
    let b = g.value(top);
    assert(b == 0x8000_0000 * o);
    assert(0 <= cr <= b * o) by (nonlinear_arith)
        requires
            cr == cv * r,
            0 <= cv <= b,
            0 < r < o,
    ;
    halving::lemma_rounded_exact(g, top, nearness::one32());
    isotone::lemma_rounded_ordered(g, cr, b * o, nearness::one32());
    isotone::lemma_rounded_ordered(g, 0, cr, nearness::one32());
    monotone::lemma_round_zero(24, g.inf as nat, nearness::one32());
    monotone::lemma_units_zero(24);
    if g.infinite(z) {
        ieee::lemma_units_increase(24, top as nat, g.inf as nat);
    }
    assert(p.bits == z);
    halving::lemma_rounded_near(g, z, cr, nearness::one32());
    let pv = g.value(z);
    let whole = ieee::whole(g, z) as int;
    monotone::lemma_sign(g, z);
    assert(0 <= pv <= b);
    lemma_fundamental_div_mod(pv, o);
    assert(whole * o <= pv < (whole + 1) * o && whole <= 0x8000_0000) by {
        if g.neg(z) {
            assert(pv == 0);
        }
        assert(g.units(z) == pv);
        assert(whole == pv / o);
        assert(whole * o <= pv < (whole + 1) * o) by (nonlinear_arith)
            requires
                pv == o * whole + pv % o,
                0 <= pv % o < o,
        ;
        assert(whole <= 0x8000_0000) by (nonlinear_arith)
            requires
                whole * o <= pv,
                pv <= 0x8000_0000 * o,
                o > 0,
        ;
    }
    lemma_request(count, ratio, whole, z);
    let t = simplify::spec_request(count, ratio).target_count as int;
    // All in units of the square.
    let nr = n * r;
    let oo = o * o;
    let nor = nr * o;
    assert(ieee::abs_of(cr - nor) * 0x100_0000 <= nor + 0x80_0000 * r) by (nonlinear_arith)
        requires
            cr == cv * r,
            nor == n * r * o,
            -(n * o + 0x80_0000) <= (cv - n * o) * 0x100_0000 <= n * o + 0x80_0000,
            r > 0,
    ;
    let po = pv * o;
    assert(0x80_0000 * r <= oo && o * 0x80_0000 <= oo && nor >= 0) by (nonlinear_arith)
        requires
            0 < r < o,
            oo == o * o,
            o >= 0x100_0000,
            nor == n * r * o,
            n >= 0,
    ;
    assert(ieee::abs_of(po - nor) * 0x80_0000 <= 2 * nor + 2 * oo);
    let to = t * o;
    let too = to * o;
    if t > 12 {
        assert(too <= po) by (nonlinear_arith)
            requires
                too == t * o * o,
                po == pv * o,
                t <= whole,
                whole * o <= pv,
                o > 0,
        ;
        assert(to * 0x40_0000 <= nr * 0x40_0001 + o) by (nonlinear_arith)
            requires
                to * o * 0x80_0000 <= nr * o * 0x80_0002 + 2 * (o * o),
                o > 0,
        ;
    }
    let so = (t + 3) * o;
    assert(po <= so * o) by (nonlinear_arith)
        requires
            po == pv * o,
            pv < (whole + 1) * o,
            whole + 1 <= t + 3,
            so == (t + 3) * o,
            o > 0,
    ;
    assert(nr * 0x3f_ffff <= so * 0x40_0000 + o) by (nonlinear_arith)
        requires
            nr * o * 0x7f_fffe <= so * o * 0x80_0000 + 2 * (o * o),
            o > 0,
    ;
}

/// What is asked for, by the whole part of the product.
proof fn lemma_request(count: usize, ratio: F32, whole: int, z: u64)
    requires
        count <= 0x4000_0000,
        z == F32::from_uint(count as u64).times(ratio).bits,
        whole == ieee::whole(ieee::single(), z),
        0 <= whole,
        ieee::single().finite(z),
        ieee::single().value(z) >= 0,
        whole * nearness::one32() <= ieee::single().value(z),
        whole <= usize::MAX,
    ensures
        ({
            let t = simplify::spec_request(count, ratio).target_count as int;
            &&& t % 3 == 0
            &&& t >= 12
            &&& t > 12 ==> t <= whole
            &&& whole <= t + 2
        }),
{
    reveal(F32::spec_to_uint);
    let g = ieee::single();
    monotone::lemma_sign(g, z);
    let p = F32::from_uint(count as u64).times(ratio);
    if g.neg(z) {
        assert(g.value(z) == 0);
        lemma_pow2_pos(149);
        let o = nearness::one32() as int;
        assert(whole == 0) by (nonlinear_arith)
            requires
                whole * o <= 0,
                whole >= 0,
                o > 0,
        ;
    }
    assert(p.to_uint(usize::MAX as u64) == whole);
}

/// An integer as a single.
proof fn lemma_count(n: u64)
    requires
        n <= 0x4000_0000,
    ensures
        F32::from_uint(n).finite(),
        ({
            let v = F32::from_uint(n).rank();
            let o = nearness::one32() as int;
            &&& 0 <= v <= 0x8000_0000 * o
            &&& -(n * o + 0x80_0000) <= (v - n * o) * 0x100_0000 <= n * o + 0x80_0000
        }),
{
    reveal(F32::rank);
    reveal(F32::spec_from_uint);
    let g = ieee::single();
    lemma_pow2_pos(149);
    lemma2_to64();
    lemma2_to64_rest();
    let s = n as nat * pow2(149);
    let z = ieee::spec_from_uint(g, n as nat);
    isotone::lemma_signed(g, false, rounding::round_mag(24, g.inf as nat, s, 1));
    assert(g.value(z) == isotone::rounded(g, s as int, 1));
    let top = 0x4e80_0000u64;
    monotone::lemma_units_of(24, 156, pow2(23));
    lemma_pow2_adds(23, 156);
    lemma_pow2_adds(30, 149);
    assert(g.value(top) == pow2(179));
    halving::lemma_rounded_exact(g, top, 1);
    assert(s <= pow2(179)) by (nonlinear_arith)
        requires
            s == n as nat * pow2(149),
            n <= 0x4000_0000,
            pow2(179) == 0x4000_0000 * pow2(149),
    ;
    assert(pow2(179) as int * 1 == pow2(179));
    isotone::lemma_rounded_ordered(g, s as int, pow2(179) as int, 1);
    if g.infinite(z) {
        ieee::lemma_units_increase(24, top as nat, g.inf as nat);
    }
    halving::lemma_rounded_near(g, z, s as int, 1);
    assert(g.value(z) * 1 == g.value(z));
}

} // verus!
