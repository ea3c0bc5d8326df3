//! Where on the earth a box of the model lies.

use crate::float::F64;
use crate::ieee;
use crate::isotone;
use crate::nearness;
use crate::octree::Aabb;
use crate::rounding;
use crate::scenetree;
use crate::scenetree::{Angle, Stand};
use vstd::arithmetic::power2::*;
use vstd::prelude::*;

verus! {

/// Whether a number is finite, and its size at most `q`.
pub open spec fn within(x: F64, q: int) -> bool {
    x.finite() && -q <= x.rank() <= q
}

/// Whether the sine and the cosine of an angle are at most one.
pub open spec fn is_angle(a: Angle) -> bool {
    within(a.sin, nearness::one64() as int) && within(a.cos, nearness::one64() as int)
}

/// Whether `a` and `b` differ by no more than `e` parts in `2^53`.
pub open spec fn near(a: int, b: int, e: int) -> bool {
    -e <= (a - b) * 0x20_0000_0000_0000 <= e
}

pub proof fn lemma_product_size(a: int, b: int, c: int, d: int)
    requires
        -c <= a <= c,
        -d <= b <= d,
    ensures
        -(c * d) <= a * b <= c * d,
{
    assert(-(c * d) <= a * b <= c * d) by (nonlinear_arith)
        requires
            -c <= a <= c,
            -d <= b <= d,
    ;
}

/// A number times a sine or a cosine.
pub proof fn lemma_part(x: F64, c: F64, q: int)
    requires
        within(x, q),
        within(c, nearness::one64() as int),
        0 <= q <= pow2(2040),
    ensures
        within(x.times(c), 2 * q + 1),
        near(
            x.times(c).rank() * nearness::one64(),
            x.rank() * c.rank(),
            nearness::one64() * (q + 0x10_0000_0000_0000),
        ),
{
    let u = nearness::one64() as int;
    lemma_pow2_pos(1074);
    let s = x.rank() * c.rank();
    lemma_product_size(x.rank(), c.rank(), q, u);
    assert(q * u <= u * pow2(2040)) by (nonlinear_arith)
        requires
            q <= pow2(2040),
            u > 0,
    ;
    assert(x.times(c).finite()) by {
        reveal(F64::rank);
        reveal(F64::spec_times);
        let f = ieee::double();
        nearness::lemma_product_value(f, x.bits, c.bits);
        nearness::lemma_bounded(ieee::spec_times(f, x.bits, c.bits), s, nearness::one64(), 2040);
    }
    x.law_times_near(c);
    lemma2_to64_rest();
    let p = x.times(c).rank();
    let pu = p * u;
    let e = pu - s;
    assert(u * (q + 0x10_0000_0000_0000) == u * q + u * 0x10_0000_0000_0000) by (nonlinear_arith);
    assert(q * u == u * q) by (nonlinear_arith);
    assert(-(2 * q + 1) <= p <= 2 * q + 1) by (nonlinear_arith)
        requires
            -(u * q) <= s <= u * q,
            -(u * q + u * 0x10_0000_0000_0000) <= (p * u - s) * 0x20_0000_0000_0000,
            (p * u - s) * 0x20_0000_0000_0000 <= u * q + u * 0x10_0000_0000_0000,
            u > 0,
            q >= 0,
    ;
}

/// The sum of two numbers.
pub proof fn lemma_sum(x: F64, y: F64, q: int, r: int)
    requires
        within(x, q),
        within(y, r),
        q >= 0,
        r >= 0,
        q + r <= pow2(2060),
    ensures
        within(x.plus(y), 2 * (q + r)),
        near(x.plus(y).rank(), x.rank() + y.rank(), q + r),
{
    assert(x.plus(y).finite()) by {
        reveal(F64::rank);
        reveal(F64::spec_plus);
        let f = ieee::double();
        isotone::lemma_plus_value(f, x.bits, y.bits);
        assert(1 * pow2(2060) == pow2(2060));
        nearness::lemma_bounded(
            ieee::spec_plus(f, x.bits, y.bits),
            x.rank() + y.rank(),
            1,
            2060,
        );
    }
    x.law_plus_near(y);
    lemma2_to64_rest();
}

/// The negative of a number.
proof fn lemma_negative(x: F64, q: int)
    requires
        within(x, q),
    ensures
        within(x.negate(), q),
        x.negate().rank() == -x.rank(),
{
    reveal(F64::rank);
    reveal(F64::spec_negate);
    isotone::lemma_neg_value(ieee::double(), x.bits);
}

/// The midpoint of a box.
proof fn lemma_mid(a: Aabb, k: int, reach: int)
    requires
        0 <= k < 3,
        within(a.min[k], reach),
        within(a.max[k], reach),
        0 <= reach <= pow2(2000),
    ensures
        within(scenetree::mid(a, k), 2 * reach + 1),
        near(
            2 * scenetree::mid(a, k).rank(),
            a.min[k].rank() + a.max[k].rank(),
            6 * reach + 0x20_0000_0000_0000,
        ),
{
    let two = F64 { bits: crate::float::TWO64 };
    nearness::lemma_power(1023);
    lemma_pow2_unfold(1075);
    assert(two.finite() && two.rank() == 2 * nearness::one64());
    lemma_reach_small(reach);
    lemma_sum(a.min[k], a.max[k], reach, reach);
    let t = a.min[k].plus(a.max[k]);
    let m = t.over(two);
    let u = nearness::one64() as int;
    lemma_pow2_pos(1074);
    rounding::lemma_pow2_mono(2010, 2040);
    assert(m.finite()) by {
        reveal(F64::rank);
        reveal(F64::spec_over);
        let f = ieee::double();
        crate::monotone::lemma_sign(f, two.bits);
        isotone::lemma_over_value(f, t.bits, two.bits);
        isotone::lemma_abs_times(t.rank(), nearness::one64());
        let x = ieee::abs_of(t.rank());
        let b = pow2(2040) as int;
        assert(x * u <= 2 * u * b) by (nonlinear_arith)
            requires
                x <= b,
                u > 0,
                x >= 0,
        ;
        nearness::lemma_bounded(
            ieee::spec_over(f, t.bits, two.bits),
            t.rank() * u,
            f.units(two.bits),
            2040,
        );
    }
    t.law_over_near(two);
    lemma2_to64_rest();
    isotone::lemma_abs_times(t.rank(), nearness::one64());
    let x = t.rank();
    let v = m.rank();
    let z = ieee::abs_of(x) as int;
    assert(-(z + 0x20_0000_0000_0000) <= (2 * v - x) * 0x20_0000_0000_0000 <= z
        + 0x20_0000_0000_0000) by (nonlinear_arith)
        requires
            -(z * u + 2 * u * 0x10_0000_0000_0000) <= (v * (2 * u) - x * u)
                * 0x20_0000_0000_0000,
            (v * (2 * u) - x * u) * 0x20_0000_0000_0000 <= z * u + 2 * u * 0x10_0000_0000_0000,
            u > 0,
    ;
}

/// A bound that leaves room for what is made of it.
proof fn lemma_reach_small(reach: int)
    requires
        0 <= reach <= pow2(2000),
    ensures
        1024 * (reach + 0x20_0000_0000_0000) <= pow2(2012),
        pow2(2012) <= pow2(2040),
        pow2(2012) <= pow2(2060),
        pow2(2010) <= pow2(2012),
{
    lemma_pow2_adds(10, 2000);
    lemma_pow2_adds(10, 53);
    lemma2_to64();
    lemma2_to64_rest();
    rounding::lemma_pow2_mono(63, 2010);
    rounding::lemma_pow2_mono(2011, 2012);
    rounding::lemma_pow2_mono(2010, 2012);
    rounding::lemma_pow2_mono(2012, 2040);
    rounding::lemma_pow2_mono(2012, 2060);
    lemma_pow2_unfold(2011);
}

/// What was rounded adds up.
proof fn lemma_turned_parts(
    r: int,
    u: int,
    s0: int,
    s1: int,
    p: int,
    q: int,
    x: int,
    y: int,
    c0: int,
    c1: int,
)
    ensures
        2 * (r * u) - (s0 * p + s1 * q) == 2 * ((r - x - y) * u) + 2 * (x * u - c0 * p) + 2 * (y * u
            - c1 * q) + (2 * c0 - s0) * p + (2 * c1 - s1) * q,
{
    assert((r - x - y) * u == r * u - x * u - y * u) by (nonlinear_arith);
    assert((2 * c0 - s0) * p == 2 * (c0 * p) - s0 * p) by (nonlinear_arith);
    assert((2 * c1 - s1) * q == 2 * (c1 * q) - s1 * q) by (nonlinear_arith);
}

/// A number times a sine or a cosine, plus another: what was rounded.
proof fn lemma_turned(c0: F64, c1: F64, p: F64, q: F64, s0: int, s1: int, reach: int)
    requires
        0 <= reach <= pow2(2000),
        within(c0, 2 * reach + 1),
        within(c1, 2 * reach + 1),
        near(2 * c0.rank(), s0, 6 * reach + 0x20_0000_0000_0000),
        near(2 * c1.rank(), s1, 6 * reach + 0x20_0000_0000_0000),
        within(p, nearness::one64() as int),
        within(q, nearness::one64() as int),
    ensures
        within(c0.times(p).plus(c1.times(q)), 16 * reach + 12),
        near(
            2 * (c0.times(p).plus(c1.times(q)).rank() * nearness::one64()),
            s0 * p.rank() + s1 * q.rank(),
            36 * (nearness::one64() * (reach + 0x20_0000_0000_0000)),
        ),
{
    let u = nearness::one64() as int;
    lemma_pow2_pos(1074);
    lemma_reach_small(reach);
    let b = 2 * reach + 1;
    lemma_part(c0, p, b);
    lemma_part(c1, q, b);
    let (x, y) = (c0.times(p), c1.times(q));
    lemma_sum(x, y, 2 * b + 1, 2 * b + 1);
    let r = x.plus(y).rank();
    let (xv, yv) = (x.rank(), y.rank());
    let w = 0x20_0000_0000_0000int;
    let (pv, qv) = (p.rank(), q.rank());
    // What the midpoints are off by, turned.
    let (d0, d1) = (2 * c0.rank() - s0, 2 * c1.rank() - s1);
    lemma_product_size(d0 * w, pv, 6 * reach + w, u);
    lemma_product_size(d1 * w, qv, 6 * reach + w, u);
    let e = r - xv - yv;
    lemma_product_size(e * w, u, 8 * reach + 6, u);
    let (t0, t1) = (xv * u - c0.rank() * pv, yv * u - c1.rank() * qv);
    let total = 2 * (r * u) - (s0 * pv + s1 * qv);
    lemma_turned_parts(r, u, s0, s1, pv, qv, xv, yv, c0.rank(), c1.rank());
    assert((e * w) * u == (e * u) * w && (d0 * w) * pv == (d0 * pv) * w && (d1 * w) * qv == (d1
        * qv) * w) by (nonlinear_arith);
    let ru = reach * u;
    assert((6 * reach + w) * u == 6 * ru + w * u && (8 * reach + 6) * u == 8 * ru + 6 * u && u * (b
        + 0x10_0000_0000_0000) == 2 * ru + u + u * 0x10_0000_0000_0000 && u * (reach + w) == ru + u
        * w && w * u == u * w) by (nonlinear_arith)
        requires
            ru == reach * u,
            b == 2 * reach + 1,
    ;
    assert(ru >= 0) by (nonlinear_arith)
        requires
            ru == reach * u,
            reach >= 0,
            u > 0,
    ;
}

/// How far to the east a midpoint lies that is `s` over two, by the exact rules: the
/// heading turns clockwise from north. In units of the square of the smallest positive
/// number, and twice the distance.
pub open spec fn exact_east(s0: int, s1: int, heading: Angle) -> int {
    s0 * heading.cos.rank() + s1 * heading.sin.rank()
}

/// How far to the north, likewise.
pub open spec fn exact_north(s0: int, s1: int, heading: Angle) -> int {
    s1 * heading.cos.rank() - s0 * heading.sin.rank()
}

/// The heading turns the model clockwise from north: with a sine of zero and a cosine of
/// one the first axis of the model points to the east and the second to the north, and with
/// a sine of one and a cosine of zero the second axis points to the east and the first to
/// the south.
pub proof fn law_quarter_turns(a: Aabb, h: Angle, reach: int)
    requires
        0 <= reach <= pow2(2000),
        forall|k: int|
            0 <= k < 3 ==> within(#[trigger] a.min[k], reach) && within(a.max[k], reach),
        is_angle(h),
    ensures
        ({
            let u = nearness::one64() as int;
            let e = 2 * scenetree::east(a, h).rank();
            let n = 2 * scenetree::north(a, h).rank();
            let x = a.min[0].rank() + a.max[0].rank();
            let y = a.min[1].rank() + a.max[1].rank();
            let off = 36 * (reach + 0x20_0000_0000_0000);
            &&& h.sin.rank() == 0 && h.cos.rank() == u ==> near(e, x, off) && near(n, y, off)
            &&& h.sin.rank() == u && h.cos.rank() == 0 ==> near(e, y, off) && near(n, -x, off)
            &&& h.sin.rank() == 0 && h.cos.rank() == -u ==> near(e, -x, off) && near(n, -y, off)
            &&& h.sin.rank() == -u && h.cos.rank() == 0 ==> near(e, -y, off) && near(n, x, off)
        }),
{
    law_heading(a, h, reach);
    let u = nearness::one64() as int;
    lemma_pow2_pos(1074);
    let e = 2 * scenetree::east(a, h).rank();
    let n = 2 * scenetree::north(a, h).rank();
    let x = a.min[0].rank() + a.max[0].rank();
    let y = a.min[1].rank() + a.max[1].rank();
    let off = 36 * (reach + 0x20_0000_0000_0000);
    assert(e * u == 2 * (scenetree::east(a, h).rank() * u)) by (nonlinear_arith)
        requires
            e == 2 * scenetree::east(a, h).rank(),
    ;
    assert(n * u == 2 * (scenetree::north(a, h).rank() * u)) by (nonlinear_arith)
        requires
            n == 2 * scenetree::north(a, h).rank(),
    ;
    assert(36 * (u * (reach + 0x20_0000_0000_0000)) == u * off) by (nonlinear_arith)
        requires
            off == 36 * (reach + 0x20_0000_0000_0000),
    ;
    let (s, c) = (h.sin.rank(), h.cos.rank());
    assert(near(e * u, x * c + y * s, u * off));
    assert(near(n * u, y * c - x * s, u * off));
    assert(x * 0 == 0 && y * 0 == 0 && x * (-u) == (-x) * u && y * (-u) == (-y) * u)
        by (nonlinear_arith);
    if s == 0 && c == u {
        lemma_unscaled(e, x * c + y * s, x, u, off);
        lemma_unscaled(n, y * c - x * s, y, u, off);
    }
    if s == u && c == 0 {
        lemma_unscaled(e, x * c + y * s, y, u, off);
        lemma_unscaled(n, y * c - x * s, -x, u, off);
        assert((-x) * u == -(x * u)) by (nonlinear_arith);
    }
    if s == 0 && c == -u {
        lemma_unscaled(e, x * c + y * s, -x, u, off);
        lemma_unscaled(n, y * c - x * s, -y, u, off);
    }
    if s == -u && c == 0 {
        lemma_unscaled(e, x * c + y * s, -y, u, off);
        lemma_unscaled(n, y * c - x * s, x, u, off);
        assert((-x) * u == -(x * u)) by (nonlinear_arith);
    }
}

proof fn lemma_unscaled(e: int, scaled: int, x: int, u: int, off: int)
    requires
        u > 0,
    ensures
        scaled == x * u && near(e * u, scaled, u * off) ==> near(e, x, off),
{
    if scaled == x * u && near(e * u, scaled, u * off) {
        assert(near(e, x, off)) by (nonlinear_arith)
            requires
                -(u * off) <= (e * u - x * u) * 0x20_0000_0000_0000 <= u * off,
                u > 0,
        ;
    }
}

/// Where the midpoint of a box lies from the anchor of the model: it is turned clockwise
/// from north by the heading, up to rounding.
pub proof fn law_heading(a: Aabb, h: Angle, reach: int)
    requires
        0 <= reach <= pow2(2000),
        forall|k: int|
            0 <= k < 3 ==> within(#[trigger] a.min[k], reach) && within(a.max[k], reach),
        is_angle(h),
    ensures
        ({
            let x = a.min[0].rank() + a.max[0].rank();
            let y = a.min[1].rank() + a.max[1].rank();
            let off = 36 * (nearness::one64() * (reach + 0x20_0000_0000_0000));
            &&& within(scenetree::east(a, h), 16 * reach + 12)
            &&& within(scenetree::north(a, h), 16 * reach + 12)
            &&& near(
                2 * (scenetree::east(a, h).rank() * nearness::one64()),
                exact_east(x, y, h),
                off,
            )
            &&& near(
                2 * (scenetree::north(a, h).rank() * nearness::one64()),
                exact_north(x, y, h),
                off,
            )
        }),
{
    assert(within(a.min[0], reach) && within(a.min[1], reach));
    let x = a.min[0].rank() + a.max[0].rank();
    let y = a.min[1].rank() + a.max[1].rank();
    lemma_mid(a, 0, reach);
    lemma_mid(a, 1, reach);
    let (c0, c1) = (scenetree::mid(a, 0), scenetree::mid(a, 1));
    lemma_turned(c0, c1, h.cos, h.sin, x, y, reach);
    lemma_negative(c0, 2 * reach + 1);
    lemma_turned(c0.negate(), c1, h.sin, h.cos, -x, y, reach);
    assert((-x) * h.sin.rank() == -(x * h.sin.rank())) by (nonlinear_arith);
}

/// A number times two sines or cosines.
proof fn lemma_part_twice(x: F64, c: F64, d: F64, q: int)
    requires
        within(x, q),
        within(c, nearness::one64() as int),
        within(d, nearness::one64() as int),
        0 <= q,
        2 * q + 1 <= pow2(2040),
    ensures
        within(x.times(c).times(d), 4 * q + 3),
        ({
            let u = nearness::one64() as int;
            near(
                x.times(c).times(d).rank() * (u * u),
                x.rank() * c.rank() * d.rank(),
                (u * u) * (3 * q + 1 + 0x20_0000_0000_0000),
            )
        }),
{
    let u = nearness::one64() as int;
    lemma_pow2_pos(1074);
    lemma_part(x, c, q);
    lemma_part(x.times(c), d, 2 * q + 1);
    let a = x.times(c).rank();
    let b = x.times(c).times(d).rank();
    let (xv, cv, dv) = (x.rank(), c.rank(), d.rank());
    let w = 0x20_0000_0000_0000int;
    let t1 = a * u - xv * cv;
    let t2 = b * u - a * dv;
    lemma_product_size(t1 * w, dv, u * (q + 0x10_0000_0000_0000), u);
    lemma_product_size(t2 * w, u, u * (2 * q + 1 + 0x10_0000_0000_0000), u);
    let t = b * (u * u) - xv * cv * dv;
    assert(t == t2 * u + t1 * dv) by (nonlinear_arith)
        requires
            t == b * (u * u) - xv * cv * dv,
            t1 == a * u - xv * cv,
            t2 == b * u - a * dv,
    ;
    assert((t1 * w) * dv == (t1 * dv) * w && (t2 * w) * u == (t2 * u) * w) by (nonlinear_arith);
    let uu = u * u;
    assert(u * (q + 0x10_0000_0000_0000) * u + u * (2 * q + 1 + 0x10_0000_0000_0000) * u == uu * (3
        * q + 1 + w)) by (nonlinear_arith)
        requires
            uu == u * u,
            w == 0x20_0000_0000_0000,
    ;
}

/// Three parts, the second and third rounded twice, and their sum.
proof fn lemma_three_parts(p: F64, b: F64, d: F64, ep: int, eb: int, ed: int, q: int)
    requires
        0 <= q,
        100 * q + 100 <= pow2(2040),
        within(p, 2 * q + 1),
        within(b, 4 * q + 3),
        within(d, 4 * q + 3),
        ({
            let uu = (nearness::one64() * nearness::one64()) as int;
            &&& near(p.rank() * uu, ep, uu * (q + 0x10_0000_0000_0000))
            &&& near(b.rank() * uu, eb, uu * (3 * q + 1 + 0x20_0000_0000_0000))
            &&& near(d.rank() * uu, ed, uu * (3 * q + 1 + 0x20_0000_0000_0000))
        }),
    ensures
        within(p.plus(b).plus(d), 32 * q + 22),
        ({
            let uu = (nearness::one64() * nearness::one64()) as int;
            near(
                p.plus(b).plus(d).rank() * uu,
                ep + eb + ed,
                29 * (uu * (q + 0x20_0000_0000_0000)),
            )
        }),
{
    let u = nearness::one64() as int;
    lemma_pow2_pos(1074);
    let uu = u * u;
    assert(uu > 0) by (nonlinear_arith)
        requires
            uu == u * u,
            u > 0,
    ;
    rounding::lemma_pow2_mono(2040, 2060);
    lemma_sum(p, b, 2 * q + 1, 4 * q + 3);
    let f = p.plus(b);
    lemma_sum(f, d, 12 * q + 8, 4 * q + 3);
    let x = f.plus(d).rank();
    let w = 0x20_0000_0000_0000int;
    let e1 = f.rank() - p.rank() - b.rank();
    let e2 = x - f.rank() - d.rank();
    lemma_product_size(e1 * w, uu, 6 * q + 4, uu);
    lemma_product_size(e2 * w, uu, 16 * q + 11, uu);
    let (pv, bv, dv, fv) = (p.rank(), b.rank(), d.rank(), f.rank());
    assert(x * uu == e2 * uu + e1 * uu + pv * uu + bv * uu + dv * uu) by (nonlinear_arith)
        requires
            e1 == fv - pv - bv,
            e2 == x - fv - dv,
    ;
    assert((e1 * w) * uu == (e1 * uu) * w && (e2 * w) * uu == (e2 * uu) * w) by (nonlinear_arith);
    let qu = q * uu;
    assert((6 * q + 4) * uu == 6 * qu + 4 * uu && (16 * q + 11) * uu == 16 * qu + 11 * uu && uu * (q
        + 0x10_0000_0000_0000) == qu + uu * 0x10_0000_0000_0000 && uu * (3 * q + 1
        + 0x20_0000_0000_0000) == 3 * qu + uu + uu * 0x20_0000_0000_0000 && uu * (q
        + 0x20_0000_0000_0000) == qu + uu * 0x20_0000_0000_0000) by (nonlinear_arith)
        requires
            qu == q * uu,
    ;
    assert(qu >= 0) by (nonlinear_arith)
        requires
            qu == q * uu,
            q >= 0,
            uu > 0,
    ;
}

/// The exact offset along one axis of the earth, of one to the east, the north and upwards,
/// in units of the square of what makes one.
pub open spec fn exact_offset(lon: Angle, lat: Angle, e: int, n: int, up: int, axis: int) -> int {
    let u = nearness::one64() as int;
    let (sl, cl) = (lon.sin.rank(), lon.cos.rank());
    let (sp, cp) = (lat.sin.rank(), lat.cos.rank());
    if axis == 0 {
        // East is against the first axis as the longitude grows; north and up lean on it.
        up * cp * cl - n * sp * cl - e * sl * u
    } else if axis == 1 {
        up * cp * sl - n * sp * sl + e * cl * u
    } else {
        n * cp * u + up * sp * u
    }
}

/// An offset to the east, the north and upwards goes along the axes of the earth as the
/// longitude and the latitude say, up to rounding: east is level and square to the
/// meridian, north goes along it, and up away from the ground.
pub proof fn law_offset_near(lon: Angle, lat: Angle, e: F64, n: F64, up: F64, q: int, axis: int)
    requires
        is_angle(lon),
        is_angle(lat),
        0 <= q,
        100 * q + 100 <= pow2(2040),
        within(e, q),
        within(n, q),
        within(up, q),
        0 <= axis < 3,
    ensures
        ({
            let uu = (nearness::one64() * nearness::one64()) as int;
            let r = scenetree::spec_offset(lon, lat, e, n, up)[axis];
            &&& within(r, 32 * q + 22)
            &&& near(
                r.rank() * uu,
                exact_offset(lon, lat, e.rank(), n.rank(), up.rank(), axis),
                29 * (uu * (q + 0x20_0000_0000_0000)),
            )
        }),
{
    let u = nearness::one64() as int;
    lemma_pow2_pos(1074);
    let uu = u * u;
    let (ev, nv, pv) = (e.rank(), n.rank(), up.rank());
    let (sl, cl) = (lon.sin.rank(), lon.cos.rank());
    let (sp, cp) = (lat.sin.rank(), lat.cos.rank());
    lemma_negative(lon.sin, u);
    lemma_negative(lat.sin, u);
    if axis == 0 {
        let p = e.times(lon.sin.negate());
        lemma_part(e, lon.sin.negate(), q);
        lemma_scaled_part(p.rank(), ev, -sl, u, q);
        lemma_part_twice(n, lat.sin.negate(), lon.cos, q);
        lemma_part_twice(up, lat.cos, lon.cos, q);
        lemma_three_parts(
            p,
            n.times(lat.sin.negate()).times(lon.cos),
            up.times(lat.cos).times(lon.cos),
            ev * (-sl) * u,
            nv * (-sp) * cl,
            pv * cp * cl,
            q,
        );
        assert(ev * (-sl) * u == -(ev * sl * u) && nv * (-sp) * cl == -(nv * sp * cl))
            by (nonlinear_arith);
    } else if axis == 1 {
        let p = e.times(lon.cos);
        lemma_part(e, lon.cos, q);
        lemma_scaled_part(p.rank(), ev, cl, u, q);
        lemma_part_twice(n, lat.sin.negate(), lon.sin, q);
        lemma_part_twice(up, lat.cos, lon.sin, q);
        lemma_three_parts(
            p,
            n.times(lat.sin.negate()).times(lon.sin),
            up.times(lat.cos).times(lon.sin),
            ev * cl * u,
            nv * (-sp) * sl,
            pv * cp * sl,
            q,
        );
        assert(nv * (-sp) * sl == -(nv * sp * sl)) by (nonlinear_arith);
    } else {
        let a = n.times(lat.cos);
        let b = up.times(lat.sin);
        lemma_part(n, lat.cos, q);
        lemma_part(up, lat.sin, q);
        rounding::lemma_pow2_mono(2040, 2060);
        lemma_sum(a, b, 2 * q + 1, 2 * q + 1);
        lemma_scaled_part(a.rank(), nv, cp, u, q);
        lemma_scaled_part(b.rank(), pv, sp, u, q);
        let r = a.plus(b).rank();
        let w = 0x20_0000_0000_0000int;
        let d = r - a.rank() - b.rank();
        assert(uu > 0) by (nonlinear_arith)
            requires
                uu == u * u,
                u > 0,
        ;
        lemma_product_size(d * w, uu, 4 * q + 2, uu);
        assert((d * w) * uu == (d * uu) * w) by (nonlinear_arith);
        assert(d * uu == r * uu - a.rank() * uu - b.rank() * uu) by (nonlinear_arith)
            requires
                d == r - a.rank() - b.rank(),
        ;
        let qu = q * uu;
        assert((4 * q + 2) * uu == 4 * qu + 2 * uu && uu * (q + 0x10_0000_0000_0000) == qu + uu
            * 0x10_0000_0000_0000 && uu * (q + w) == qu + uu * w) by (nonlinear_arith)
            requires
                qu == q * uu,
        ;
        assert(qu >= 0) by (nonlinear_arith)
            requires
                qu == q * uu,
                q >= 0,
                uu > 0,
        ;
    }
}

/// A part that was rounded once, in finer units.
proof fn lemma_scaled_part(p: int, x: int, c: int, u: int, q: int)
    requires
        u > 0,
        near(p * u, x * c, u * (q + 0x10_0000_0000_0000)),
    ensures
        near(p * (u * u), x * c * u, (u * u) * (q + 0x10_0000_0000_0000)),
{
    let w = 0x20_0000_0000_0000int;
    let t = p * u - x * c;
    let b = u * (q + 0x10_0000_0000_0000);
    assert(-(b * u) <= (t * w) * u <= b * u) by (nonlinear_arith)
        requires
            -b <= t * w <= b,
            u > 0,
    ;
    assert((t * w) * u == (t * u) * w) by (nonlinear_arith);
    assert(t * u == p * (u * u) - x * c * u) by (nonlinear_arith)
        requires
            t == p * u - x * c,
    ;
    assert(b * u == (u * u) * (q + 0x10_0000_0000_0000)) by (nonlinear_arith)
        requires
            b == u * (q + 0x10_0000_0000_0000),
    ;
}

/// Offsets add up, and grow as what they are made of.
proof fn lemma_offset_linear(
    lon: Angle,
    lat: Angle,
    k: int,
    e: int,
    n: int,
    p: int,
    e2: int,
    n2: int,
    p2: int,
    axis: int,
)
    ensures
        exact_offset(lon, lat, k * e - e2, k * n - n2, k * p - p2, axis) == k * exact_offset(
            lon,
            lat,
            e,
            n,
            p,
            axis,
        ) - exact_offset(lon, lat, e2, n2, p2, axis),
{
    let u = nearness::one64() as int;
    let (sl, cl) = (lon.sin.rank(), lon.cos.rank());
    let (sp, cp) = (lat.sin.rank(), lat.cos.rank());
    if axis == 0 {
        lemma_term_linear(k, p, p2, cp, cl);
        lemma_term_linear(k, n, n2, sp, cl);
        lemma_term_linear(k, e, e2, sl, u);
        lemma_three_linear(k, p * cp * cl, -(n * sp * cl), -(e * sl * u));
    } else if axis == 1 {
        lemma_term_linear(k, p, p2, cp, sl);
        lemma_term_linear(k, n, n2, sp, sl);
        lemma_term_linear(k, e, e2, cl, u);
        lemma_three_linear(k, p * cp * sl, -(n * sp * sl), e * cl * u);
    } else {
        lemma_term_linear(k, n, n2, cp, u);
        lemma_term_linear(k, p, p2, sp, u);
        lemma_three_linear(k, n * cp * u, p * sp * u, 0);
    }
}

proof fn lemma_term_linear(k: int, x: int, y: int, c: int, d: int)
    ensures
        (k * x - y) * c * d == k * (x * c * d) - y * c * d,
{
    assert((k * x - y) * c * d == k * (x * c * d) - y * c * d) by (nonlinear_arith);
}

proof fn lemma_three_linear(k: int, a: int, b: int, c: int)
    ensures
        k * (a + b + c) == k * a + k * b + k * c,
        k * (-a) == -(k * a),
        k * (-b) == -(k * b),
        k * (-c) == -(k * c),
{
    assert(k * (a + b + c) == k * a + k * b + k * c) by (nonlinear_arith);
    assert(k * (-a) == -(k * a) && k * (-b) == -(k * b) && k * (-c) == -(k * c))
        by (nonlinear_arith);
}

/// The size of an offset.
proof fn lemma_offset_size(lon: Angle, lat: Angle, e: int, n: int, p: int, d: int, axis: int)
    requires
        is_angle(lon),
        is_angle(lat),
        -d <= e <= d,
        -d <= n <= d,
        -d <= p <= d,
    ensures
        ({
            let u = nearness::one64() as int;
            let m = d * u * u;
            -(3 * m) <= exact_offset(lon, lat, e, n, p, axis) <= 3 * m
        }),
{
    let u = nearness::one64() as int;
    let (sl, cl) = (lon.sin.rank(), lon.cos.rank());
    let (sp, cp) = (lat.sin.rank(), lat.cos.rank());
    lemma_term_size(p, cp, cl, d, u);
    lemma_term_size(n, sp, cl, d, u);
    lemma_term_size(e, sl, u, d, u);
    lemma_term_size(p, cp, sl, d, u);
    lemma_term_size(n, sp, sl, d, u);
    lemma_term_size(e, cl, u, d, u);
    lemma_term_size(n, cp, u, d, u);
    lemma_term_size(p, sp, u, d, u);
}

proof fn lemma_term_size(x: int, c: int, e: int, d: int, u: int)
    requires
        -d <= x <= d,
        -u <= c <= u,
        -u <= e <= u,
    ensures
        -(d * u * u) <= x * c * e <= d * u * u,
{
    lemma_product_size(x, c, d, u);
    lemma_product_size(x * c, e, d * u, u);
}

/// The centre of the sphere of a box lies from the anchor of the model, the point of the
/// ellipsoid at the longitude and the latitude, where the midpoint of the box does: turned
/// clockwise from north by the heading, the first axis of the model to the east, the second
/// to the north and the third upwards, and then carried to the axes of the earth. Up to
/// rounding, with no coordinate of the box over `reach` and none of the anchor over `far`.
pub proof fn law_sphere_center(a: Aabb, s: Stand, reach: int, far: int, axis: int)
    requires
        0 <= reach <= pow2(2000),
        0 <= far <= pow2(2000),
        forall|k: int|
            0 <= k < 3 ==> within(#[trigger] a.min[k], reach) && within(a.max[k], reach),
        is_angle(s.longitude),
        is_angle(s.latitude),
        is_angle(s.heading),
        0 <= axis < 3,
        within(
            scenetree::spec_ecef(s.longitude, s.latitude, F64 { bits: 0 })[axis],
            far,
        ),
    ensures
        ({
            let u = nearness::one64() as int;
            let x = a.min[0].rank() + a.max[0].rank();
            let y = a.min[1].rank() + a.max[1].rank();
            let z = a.min[2].rank() + a.max[2].rank();
            let anchor = scenetree::spec_ecef(s.longitude, s.latitude, F64 { bits: 0 })[axis];
            let center = scenetree::sphere(a, s)[axis];
            &&& center.finite()
            &&& near(
                2 * ((center.rank() - anchor.rank()) * (u * u * u)),
                exact_offset(
                    s.longitude,
                    s.latitude,
                    exact_east(x, y, s.heading),
                    exact_north(x, y, s.heading),
                    z * u,
                    axis,
                ),
                (u * u * u) * (2 * far + 2200 * (reach + 0x20_0000_0000_0000)),
            )
        }),
{
    let u = nearness::one64() as int;
    lemma_pow2_pos(1074);
    let w = 0x20_0000_0000_0000int;
    assert(within(a.min[2], reach));
    let x = a.min[0].rank() + a.max[0].rank();
    let y = a.min[1].rank() + a.max[1].rank();
    let z = a.min[2].rank() + a.max[2].rank();
    law_heading(a, s.heading, reach);
    lemma_mid(a, 2, reach);
    lemma_reach_small(reach);
    let e = scenetree::east(a, s.heading);
    let n = scenetree::north(a, s.heading);
    let c = scenetree::mid(a, 2);
    let q = 16 * reach + 12;
    rounding::lemma_pow2_mono(2012, 2040);
    lemma_pow2_adds(2, 2012);
    lemma2_to64();
    rounding::lemma_pow2_mono(2014, 2040);
    law_offset_near(s.longitude, s.latitude, e, n, c, q, axis);
    let off = scenetree::spec_offset(s.longitude, s.latitude, e, n, c)[axis];
    let anchor = scenetree::spec_ecef(s.longitude, s.latitude, F64 { bits: 0 })[axis];
    lemma_reach_small(far);
    lemma_pow2_unfold(2013);
    rounding::lemma_pow2_mono(2013, 2060);
    lemma_sum(anchor, off, far, 32 * q + 22);
    let center = scenetree::sphere(a, s)[axis];
    assert(center == anchor.plus(off));
    // What east, north and up are off by, carried over.
    let (ee, nn, pp) = (
        exact_east(x, y, s.heading),
        exact_north(x, y, s.heading),
        z * u,
    );
    let (ev, nv, cv) = (e.rank(), n.rank(), c.rank());
    let k = 2 * u;
    let (de, dn, dp) = (k * ev - ee, k * nv - nn, k * cv - pp);
    let size = 36 * (u * (reach + w));
    assert(k * ev == 2 * (ev * u) && k * nv == 2 * (nv * u)) by (nonlinear_arith)
        requires
            k == 2 * u,
    ;
    let dc = 2 * cv - z;
    assert(dp == dc * u) by (nonlinear_arith)
        requires
            dp == k * cv - z * u,
            k == 2 * u,
            dc == 2 * cv - z,
    ;
    lemma_product_size(dc * w, u, 6 * reach + w, u);
    assert((dc * w) * u == (dc * u) * w) by (nonlinear_arith);
    assert((6 * reach + w) * u <= size) by (nonlinear_arith)
        requires
            size == 36 * (u * (reach + w)),
            reach >= 0,
            w > 0,
            u > 0,
    ;
    lemma_offset_size(s.longitude, s.latitude, w * de, w * dn, w * dp, size, axis);
    lemma_offset_linear(s.longitude, s.latitude, w, de, dn, dp, 0, 0, 0, axis);
    lemma_offset_size(s.longitude, s.latitude, 0, 0, 0, 0, axis);
    lemma_offset_linear(s.longitude, s.latitude, k, ev, nv, cv, ee, nn, pp, axis);
    let o = exact_offset(s.longitude, s.latitude, ev, nv, cv, axis);
    let want = exact_offset(s.longitude, s.latitude, ee, nn, pp, axis);
    let d = exact_offset(s.longitude, s.latitude, de, dn, dp, axis);
    assert(0 * u * u == 0) by (nonlinear_arith);
    assert(d == k * o - want);
    lemma_center_drift(
        u,
        reach,
        far,
        center.rank(),
        anchor.rank(),
        off.rank(),
        o,
        want,
        d,
    );
}

/// The roundings of a centre, taken together.
proof fn lemma_center_drift(
    u: int,
    reach: int,
    far: int,
    center: int,
    anchor: int,
    off: int,
    o: int,
    want: int,
    d: int,
)
    requires
        u > 0,
        reach >= 0,
        far >= 0,
        near(center, anchor + off, far + 32 * (16 * reach + 12) + 22),
        near(off * (u * u), o, 29 * ((u * u) * (16 * reach + 12 + 0x20_0000_0000_0000))),
        d == 2 * u * o - want,
        ({
            let m = 36 * (u * (reach + 0x20_0000_0000_0000)) * u * u;
            -(3 * m) <= 0x20_0000_0000_0000 * d <= 3 * m
        }),
    ensures
        near(
            2 * ((center - anchor) * (u * u * u)),
            want,
            (u * u * u) * (2 * far + 2200 * (reach + 0x20_0000_0000_0000)),
        ),
{
    let w = 0x20_0000_0000_0000int;
    let uu = u * u;
    let c3 = u * u * u;
    assert(uu > 0 && c3 > 0 && c3 == uu * u) by (nonlinear_arith)
        requires
            uu == u * u,
            c3 == u * u * u,
            u > 0,
    ;
    let e1 = center - anchor - off;
    let b1 = far + 32 * (16 * reach + 12) + 22;
    lemma_product_size(e1 * w, c3, b1, c3);
    let t2 = off * uu - o;
    let b2 = 29 * (uu * (16 * reach + 12 + w));
    lemma_product_size(t2 * w, u, b2, u);
    let total = 2 * ((center - anchor) * c3) - want;
    assert(total == 2 * (e1 * c3) + 2 * (t2 * u) + d) by (nonlinear_arith)
        requires
            total == 2 * ((center - anchor) * c3) - want,
            e1 == center - anchor - off,
            t2 == off * uu - o,
            d == 2 * u * o - want,
            c3 == uu * u,
    ;
    assert((e1 * w) * c3 == (e1 * c3) * w && (t2 * w) * u == (t2 * u) * w) by (nonlinear_arith);
    let rc = reach * c3;
    let fc = far * c3;
    let wc = w * c3;
    assert(b1 * c3 == fc + 512 * rc + 406 * c3) by (nonlinear_arith)
        requires
            b1 == far + 32 * (16 * reach + 12) + 22,
            rc == reach * c3,
            fc == far * c3,
    ;
    assert(b2 * u == 464 * rc + 348 * c3 + 29 * wc) by (nonlinear_arith)
        requires
            b2 == 29 * (uu * (16 * reach + 12 + w)),
            c3 == uu * u,
            rc == reach * c3,
            wc == w * c3,
    ;
    assert(36 * (u * (reach + w)) * u * u == 36 * rc + 36 * wc) by (nonlinear_arith)
        requires
            c3 == u * u * u,
            rc == reach * c3,
            wc == w * c3,
    ;
    assert(c3 * (2 * far + 2200 * (reach + w)) == 2 * fc + 2200 * rc + 2200 * wc)
        by (nonlinear_arith)
        requires
            rc == reach * c3,
            fc == far * c3,
            wc == w * c3,
    ;
    assert(rc >= 0 && wc >= 1000 * c3) by (nonlinear_arith)
        requires
            rc == reach * c3,
            wc == w * c3,
            reach >= 0,
            c3 > 0,
            w >= 1000,
    ;
}

} // verus!
