//! Which placements mirror a mesh.

use crate::float::F64;
use crate::ieee;
use crate::isotone;
use crate::model;
use crate::nearness;
use crate::rounding;
use crate::turn_laws;
use vstd::arithmetic::power2::*;
use vstd::prelude::*;

verus! {

/// The exact determinant of a matrix, given by its rows: what is gained along the three
/// diagonals in one direction, less what is lost along the three in the other.
pub open spec fn exact_determinant(m: [[F64; 3]; 3]) -> int {
    let x = |i: int, j: int| m[i][j].rank();
    x(0, 0) * x(1, 1) * x(2, 2) + x(0, 1) * x(1, 2) * x(2, 0) + x(0, 2) * x(1, 0) * x(2, 1) - x(0, 2)
        * x(1, 1) * x(2, 0) - x(0, 0) * x(1, 2) * x(2, 1) - x(0, 1) * x(1, 0) * x(2, 2)
}

/// Whether every number of a matrix is finite and at most `q`.
pub open spec fn entries_within(m: [[F64; 3]; 3], q: int) -> bool {
    forall|i: int, j: int|
        0 <= i < 3 && 0 <= j < 3 ==> turn_laws::within(#[trigger] m[i][j], q)
}

/// A product of two numbers.
proof fn lemma_product(x: F64, y: F64, a: int, b: int)
    requires
        turn_laws::within(x, a),
        turn_laws::within(y, b),
        a >= 0,
        b >= 0,
        a * b <= nearness::one64() * pow2(2040),
    ensures
        ({
            let u = nearness::one64() as int;
            let p = x.times(y);
            &&& p.finite()
            &&& turn_laws::near(
                p.rank() * u,
                x.rank() * y.rank(),
                a * b + u * 0x10_0000_0000_0000,
            )
            &&& -(2 * (a * b) + u) <= p.rank() * u <= 2 * (a * b) + u
        }),
{
    let u = nearness::one64() as int;
    lemma_pow2_pos(1074);
    turn_laws::lemma_product_size(x.rank(), y.rank(), a, b);
    let s = x.rank() * y.rank();
    assert(x.times(y).finite()) by {
        reveal(F64::rank);
        reveal(F64::spec_times);
        let f = ieee::double();
        nearness::lemma_product_value(f, x.bits, y.bits);
        nearness::lemma_bounded(ieee::spec_times(f, x.bits, y.bits), s, nearness::one64(), 2040);
    }
    x.law_times_near(y);
    lemma2_to64_rest();
    assert(a * b >= 0) by (nonlinear_arith)
        requires
            a >= 0,
            b >= 0,
    ;
}

/// A difference of two numbers.
proof fn lemma_difference(x: F64, y: F64, b: int)
    requires
        x.finite(),
        y.finite(),
        -b <= x.rank() <= b,
        -b <= y.rank() <= b,
        2 * b <= pow2(2060),
    ensures
        x.minus(y).finite(),
        turn_laws::near(x.minus(y).rank(), x.rank() - y.rank(), 2 * b),
{
    assert(x.minus(y).finite()) by {
        reveal(F64::rank);
        reveal(F64::spec_minus);
        let f = ieee::double();
        let z = ieee::spec_neg(f, y.bits);
        isotone::lemma_neg_value(f, y.bits);
        isotone::lemma_plus_value(f, x.bits, z);
        assert(1 * pow2(2060) == pow2(2060));
        nearness::lemma_bounded(ieee::spec_plus(f, x.bits, z), x.rank() - y.rank(), 1, 2060);
    }
    x.law_minus_near(y);
    lemma2_to64_rest();
}

/// A number times a difference of products.
proof fn lemma_minor(a: F64, e: F64, i: F64, f: F64, h: F64, q: int)
    requires
        turn_laws::within(a, q),
        turn_laws::within(e, q),
        turn_laws::within(i, q),
        turn_laws::within(f, q),
        turn_laws::within(h, q),
        0 <= q <= pow2(1374),
    ensures
        ({
            let u = nearness::one64() as int;
            let g = a.times(e.times(i).minus(f.times(h)));
            let c = q * q * q;
            &&& g.finite()
            &&& turn_laws::near(
                g.rank() * (u * u),
                a.rank() * (e.rank() * i.rank() - f.rank() * h.rank()),
                14 * c + 6 * (q * u) + q * u * 0x20_0000_0000_0000 + u * u * 0x10_0000_0000_0000,
            )
            &&& -(16 * c + 8 * (q * u) + u * u) <= g.rank() * (u * u) <= 16 * c + 8 * (q * u) + u * u
        }),
{
    let u = nearness::one64() as int;
    let w = 0x20_0000_0000_0000int;
    lemma_pow2_pos(1074);
    let qq = q * q;
    let b = pow2(1374) as int;
    lemma_pow2_adds(1374, 1374);
    lemma_pow2_adds(1074, 1674);
    assert(0 <= qq <= b * b) by (nonlinear_arith)
        requires
            qq == q * q,
            0 <= q <= b,
    ;
    lemma_pow2_adds(1074, 2040);
    rounding::lemma_pow2_mono(2748, 3114);
    lemma_product(e, i, q, q);
    lemma_product(f, h, q, q);
    let (p, r) = (e.times(i), f.times(h));
    let (pv, rv) = (p.rank(), r.rank());
    // The products are far from the limit.
    let k = pow2(1674) as int;
    assert(-(2 * k + 1) <= pv <= 2 * k + 1 && -(2 * k + 1) <= rv <= 2 * k + 1)
        by (nonlinear_arith)
        requires
            -(2 * qq + u) <= pv * u <= 2 * qq + u,
            -(2 * qq + u) <= rv * u <= 2 * qq + u,
            qq <= u * k,
            u > 0,
    ;
    lemma_pow2_pos(1674);
    lemma_pow2_adds(4, 1674);
    lemma2_to64();
    lemma2_to64_rest();
    rounding::lemma_pow2_mono(1678, 2060);
    lemma_difference(p, r, 2 * k + 1);
    p.law_minus_near(r);
    let t = p.minus(r);
    let tv = t.rank();
    assert(-(8 * k) <= tv <= 8 * k);
    // How far the difference is off.
    let d = tv - (pv - rv);
    let tu = tv * u;
    let m = e.rank() * i.rank() - f.rank() * h.rank();
    let z = ieee::abs_of(pv - rv) as int;
    let zu = z * u;
    assert(zu <= 4 * qq + 2 * u) by (nonlinear_arith)
        requires
            zu == z * u,
            z == pv - rv || z == rv - pv,
            -(2 * qq + u) <= pv * u <= 2 * qq + u,
            -(2 * qq + u) <= rv * u <= 2 * qq + u,
    ;
    let du = d * u;
    assert(-zu <= du * w <= zu) by (nonlinear_arith)
        requires
            -z <= d * w <= z,
            du == d * u,
            zu == z * u,
            u > 0,
    ;
    assert(tu == du + pv * u - rv * u) by (nonlinear_arith)
        requires
            tu == tv * u,
            du == d * u,
            d == tv - (pv - rv),
    ;
    assert(-(6 * qq + 2 * u + u * w) <= (tu - m) * w <= 6 * qq + 2 * u + u * w);
    assert(-(8 * qq + 4 * u) <= tu <= 8 * qq + 4 * u);
    // Times the first number.
    let av = a.rank();
    lemma_pow2_adds(3, 1674);
    lemma_pow2_adds(1374, 1677);
    rounding::lemma_pow2_mono(3051, 3114);
    assert(q * (8 * k) <= b * (8 * k)) by (nonlinear_arith)
        requires
            q <= b,
            k > 0,
    ;
    assert(b * (8 * k) == pow2(1374) * pow2(1677));
    lemma_product(a, t, q, 8 * k);
    a.law_times_near(t);
    let g = a.times(t);
    let gv = g.rank();
    let at = av * tv;
    let y = ieee::abs_of(at) as int;
    let e1 = gv * u - at;
    // In finer units.
    let guu = gv * (u * u);
    let atu = av * tu;
    turn_laws::lemma_product_size(av, tu, q, 8 * qq + 4 * u);
    turn_laws::lemma_product_size(av, (tu - m) * w, q, 6 * qq + 2 * u + u * w);
    let c = q * q * q;
    let qu = q * u;
    assert(q * (8 * qq + 4 * u) == 8 * c + 4 * qu && q * (6 * qq + 2 * u + u * w) == 6 * c + 2 * qu
        + qu * w) by (nonlinear_arith)
        requires
            qq == q * q,
            c == q * q * q,
            qu == q * u,
    ;
    let yu = y * u;
    assert(atu == at * u) by (nonlinear_arith)
        requires
            atu == av * tu,
            tu == tv * u,
            at == av * tv,
    ;
    isotone::lemma_abs_times(at, u as nat);
    assert(yu <= 8 * c + 4 * qu);
    let uu = u * u;
    let e1u = e1 * u;
    assert(-(yu + uu * 0x10_0000_0000_0000) <= e1u * w <= yu + uu * 0x10_0000_0000_0000)
        by (nonlinear_arith)
        requires
            -(y + u * 0x10_0000_0000_0000) <= e1 * w <= y + u * 0x10_0000_0000_0000,
            yu == y * u,
            uu == u * u,
            e1u == e1 * u,
            u > 0,
    ;
    assert(guu == e1u + atu) by (nonlinear_arith)
        requires
            guu == gv * (u * u),
            e1u == e1 * u,
            e1 == gv * u - at,
            atu == at * u,
    ;
    let am = av * m;
    assert(av * ((tu - m) * w) == (atu - am) * w) by (nonlinear_arith)
        requires
            atu == av * tu,
            am == av * m,
    ;
    assert((guu - am) * w == e1u * w + (atu - am) * w);
    assert(c >= 0 && qu >= 0 && uu > 0) by (nonlinear_arith)
        requires
            c == q * q * q,
            qu == q * u,
            uu == u * u,
            q >= 0,
            u > 0,
    ;
}

/// How far the determinant may be off, in parts of `2^53`, of numbers up to `q`.
pub open spec fn determinant_slack(q: int) -> int {
    let u = nearness::one64() as int;
    154 * (q * q * q) + 4 * (q * u * 0x20_0000_0000_0000) + 2 * (u * u * 0x20_0000_0000_0000)
}

/// The determinant that placements are judged by is the exact one, up to rounding, and a
/// placement mirrors where the exact one is below zero by more than that, and does not where
/// it is above.
pub proof fn law_mirrors(m: [[F64; 3]; 3], q: int)
    requires
        0 <= q <= pow2(1374),
        entries_within(m, q),
    ensures
        ({
            let u = nearness::one64() as int;
            let r = model::spec_linear_determinant(m);
            let d = exact_determinant(m) * 0x20_0000_0000_0000;
            &&& r.finite()
            &&& turn_laws::near(
                r.rank() * (u * u),
                exact_determinant(m),
                determinant_slack(q),
            )
            &&& d < -determinant_slack(q) ==> r.lt(F64 { bits: 0 })
            &&& d > determinant_slack(q) ==> !r.lt(F64 { bits: 0 })
        }),
{
    let u = nearness::one64() as int;
    let w = 0x20_0000_0000_0000int;
    lemma_pow2_pos(1074);
    (F64 { bits: 0 }).lemma_zero();
    assert(turn_laws::within(m[0][0], q) && turn_laws::within(m[0][1], q) && turn_laws::within(
        m[0][2],
        q,
    ));
    assert(turn_laws::within(m[1][0], q) && turn_laws::within(m[1][1], q) && turn_laws::within(
        m[1][2],
        q,
    ));
    assert(turn_laws::within(m[2][0], q) && turn_laws::within(m[2][1], q) && turn_laws::within(
        m[2][2],
        q,
    ));
    lemma_minor(m[0][0], m[1][1], m[2][2], m[1][2], m[2][1], q);
    lemma_minor(m[0][1], m[1][0], m[2][2], m[1][2], m[2][0], q);
    lemma_minor(m[0][2], m[1][0], m[2][1], m[1][1], m[2][0], q);
    let g1 = m[0][0].times(m[1][1].times(m[2][2]).minus(m[1][2].times(m[2][1])));
    let g2 = m[0][1].times(m[1][0].times(m[2][2]).minus(m[1][2].times(m[2][0])));
    let g3 = m[0][2].times(m[1][0].times(m[2][1]).minus(m[1][1].times(m[2][0])));
    let uu = u * u;
    let c = q * q * q;
    let qu = q * u;
    let b = pow2(1374) as int;
    lemma_pow2_adds(1374, 1374);
    lemma_pow2_adds(2748, 1374);
    lemma_pow2_adds(1374, 1074);
    lemma_pow2_adds(1074, 1074);
    lemma_pow2_adds(2148, 1974);
    let k = pow2(1974) as int;
    assert(0 <= c <= b * b * b && 0 <= qu <= b * u && uu > 0) by (nonlinear_arith)
        requires
            c == q * q * q,
            qu == q * u,
            uu == u * u,
            0 <= q <= b,
            u > 0,
    ;
    rounding::lemma_pow2_mono(2448, 4122);
    lemma_pow2_pos(1974);
    let big = 16 * c + 8 * qu + uu;
    assert(big <= uu * (25 * k)) by {
        assert(uu * (24 * k) == 24 * (uu * k) && uu * (25 * k) == 25 * (uu * k) && uu * k >= uu)
            by (nonlinear_arith)
            requires
                k >= 1,
                uu > 0,
        ;
    }
    lemma_unscale(g1.rank(), uu, 25 * k);
    lemma_unscale(g2.rank(), uu, 25 * k);
    lemma_unscale(g3.rank(), uu, 25 * k);
    lemma_pow2_adds(10, 1974);
    lemma2_to64();
    lemma2_to64_rest();
    rounding::lemma_pow2_mono(1984, 2060);
    lemma_difference(g1, g2, 25 * k);
    g1.law_minus_near(g2);
    let s = g1.minus(g2);
    assert(turn_laws::within(s, 100 * k) && turn_laws::within(g3, 25 * k));
    turn_laws::lemma_sum(s, g3, 100 * k, 25 * k);
    s.law_plus_near(g3);
    let r = s.plus(g3);
    let (v1, v2, v3, sv, rv) = (g1.rank(), g2.rank(), g3.rank(), s.rank(), r.rank());
    let d1 = sv - (v1 - v2);
    let d2 = rv - (sv + v3);
    let z1 = ieee::abs_of(v1 - v2) as int;
    let z2 = ieee::abs_of(sv + v3) as int;
    assert(z1 * uu <= 2 * big) by (nonlinear_arith)
        requires
            z1 == v1 - v2 || z1 == v2 - v1,
            -big <= v1 * uu <= big,
            -big <= v2 * uu <= big,
    ;
    assert(-(z1 * uu) <= (d1 * uu) * w <= z1 * uu) by (nonlinear_arith)
        requires
            -z1 <= d1 * w <= z1,
            uu > 0,
    ;
    assert(sv * uu == d1 * uu + v1 * uu - v2 * uu) by (nonlinear_arith)
        requires
            d1 == sv - (v1 - v2),
    ;
    assert(-(4 * big) <= sv * uu <= 4 * big);
    assert(z2 * uu <= 5 * big) by (nonlinear_arith)
        requires
            z2 == sv + v3 || z2 == -(sv + v3),
            -(4 * big) <= sv * uu <= 4 * big,
            -big <= v3 * uu <= big,
    ;
    assert(-(z2 * uu) <= (d2 * uu) * w <= z2 * uu) by (nonlinear_arith)
        requires
            -z2 <= d2 * w <= z2,
            uu > 0,
    ;
    assert(rv * uu == d2 * uu + sv * uu + v3 * uu) by (nonlinear_arith)
        requires
            d2 == rv - (sv + v3),
    ;
    lemma_rows(m);
    let det = exact_determinant(m);
    let slack = determinant_slack(q);
    assert(turn_laws::near(rv * uu, det, slack));
    assert(rv >= 0 ==> rv * uu >= 0) by (nonlinear_arith)
        requires
            uu > 0,
    ;
    assert(rv < 0 ==> rv * uu < 0) by (nonlinear_arith)
        requires
            uu > 0,
    ;
}

proof fn lemma_unscale(v: int, uu: int, b: int)
    requires
        uu > 0,
        -(uu * b) <= v * uu <= uu * b,
    ensures
        -b <= v <= b,
{
    assert(-b <= v <= b) by (nonlinear_arith)
        requires
            uu > 0,
            -(uu * b) <= v * uu <= uu * b,
    ;
}

/// The determinant by the minors of the first row.
proof fn lemma_rows(m: [[F64; 3]; 3])
    ensures
        exact_determinant(m) == m[0][0].rank() * (m[1][1].rank() * m[2][2].rank() - m[1][2].rank()
            * m[2][1].rank()) - m[0][1].rank() * (m[1][0].rank() * m[2][2].rank() - m[1][2].rank()
            * m[2][0].rank()) + m[0][2].rank() * (m[1][0].rank() * m[2][1].rank() - m[1][1].rank()
            * m[2][0].rank()),
{
    let (a, b, c) = (m[0][0].rank(), m[0][1].rank(), m[0][2].rank());
    let (d, e, f) = (m[1][0].rank(), m[1][1].rank(), m[1][2].rank());
    let (g, h, i) = (m[2][0].rank(), m[2][1].rank(), m[2][2].rank());
    assert(a * (e * i - f * h) == a * e * i - a * f * h) by (nonlinear_arith);
    assert(b * (d * i - f * g) == b * d * i - b * f * g) by (nonlinear_arith);
    assert(c * (d * h - e * g) == c * d * h - c * e * g) by (nonlinear_arith);
}

} // verus!
