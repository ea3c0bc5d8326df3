//! How far the ground offset moves a model.

use crate::extract;
use crate::extract::Placement;
use crate::float::{F32, F64};
use crate::halving;
use crate::ieee;
use crate::isotone;
use crate::model;
use crate::monotone;
use crate::rounding;
use crate::scenetree;
use crate::scenetree::Frame;
use vstd::arithmetic::power2::*;
use vstd::prelude::*;

verus! {

/// Whether none of the heights in metres that occur is above `reach`, in units of the
/// smallest positive number: that of the point, of the ground, of the ground moved by the
/// offset, and the offset itself.
pub open spec fn heights_within(
    p: [F64; 3],
    ground: F64,
    offset: F64,
    scale: F64,
    reach: nat,
) -> bool {
    let zero = F64 { bits: 0 };
    &&& ieee::abs_of(p[1].times(scale).rank()) <= reach
    &&& ieee::abs_of(model::spec_ground_level(ground, zero, scale).times(scale).rank()) <= reach
    &&& ieee::abs_of(model::spec_ground_level(ground, offset, scale).times(scale).rank()) <= reach
    &&& ieee::abs_of(offset.rank()) <= reach
}

/// How far the ground offset misses moving a point of the model up by itself.
pub open spec fn drift(on_ground: [F64; 3], moved: [F64; 3], offset: F64) -> nat {
    ieee::abs_of(moved[1].rank() - on_ground[1].rank() - offset.rank())
}

/// The ground offset moves a point of the model up by itself, in metres, up to rounding:
/// by no more than thirteen parts in `2^53` of the heights that occur, two of the smallest
/// positive numbers, and half the scale of them. Sideways nothing moves.
pub proof fn law_offset_in_metres(
    p: [F64; 3],
    ground: F64,
    offset: F64,
    scale: F64,
    offset_x: F64,
    offset_z: F64,
    reach: nat,
)
    requires
        ground.finite(),
        offset.finite(),
        scale.finite(),
        scale.rank() > 0,
        p[1].times(scale).finite(),
        heights_within(p, ground, offset, scale, reach),
        scenetree::framed(
            p,
            model::spec_frame(ground, F64 { bits: 0 }, scale, offset_x, offset_z),
        )[1].finite(),
        scenetree::framed(
            p,
            model::spec_frame(ground, offset, scale, offset_x, offset_z),
        )[1].finite(),
    ensures
        ({
            let zero = F64 { bits: 0 };
            let on_ground = scenetree::framed(
                p,
                model::spec_frame(ground, zero, scale, offset_x, offset_z),
            );
            let moved = scenetree::framed(
                p,
                model::spec_frame(ground, offset, scale, offset_x, offset_z),
            );
            &&& drift(on_ground, moved, offset) * pow2(53) * pow2(1074) <= (13 * reach + 4 + pow2(53)) * pow2(1074)
                + scale.rank() * pow2(52)
            &&& moved[0] == on_ground[0]
            &&& moved[2] == on_ground[2]
        }),
{
    reveal(F64::rank);
    reveal(F64::spec_over);
    reveal(F64::spec_minus);
    reveal(F64::spec_times);
    let f = ieee::double();
    let zero = F64 { bits: 0 };
    zero.lemma_zero();
    let w = pow2(53) as int;
    let h = pow2(52) as int;
    let u = pow2(1074) as int;
    lemma_pow2_pos(1074);
    lemma_pow2_pos(52);
    lemma_pow2_unfold(53);
    lemma2_to64_rest();
    monotone::lemma_sign(f, scale.bits);
    let s = f.units(scale.bits) as int;
    assert(s == f.value(scale.bits));
    let g = f.value(ground.bits);
    let o = f.value(offset.bits);
    let a = f.value(p[1].times(scale).bits);

    // With the offset.
    let q = offset.over(scale);
    let level = ground.minus(q);
    let m = level.times(scale);
    let y = p[1].times(scale).minus(m);
    lemma_parts_finite(p[1].times(scale), ground, q, scale);
    isotone::lemma_over_value(f, offset.bits, scale.bits);
    halving::lemma_rounded_near(f, q.bits, o * u, s as nat);
    let qv = f.value(q.bits);
    lemma_difference(ground, q);
    let l = f.value(level.bits);
    isotone::lemma_times_value(f, level.bits, scale.bits);
    halving::lemma_rounded_near(f, m.bits, l * s, u as nat);
    let mv = f.value(m.bits);
    lemma_difference(p[1].times(scale), m);
    let yv = f.value(y.bits);

    // Without.
    let q0 = zero.over(scale);
    let level0 = ground.minus(q0);
    let m0 = level0.times(scale);
    let y0 = p[1].times(scale).minus(m0);
    lemma_parts_finite(p[1].times(scale), ground, q0, scale);
    isotone::lemma_over_value(f, 0, scale.bits);
    lemma_zero_quotient(s as nat);
    lemma_minus_zero(ground, q0);
    isotone::lemma_times_value(f, level0.bits, scale.bits);
    halving::lemma_rounded_near(f, m0.bits, g * s, u as nat);
    let m0v = f.value(m0.bits);
    lemma_difference(p[1].times(scale), m0);
    let y0v = f.value(y0.bits);

    lemma_abs_product(o, u);
    lemma_abs_product(l, s);
    lemma_abs_product(g, s);
    lemma_drift(u, s, w, h, reach as int, a, g, o, qv, l, mv, m0v, yv, y0v);
}

/// The vertex of a placed mesh is the point in the model, narrowed: near to it, where it is
/// finite.
pub proof fn law_vertex_near_point(p: [F64; 3], place: Placement, a: int)
    requires
        0 <= a < 3,
        extract::spec_placed_position(p, Some(place))[a].finite(),
    ensures
        ({
            let f = (Frame { scale: place.scale, off: place.off });
            let v = extract::spec_placed_position(p, Some(place))[a].rank();
            let x = scenetree::framed(p, f)[a].rank();
            &&& scenetree::framed(p, f)[a].finite()
            &&& ieee::abs_of(v * pow2(1074) - x * pow2(149)) * pow2(24) <= ieee::abs_of(x) * pow2(
                149,
            ) + pow2(1074) * pow2(23)
        }),
{
    reveal(F64::rank);
    reveal(F32::rank);
    reveal(F64::spec_narrow);
    let f = ieee::double();
    let g = ieee::single();
    let x = scenetree::framed(p, (Frame { scale: place.scale, off: place.off }))[a];
    let r = ieee::spec_convert(f, g, x.bits);
    assert(extract::spec_placed_position(p, Some(place))[a] == x.narrow());
    lemma_pow2_pos(1074);
    lemma_pow2_pos(149);
    if f.nan(x.bits) {
        assert(false);
    }
    let n = f.units(x.bits) * pow2(149);
    if f.infinite(x.bits) {
        isotone::lemma_signed(g, f.neg(x.bits), g.inf as nat);
        assert(false);
    }
    isotone::lemma_signed(
        g,
        f.neg(x.bits),
        rounding::round_mag(24, g.inf as nat, n, pow2(1074)),
    );
    monotone::lemma_sign(f, x.bits);
    let v = f.value(x.bits);
    isotone::lemma_abs_times(v, pow2(149));
    if v == 0 {
        monotone::lemma_round_zero(24, g.inf as nat, pow2(1074));
        monotone::lemma_units_zero(24);
    }
    assert((v * pow2(149) < 0) == (v < 0)) by (nonlinear_arith)
        requires
            pow2(149) > 0,
    ;
    halving::lemma_rounded_near(g, r, v * pow2(149), pow2(1074));
}

/// The ground offset moves every vertex of a placed mesh up by itself, in metres, up to
/// rounding: by no more than the point in the model is missed by, and what both vertices
/// lose when they are narrowed, one part in `2^24` and half of the smallest positive single
/// each. Sideways nothing moves.
pub proof fn law_vertices_move(p: [F64; 3], on_ground: Placement, moved: Placement, offset: F64)
    requires
        moved.scale == on_ground.scale,
        moved.off[0] == on_ground.off[0],
        moved.off[2] == on_ground.off[2],
        extract::spec_placed_position(p, Some(on_ground))[1].finite(),
        extract::spec_placed_position(p, Some(moved))[1].finite(),
    ensures
        ({
            let low = extract::spec_placed_position(p, Some(on_ground));
            let high = extract::spec_placed_position(p, Some(moved));
            let a = scenetree::framed(
                p,
                (Frame { scale: on_ground.scale, off: on_ground.off }),
            );
            let b = scenetree::framed(p, (Frame { scale: moved.scale, off: moved.off }));
            let off = ieee::abs_of(
                (high[1].rank() - low[1].rank()) * pow2(1074) - offset.rank() * pow2(149),
            );
            &&& off * pow2(24) <= (ieee::abs_of(a[1].rank()) + ieee::abs_of(b[1].rank())) * pow2(
                149,
            ) + pow2(1074) * pow2(24) + drift(a, b, offset) * pow2(149) * pow2(24)
            &&& high[0] == low[0]
            &&& high[2] == low[2]
        }),
{
    law_vertex_near_point(p, on_ground, 1);
    law_vertex_near_point(p, moved, 1);
    let low = extract::spec_placed_position(p, Some(on_ground))[1].rank();
    let high = extract::spec_placed_position(p, Some(moved))[1].rank();
    let a = scenetree::framed(p, (Frame { scale: on_ground.scale, off: on_ground.off }))[1].rank();
    let b = scenetree::framed(p, (Frame { scale: moved.scale, off: moved.off }))[1].rank();
    let o = offset.rank();
    let u = pow2(1074) as int;
    let v = pow2(149) as int;
    let w = pow2(24) as int;
    let h = pow2(23) as int;
    lemma_pow2_unfold(24);
    lemma_pow2_pos(149);
    let e1 = high * u - b * v;
    let e0 = low * u - a * v;
    let d = b - a - o;
    let t = (high - low) * u - o * v;
    assert(t == e1 - e0 + d * v) by (nonlinear_arith)
        requires
            e1 == high * u - b * v,
            e0 == low * u - a * v,
            d == b - a - o,
            t == (high - low) * u - o * v,
    ;
    lemma_abs_product(d, v);
    let x = ieee::abs_of(t) as int;
    let x1 = ieee::abs_of(e1) as int;
    let x0 = ieee::abs_of(e0) as int;
    let dv = ieee::abs_of(d) * v;
    assert(x <= x1 + x0 + dv);
    let av = ieee::abs_of(a) as int;
    let bv = ieee::abs_of(b) as int;
    assert(x * w <= (av + bv) * v + u * w + dv * w) by (nonlinear_arith)
        requires
            x <= x1 + x0 + dv,
            x1 * w <= bv * v + u * h,
            x0 * w <= av * v + u * h,
            w == 2 * h,
            w >= 0,
    ;
}

proof fn lemma_abs_product(x: int, c: int)
    requires
        c > 0,
    ensures
        ieee::abs_of(x * c) == ieee::abs_of(x) * c,
{
    isotone::lemma_abs_times(x, c as nat);
}

/// A difference is finite only of what is.
proof fn lemma_parts_finite(a: F64, ground: F64, q: F64, scale: F64)
    requires
        a.finite(),
        ground.finite(),
        scale.finite(),
        scale.rank() > 0,
        a.minus(ground.minus(q).times(scale)).finite(),
    ensures
        q.finite(),
        ground.minus(q).finite(),
        ground.minus(q).times(scale).finite(),
{
    reveal(F64::rank);
    reveal(F64::spec_minus);
    reveal(F64::spec_times);
    monotone::lemma_sign(ieee::double(), scale.bits);
}

/// A finite difference is near to the exact one.
proof fn lemma_difference(x: F64, y: F64)
    requires
        x.finite(),
        y.finite(),
        x.minus(y).finite(),
    ensures
        ({
            let d = x.rank() - y.rank();
            ieee::abs_of(x.minus(y).rank() - d) * pow2(53) <= ieee::abs_of(d)
        }),
{
    reveal(F64::rank);
    reveal(F64::spec_minus);
    let f = ieee::double();
    isotone::lemma_neg_value(f, y.bits);
    halving::lemma_sum_near(f, x.bits, ieee::spec_neg(f, y.bits));
}

proof fn lemma_zero_quotient(den: nat)
    requires
        den > 0,
    ensures
        isotone::rounded(ieee::double(), 0int * pow2(1074), den) == 0,
{
    let f = ieee::double();
    assert(0int * pow2(1074) == 0) by (nonlinear_arith);
    monotone::lemma_round_zero(f.precision as nat, f.inf as nat, den);
    monotone::lemma_units_zero(f.precision as nat);
}

/// Taking away nothing changes nothing.
proof fn lemma_minus_zero(x: F64, z: F64)
    requires
        x.finite(),
        z.finite(),
        z.rank() == 0,
    ensures
        x.minus(z).rank() == x.rank(),
{
    reveal(F64::rank);
    reveal(F64::spec_minus);
    let f = ieee::double();
    isotone::lemma_neg_value(f, z.bits);
    isotone::lemma_plus_value(f, x.bits, ieee::spec_neg(f, z.bits));
    halving::lemma_rounded_exact(f, x.bits, 1);
    assert(f.value(x.bits) * 1 == f.value(x.bits));
}

/// A number scaled and rounded bounds the number.
proof fn lemma_scaled_bound(x: int, s: int, m: int, u: int, w: int, h: int)
    requires
        u > 0,
        s > 0,
        h > 0,
        w == 2 * h,
        ieee::abs_of(m * u - x * s) * w <= ieee::abs_of(x) * s + u * h,
        w >= 4,
    ensures
        ieee::abs_of(x) * s <= 2 * (ieee::abs_of(m) * u) + u,
{
    let e = ieee::abs_of(m * u - x * s) as int;
    let b = ieee::abs_of(x) * s;
    let c = ieee::abs_of(m) * u;
    lemma_abs_product(x, s);
    lemma_abs_product(m, u);
    assert(b <= c + e);
    assert(b <= 2 * c + u) by (nonlinear_arith)
        requires
            b <= c + e,
            e * w <= b + u * h,
            w == 2 * h,
            w >= 4,
            b >= 0,
            c >= 0,
            u > 0,
    ;
}

/// The roundings of the two heights, taken together.
proof fn lemma_drift(
    u: int,
    s: int,
    w: int,
    h: int,
    reach: int,
    a: int,
    g: int,
    o: int,
    q: int,
    l: int,
    m: int,
    m0: int,
    y: int,
    y0: int,
)
    requires
        u > 0,
        s > 0,
        h >= 2,
        w == 2 * h,
        reach >= 0,
        ieee::abs_of(a) <= reach,
        ieee::abs_of(m) <= reach,
        ieee::abs_of(m0) <= reach,
        ieee::abs_of(o) <= reach,
        ieee::abs_of(q * s - o * u) * w <= ieee::abs_of(o) * u + s * h,
        ieee::abs_of(l - (g - q)) * w <= ieee::abs_of(g - q),
        ieee::abs_of(m * u - l * s) * w <= ieee::abs_of(l) * s + u * h,
        ieee::abs_of(m0 * u - g * s) * w <= ieee::abs_of(g) * s + u * h,
        ieee::abs_of(y - (a - m)) * w <= ieee::abs_of(a - m),
        ieee::abs_of(y0 - (a - m0)) * w <= ieee::abs_of(a - m0),
    ensures
        ieee::abs_of(y - y0 - o) * w * u <= (13 * reach + 4 + w) * u + s * h,
{
    let e1 = ieee::abs_of(q * s - o * u) as int;
    let e2 = ieee::abs_of(l - (g - q)) as int;
    let e3 = ieee::abs_of(m * u - l * s) as int;
    let e4 = ieee::abs_of(m0 * u - g * s) as int;
    let e5 = ieee::abs_of(y - (a - m)) as int;
    let e6 = ieee::abs_of(y0 - (a - m0)) as int;
    let err = ieee::abs_of(y - y0 - o) as int;
    lemma_scaled_bound(l, s, m, u, w, h);
    lemma_scaled_bound(g, s, m0, u, w, h);
    let d = ieee::abs_of(g - q) as int;
    let lv = ieee::abs_of(l) as int;
    assert(d <= 2 * lv) by (nonlinear_arith)
        requires
            d <= lv + e2,
            e2 * w <= d,
            w >= 4,
            d >= 0,
            lv >= 0,
            e2 >= 0,
    ;
    // The exact differences add up.
    let t5 = y - (a - m);
    let t6 = y0 - (a - m0);
    let t3 = m * u - l * s;
    let t4 = m0 * u - g * s;
    let t2 = (g - q) - l;
    let t1 = q * s - o * u;
    let t = y - y0 - o;
    assert(t * u == t5 * u - t6 * u + t4 - t3 + t2 * s + t1) by (nonlinear_arith)
        requires
            t5 == y - (a - m),
            t6 == y0 - (a - m0),
            t3 == m * u - l * s,
            t4 == m0 * u - g * s,
            t2 == (g - q) - l,
            t1 == q * s - o * u,
            t == y - y0 - o,
    ;
    lemma_abs_product(t, u);
    lemma_abs_product(t5, u);
    lemma_abs_product(t6, u);
    lemma_abs_product(t2, s);
    assert(err * u <= e5 * u + e6 * u + e4 + e3 + e2 * s + e1);
    let am = ieee::abs_of(a - m) as int;
    let am0 = ieee::abs_of(a - m0) as int;
    let ov = ieee::abs_of(o) as int;
    let gv = ieee::abs_of(g) as int;
    let mv = ieee::abs_of(m) as int;
    let m0v = ieee::abs_of(m0) as int;
    let x5 = e5 * u;
    let x6 = e6 * u;
    let x2 = e2 * s;
    let z = err * u;
    assert(x5 * w <= am * u) by (nonlinear_arith)
        requires
            x5 == e5 * u,
            e5 * w <= am,
            u > 0,
    ;
    assert(x6 * w <= am0 * u) by (nonlinear_arith)
        requires
            x6 == e6 * u,
            e6 * w <= am0,
            u > 0,
    ;
    assert(x2 * w <= d * s) by (nonlinear_arith)
        requires
            x2 == e2 * s,
            e2 * w <= d,
            s > 0,
    ;
    assert(z * w <= x5 * w + x6 * w + e4 * w + e3 * w + x2 * w + e1 * w) by (nonlinear_arith)
        requires
            z <= x5 + x6 + e4 + e3 + x2 + e1,
            w >= 0,
    ;
    assert(d * s <= 2 * (lv * s)) by (nonlinear_arith)
        requires
            d <= 2 * lv,
            s > 0,
    ;
    let ru = reach * u;
    assert(am * u <= 2 * ru && am0 * u <= 2 * ru && ov * u <= ru && mv * u <= ru && m0v * u <= ru)
        by (nonlinear_arith)
        requires
            am <= 2 * reach,
            am0 <= 2 * reach,
            ov <= reach,
            mv <= reach,
            m0v <= reach,
            ru == reach * u,
            u > 0,
    ;
    let uh = u * h;
    assert(u * w == 2 * uh) by (nonlinear_arith)
        requires
            w == 2 * h,
            uh == u * h,
    ;
    assert(z * w <= 13 * ru + 4 * u + u * w + s * h);
    assert(err * w * u == z * w) by (nonlinear_arith)
        requires
            z == err * u,
    ;
    assert((13 * reach + 4 + w) * u == 13 * ru + 4 * u + u * w) by (nonlinear_arith)
        requires
            ru == reach * u,
    ;
}

} // verus!
