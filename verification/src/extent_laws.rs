//! That extents, errors and radii are those of the largest side and of the diagonal.

use crate::boxes;
use crate::boxes::Bounds;
use crate::float::{F32, F64, TWO64};
use crate::halving;
use crate::ieee;
use crate::isotone;
use crate::nearness;
use crate::octree::{Aabb, OctreeNode};
use crate::rounding;
use crate::scenetree;
use crate::scenetree::Stand;
use crate::split_laws;
use crate::tileset;
use vstd::arithmetic::power2::*;
use vstd::prelude::*;

verus! {

/// The exact length of a side of bounds.
pub open spec fn bounds_side(b: Bounds, k: int) -> int {
    b.max[k].rank() - b.min[k].rank()
}

/// A side of bounds as it is computed.
proof fn lemma_bounds_side(b: Bounds, k: int)
    requires
        0 <= k < 3,
        b.max[k].minus(b.min[k]).finite(),
    ensures
        ({
            let e = b.max[k].minus(b.min[k]).rank();
            let d = bounds_side(b, k);
            ieee::abs_of(e - d) * 0x100_0000 <= ieee::abs_of(d)
        }),
{
    reveal(F32::rank);
    reveal(F32::spec_minus);
    let f = ieee::single();
    let z = ieee::spec_neg(f, b.min[k].bits as u64);
    isotone::lemma_neg_value(f, b.min[k].bits as u64);
    halving::lemma_sum_near(f, b.max[k].bits as u64, z);
    lemma2_to64();
}

/// The extent of bounds is that of their longest side, whichever axis it is along, up to
/// rounding: no side is longer, and one is as long.
pub proof fn law_bounds_extent(b: Bounds)
    requires
        forall|k: int|
            0 <= k < 3 ==> (#[trigger] b.max[k]).minus(b.min[k]).finite() && bounds_side(b, k) >= 0,
    ensures
        ({
            let e = boxes::extent(b).rank();
            &&& boxes::extent(b).finite()
            &&& forall|k: int|
                0 <= k < 3 ==> (#[trigger] bounds_side(b, k)) * 0xff_ffff <= e * 0x100_0000
            &&& exists|k: int|
                0 <= k < 3 && e * 0x100_0000 <= (#[trigger] bounds_side(b, k)) * 0x100_0001
        }),
{
    assert(b.max[0].minus(b.min[0]).finite() && bounds_side(b, 0) >= 0);
    assert(b.max[1].minus(b.min[1]).finite() && bounds_side(b, 1) >= 0);
    assert(b.max[2].minus(b.min[2]).finite() && bounds_side(b, 2) >= 0);
    lemma_bounds_side(b, 0);
    lemma_bounds_side(b, 1);
    lemma_bounds_side(b, 2);
    let e = boxes::extent(b).rank();
    let x = b.max[0].minus(b.min[0]).rank();
    let y = b.max[1].minus(b.min[1]).rank();
    let z = b.max[2].minus(b.min[2]).rank();
    assert(e == x || e == y || e == z);
    assert(e >= x && e >= y && e >= z);
    if e == x {
        assert(e * 0x100_0000 <= bounds_side(b, 0) * 0x100_0001);
    } else if e == y {
        assert(e * 0x100_0000 <= bounds_side(b, 1) * 0x100_0001);
    } else {
        assert(e * 0x100_0000 <= bounds_side(b, 2) * 0x100_0001);
    }
}

/// Whether the sides of a box can be measured, and none is negative.
pub open spec fn upright(b: Aabb) -> bool {
    split_laws::box_in_reach(b) && forall|k: int| 0 <= k < 3 ==> #[trigger] split_laws::side(b, k)
        >= 0
}

/// The largest extent of a box is that of its longest side, whichever axis it is along, up
/// to rounding.
pub proof fn law_max_extent(b: Aabb)
    requires
        upright(b),
    ensures
        ({
            let e = b.max_extent().rank();
            let w = 0x20_0000_0000_0000int;
            &&& b.max_extent().finite()
            &&& e >= 0
            &&& forall|k: int| 0 <= k < 3 ==> (#[trigger] split_laws::side(b, k)) * (w - 1) <= e * w
            &&& exists|k: int| 0 <= k < 3 && e * w <= (#[trigger] split_laws::side(b, k)) * (w + 1)
        }),
{
    let w = 0x20_0000_0000_0000int;
    lemma2_to64_rest();
    split_laws::lemma_side(b, 0);
    split_laws::lemma_side(b, 1);
    split_laws::lemma_side(b, 2);
    (F64 { bits: 0 }).lemma_zero();
    assert(split_laws::side(b, 0) >= 0 && split_laws::side(b, 1) >= 0 && split_laws::side(b, 2)
        >= 0);
    let e = b.max_extent().rank();
    let x = b.max[0].minus(b.min[0]).rank();
    let y = b.max[1].minus(b.min[1]).rank();
    let z = b.max[2].minus(b.min[2]).rank();
    assert(e >= x && e >= y && e >= z && e >= 0);
    assert(e == x || e == y || e == z || e == 0);
    if e == y {
        assert(e * w <= split_laws::side(b, 1) * (w + 1));
    } else if e == z {
        assert(e * w <= split_laws::side(b, 2) * (w + 1));
    } else {
        assert(e * w <= split_laws::side(b, 0) * (w + 1));
    }
}

/// The geometric error of a node that is no leaf is an eighth of the longest side of its
/// cell, up to rounding; a leaf has none.
pub proof fn law_error_is_an_eighth(node: OctreeNode)
    requires
        upright(node.bounds),
    ensures
        node.children@.len() == 0 ==> tileset::node_error(&node).rank() == 0,
        node.children@.len() > 0 ==> ({
            let e = 8 * tileset::node_error(&node).rank();
            let slack = 0x40_0000_0000_0000int;
            &&& forall|k: int|
                0 <= k < 3 ==> (#[trigger] split_laws::side(node.bounds, k)) * 0x1f_ffff_ffff_fffe
                    <= e * 0x20_0000_0000_0000 + 2 * slack
            &&& exists|k: int|
                0 <= k < 3 && e * 0x20_0000_0000_0000 <= (#[trigger] split_laws::side(
                    node.bounds,
                    k,
                )) * 0x20_0000_0000_0004 + 2 * slack
        }),
{
    (F64 { bits: 0 }).lemma_zero();
    if node.children@.len() > 0 {
        let b = node.bounds;
        law_max_extent(b);
        let m = b.max_extent();
        let eight = F64 { bits: tileset::EIGHT };
        nearness::lemma_power(1025);
        lemma_pow2_adds(3, 1074);
        lemma2_to64();
        assert(eight.finite() && eight.rank() == 8 * nearness::one64());
        lemma_pow2_pos(1074);
        let v = tileset::node_error(&node);
        assert(v == m.over(eight));
        let u = nearness::one64() as int;
        nearness::lemma_over_finite(m, eight);
        m.law_over_near(eight);
        lemma2_to64_rest();
        isotone::lemma_abs_times(m.rank(), nearness::one64());
        let x = v.rank();
        let y = m.rank();
        assert(-(y + 0x80_0000_0000_0000) <= (8 * x - y) * 0x20_0000_0000_0000 <= y
            + 0x80_0000_0000_0000) by (nonlinear_arith)
            requires
                -(y * u + 8 * u * 0x10_0000_0000_0000) <= (x * (8 * u) - y * u)
                    * 0x20_0000_0000_0000,
                (x * (8 * u) - y * u) * 0x20_0000_0000_0000 <= y * u + 8 * u
                    * 0x10_0000_0000_0000,
                u > 0,
        ;
        let k = choose|k: int|
            0 <= k < 3 && y * 0x20_0000_0000_0000 <= (#[trigger] split_laws::side(b, k))
                * 0x20_0000_0000_0001;
        assert(8 * x * 0x20_0000_0000_0000 <= split_laws::side(b, k) * 0x20_0000_0000_0004
            + 0x80_0000_0000_0000);
    }
}

/// The exact square of the diagonal of a box.
pub open spec fn diagonal_squared(b: Aabb) -> int {
    nearness::apart(b.max, b.min)
}

/// The radius of the sphere of a box is half its diagonal, over all three axes, up to
/// rounding, where that is above a centimetre; otherwise it is a centimetre.
pub proof fn law_sphere_radius(b: Aabb, s: Stand)
    requires
        split_laws::box_in_reach(b),
    ensures
        ({
            let r = scenetree::sphere(b, s)[3];
            let least = (F64 { bits: scenetree::LEAST_RADIUS }).rank();
            let four = 4 * (r.rank() * r.rank());
            let d = diagonal_squared(b);
            &&& r.finite()
            &&& r.rank() >= least
            &&& r.rank() > least ==> ieee::abs_of(four - d) * 0x1000_0000_0000 <= d
            &&& r.rank() == least ==> d * 0xfff_ffff_ffff <= four * 0x1000_0000_0000
        }),
{
    let least = F64 { bits: scenetree::LEAST_RADIUS };
    least.lemma_positive();
    lemma_least();
    let s2 = nearness::offsets_squared(b.max, b.min);
    nearness::lemma_apart_finite(b.max, b.min);
    nearness::lemma_apart_near(b.max, b.min);
    let (x, y, z) = (
        b.max[0].minus(b.min[0]),
        b.max[1].minus(b.min[1]),
        b.max[2].minus(b.min[2]),
    );
    nearness::law_squares_near(x, y, z);
    nearness::lemma_difference_bounded(b.max[0], b.min[0]);
    nearness::lemma_difference_bounded(b.max[1], b.min[1]);
    nearness::lemma_difference_bounded(b.max[2], b.min[2]);
    nearness::law_squares_finite(x, y, z);
    let u = nearness::one64() as int;
    lemma_pow2_pos(1074);
    lemma2_to64();
    lemma2_to64_rest();
    let d = diagonal_squared(b);
    let t = s2.rank();
    let l0 = least.rank();
    let two = F64 { bits: TWO64 };
    nearness::lemma_power(1023);
    lemma_pow2_unfold(1075);
    assert(two.rank() == 2 * u);
    assert(scenetree::radius(b) == s2.root().over(two));
    assert(scenetree::sphere(b, s)[3] == scenetree::radius(b).max(least));
    if t == 0 {
        nearness::lemma_root_of_zero(s2);
        let q = s2.root();
        nearness::lemma_over_finite(q, two);
        nearness::lemma_zero_over(q, two);
        assert(0 * u == 0);
        assert(d * 0x1_0000_0000_0000 <= d + u * 0x2_0000_0000_0000);
        assert(d * 0xfff_ffff_ffff <= 4 * (l0 * l0) * 0x1000_0000_0000);
    } else {
        rounding::lemma_pow2_mono(2096, 2097);
        s2.law_root_near();
        let q = s2.root();
        let l = q.rank();
        nearness::lemma_over_finite(q, two);
        q.law_over_near(two);
        isotone::lemma_abs_times(l, nearness::one64());
        let r = q.over(two).rank();
        assert(-(l + 0x20_0000_0000_0000) <= (2 * r - l) * 0x20_0000_0000_0000 <= l
            + 0x20_0000_0000_0000) by (nonlinear_arith)
            requires
                -(l * u + 2 * u * 0x10_0000_0000_0000) <= (r * (2 * u) - l * u)
                    * 0x20_0000_0000_0000,
                (r * (2 * u) - l * u) * 0x20_0000_0000_0000 <= l * u + 2 * u
                    * 0x10_0000_0000_0000,
                u > 0,
        ;
        nearness::lemma_squares_sign(
            b.max[0].rank() - b.min[0].rank(),
            b.max[1].rank() - b.min[1].rank(),
            b.max[2].rank() - b.min[2].rank(),
        );
        lemma_radius_drift(u, t, l, r, d, l0);
    }
}

/// A centimetre is far above what is lost to rounding.
proof fn lemma_least()
    ensures
        ({
            let l = (F64 { bits: scenetree::LEAST_RADIUS }).rank();
            &&& l >= 0x1000_0000_0000_0000
            &&& l * l >= nearness::one64() * 0x1000_0000_0000_0000
        }),
{
    let x = F64 { bits: scenetree::LEAST_RADIUS };
    x.lemma_positive();
    nearness::lemma_power(1015);
    reveal(F64::rank);
    let low = F64 { bits: (1016 * 0x10_0000_0000_0000) as u64 };
    assert(low.rank() == pow2(1067));
    crate::monotone::lemma_units_ordered(53, low.bits as nat, x.bits as nat);
    let s = x.rank();
    let b = pow2(1067) as int;
    lemma_pow2_adds(1067, 1067);
    lemma_pow2_adds(1074, 60);
    rounding::lemma_pow2_mono(1134, 2134);
    rounding::lemma_pow2_mono(60, 1067);
    lemma2_to64_rest();
    assert(s * s >= b * b) by (nonlinear_arith)
        requires
            s >= b,
            b >= 0,
    ;
}

/// The roundings of a radius, taken together.
proof fn lemma_radius_drift(u: int, t: int, l: int, r: int, d: int, least: int)
    requires
        u > 0,
        t > 0,
        l > 0,
        d >= 0,
        least >= 0x1000_0000_0000_0000,
        least * least >= u * 0x1000_0000_0000_0000,
        ieee::abs_of(t * u - d) * 0x1_0000_0000_0000 <= d + u * 0x2_0000_0000_0000,
        ieee::abs_of(l * l - t * u) * 0x8_0000_0000_0000 <= l * l,
        -(l + 0x20_0000_0000_0000) <= (2 * r - l) * 0x20_0000_0000_0000 <= l
            + 0x20_0000_0000_0000,
    ensures
        r > least ==> ieee::abs_of(4 * (r * r) - d) * 0x1000_0000_0000 <= d,
        r <= least ==> d * 0xfff_ffff_ffff <= 4 * (least * least) * 0x1000_0000_0000,
{
    let w = 0x20_0000_0000_0000int;
    let ll = l * l;
    let rr = 4 * (r * r);
    let e = 2 * r - l;
    assert(rr - ll == e * (2 * l + e)) by (nonlinear_arith)
        requires
            rr == 4 * (r * r),
            ll == l * l,
            e == 2 * r - l,
    ;
    let tu = t * u;
    if r > least {
        // The root is large, so that one of the smallest numbers does not matter.
        assert(l >= least);
        assert(-l <= e * 0x8_0000_0000_0000 <= l);
        let g = e * (2 * l + e);
        assert(-(3 * ll) <= g * 0x8_0000_0000_0000 <= 3 * ll) by (nonlinear_arith)
            requires
                g == e * (2 * l + e),
                ll == l * l,
                -l <= e * 0x8_0000_0000_0000 <= l,
                l > 0,
        ;
        assert(ll >= least * least) by (nonlinear_arith)
            requires
                ll == l * l,
                l >= least,
                least >= 0,
        ;
    } else {
        assert(l <= 2 * least + 2 + l / 0x8_0000_0000_0000);
        assert(l * 0x7_ffff_ffff_ffff <= (2 * least + 2) * 0x8_0000_0000_0000);
        assert(l * 0xffff_ffff_ffff <= 2 * least * 0x1_0000_0000_0000);
        let m = 2 * least;
        assert(ll * 0xffff_ffff_ffff * 0xffff_ffff_ffff <= m * m * 0x1_0000_0000_0000
            * 0x1_0000_0000_0000) by (nonlinear_arith)
            requires
                ll == l * l,
                l * 0xffff_ffff_ffff <= m * 0x1_0000_0000_0000,
                l > 0,
        ;
        assert(m * m == 4 * (least * least)) by (nonlinear_arith)
            requires
                m == 2 * least,
        ;
    }
}

} // verus!
