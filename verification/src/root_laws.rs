//! How far the root cell of an octree reaches beyond the centres, and boxes beyond their
//! parts.

use crate::boxes;
use crate::boxes::Bounds;
use crate::extent_laws;
use crate::float::F64;
use crate::ieee;
use crate::model;
use crate::monotone;
use crate::nearness;
use crate::octree::Aabb;
use crate::rounding;
use crate::split_laws;
use crate::turn_laws;
use vstd::arithmetic::power2::*;
use vstd::prelude::*;

verus! {

/// A thousandth, as a double.
proof fn lemma_thousandth()
    ensures
        ({
            let m = F64 { bits: model::ROOT_MARGIN };
            let u = nearness::one64() as int;
            &&& turn_laws::within(m, u)
            &&& m.rank() > 0
            &&& turn_laws::near(1000 * m.rank(), u, u)
        }),
{
    let m = F64 { bits: model::ROOT_MARGIN };
    m.lemma_positive();
    reveal(F64::rank);
    lemma2_to64();
    lemma2_to64_rest();
    monotone::lemma_units_of(53, 1012, 0x10_624d_d2f1_a9fc);
    lemma_pow2_adds(62, 1012);
    assert(1012 * pow2(52) + 0x10_624d_d2f1_a9fc == model::ROOT_MARGIN);
    let k = pow2(1012) as int;
    lemma_pow2_pos(1012);
    assert(m.rank() == 0x10_624d_d2f1_a9fc * k);
    assert(nearness::one64() == 0x4000_0000_0000_0000 * k);
    let (v, u) = (m.rank(), nearness::one64() as int);
    assert(1000 * v - u == 96 * k) by (nonlinear_arith)
        requires
            v == 0x10_624d_d2f1_a9fc * k,
            u == 0x4000_0000_0000_0000 * k,
    ;
    assert(96 * k * 0x20_0000_0000_0000 <= 0x4000_0000_0000_0000 * k) by (nonlinear_arith)
        requires
            k > 0,
    ;
}

/// The root cell reaches beyond the centres by a thousandth of their longest side, on all
/// sides alike, up to rounding, with no coordinate over `reach`.
pub proof fn law_root_margin(b: Aabb, k: int, reach: int)
    requires
        extent_laws::upright(b),
        0 <= k < 3,
        0 <= reach <= pow2(1500),
        turn_laws::within(b.min[k], reach),
        turn_laws::within(b.max[k], reach),
        forall|j: int| 0 <= j < 3 ==> #[trigger] split_laws::side(b, j) <= 2 * reach,
    ensures
        ({
            let r = model::with_margin(b);
            let e = b.max_extent().rank();
            let slack = 9000 * reach + 0x8000_0000_0000_0000;
            &&& r.min[k].finite() && r.max[k].finite()
            &&& turn_laws::near(1000 * (r.max[k].rank() - b.max[k].rank()), e, slack)
            &&& turn_laws::near(1000 * (b.min[k].rank() - r.min[k].rank()), e, slack)
        }),
{
    extent_laws::law_max_extent(b);
    lemma_thousandth();
    let w = 0x20_0000_0000_0000int;
    let m = F64 { bits: model::ROOT_MARGIN };
    let x = b.max_extent();
    let e = x.rank();
    let i = choose|i: int| 0 <= i < 3 && e * w <= (#[trigger] split_laws::side(b, i)) * (w + 1);
    assert(split_laws::side(b, i) <= 2 * reach);
    let q = 3 * reach + 1;
    assert(e <= q);
    lemma_pow2_adds(10, 1500);
    lemma2_to64();
    lemma2_to64_rest();
    rounding::lemma_pow2_mono(1510, 2040);
    rounding::lemma_pow2_mono(1510, 2060);
    rounding::lemma_pow2_mono(60, 1500);
    turn_laws::lemma_part(x, m, q);
    let pad = x.times(m);
    let pv = pad.rank();
    let u = nearness::one64() as int;
    lemma_pow2_pos(1074);
    let mv = m.rank();
    // A thousand times the margin is the extent.
    let t = pv * u - e * mv;
    let d = 1000 * mv - u;
    turn_laws::lemma_product_size(e, d * w, e, u);
    assert(e * (d * w) == (e * d) * w) by (nonlinear_arith);
    assert(1000 * (pv * u) - e * u == 1000 * t + e * d) by (nonlinear_arith)
        requires
            t == pv * u - e * mv,
            d == 1000 * mv - u,
    ;
    let s = 1000 * pv - e;
    let bound = 1000 * (q + 0x10_0000_0000_0000) + e;
    assert(-(bound * u) <= (s * u) * w <= bound * u) by {
        assert(s * u == 1000 * (pv * u) - e * u && bound * u == 1000 * (u * (q
            + 0x10_0000_0000_0000)) + e * u) by (nonlinear_arith)
            requires
                s == 1000 * pv - e,
                bound == 1000 * (q + 0x10_0000_0000_0000) + e,
        ;
    }
    assert(-bound <= s * w <= bound) by (nonlinear_arith)
        requires
            -(bound * u) <= (s * u) * w <= bound * u,
            u > 0,
    ;
    // And it is added on both sides.
    turn_laws::lemma_sum(b.max[k], pad, reach, 2 * q + 1);
    b.max[k].law_plus_near(pad);
    nearness::lemma_minus_bounded(b.min[k], pad, reach + 2 * q + 1);
    b.min[k].law_minus_near(pad);
    let r = model::with_margin(b);
    lemma_margin_drift(e, reach, pv, b.max[k].rank(), r.max[k].rank());
    lemma_margin_drift(e, reach, pv, -b.min[k].rank(), -r.min[k].rank());
}

/// The roundings of a margin, taken together.
proof fn lemma_margin_drift(e: int, reach: int, pad: int, x: int, y: int)
    requires
        reach >= 0,
        0 <= e <= 3 * reach + 1,
        -reach <= x <= reach,
        ({
            let bound = 1000 * (3 * reach + 1 + 0x10_0000_0000_0000) + e;
            -bound <= (1000 * pad - e) * 0x20_0000_0000_0000 <= bound
        }),
        ieee::abs_of(y - (x + pad)) * 0x20_0000_0000_0000 <= ieee::abs_of(x + pad),
    ensures
        turn_laws::near(1000 * (y - x), e, 9000 * reach + 0x8000_0000_0000_0000),
{
    let w = 0x20_0000_0000_0000int;
    let d = y - (x + pad);
    assert(1000 * pad <= 2 * e + reach + 2000);
    assert(1000 * pad >= -(reach + 2000));
    assert(1000 * ieee::abs_of(x + pad) <= 1000 * reach + 2 * e + reach + 2000);
    assert((1000 * (y - x) - e) * w == 1000 * (d * w) + (1000 * pad - e) * w);
}

/// A box around two others reaches no farther than one of them does, on every side.
pub proof fn law_united_least(a: Bounds, b: Bounds, k: int)
    requires
        0 <= k < 3,
    ensures
        ({
            let r = boxes::united(a, b);
            &&& r.min[k] == a.min[k] || r.min[k] == b.min[k]
            &&& r.max[k] == a.max[k] || r.max[k] == b.max[k]
        }),
{
}

} // verus!
