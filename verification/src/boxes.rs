//! Bounding boxes of tiles.
//!
//! A model stands in coordinates of which the second points up; a tileset's third
//! one does. A bounding volume is given in the tileset's coordinates.

use crate::float::{F32, HALF32, INF32, NEG_INF32, ONE32};
use crate::octree::Aabb;
use vstd::prelude::*;

verus! {

/// A box by its two corners.
#[derive(Clone, Copy, Debug)]
pub struct Bounds {
    pub min: [F32; 3],
    pub max: [F32; 3],
}

/// Half the sum of the two bounds along axis `k`.
pub open spec fn center(b: Bounds, k: int) -> F32 {
    b.min[k].plus(b.max[k]).times(F32 { bits: HALF32 })
}

/// Half the extent along axis `k`.
pub open spec fn half(b: Bounds, k: int) -> F32 {
    b.max[k].minus(b.min[k]).times(F32 { bits: HALF32 })
}

/// The twelve numbers of a bounding volume: the midpoint, then the three half axes.
/// What points up in the model is the third axis, and what points to the front the
/// second one, backwards.
pub open spec fn box12(b: Bounds) -> Seq<F32> {
    let zero = F32 { bits: 0 };
    seq![
        center(b, 0),
        center(b, 2).negate(),
        center(b, 1),
        half(b, 0),
        zero,
        zero,
        zero,
        half(b, 2),
        zero,
        zero,
        zero,
        half(b, 1),
    ]
}

/// The width of the margin along axis `k`: half of the half extent, and one metre.
pub open spec fn margin(b: Bounds, k: int) -> F32 {
    half(b, k).times(F32 { bits: HALF32 }).plus(F32 { bits: ONE32 })
}

/// The box with a margin on all sides.
pub open spec fn widened(b: Bounds) -> Bounds {
    Bounds {
        min: [
            b.min[0].minus(margin(b, 0)),
            b.min[1].minus(margin(b, 1)),
            b.min[2].minus(margin(b, 2)),
        ],
        max: [
            b.max[0].plus(margin(b, 0)),
            b.max[1].plus(margin(b, 1)),
            b.max[2].plus(margin(b, 2)),
        ],
    }
}

/// The bounding volume of a box.
pub fn aabb_minmax_to_box12(b: Bounds) -> (r: Vec<F32>)
    ensures
        r@ == box12(b),
{
    let h = F32 { bits: HALF32 };
    let cx: F32 = b.min[0].plus(b.max[0]).times(h);
    let cy: F32 = b.min[1].plus(b.max[1]).times(h);
    let cz: F32 = b.min[2].plus(b.max[2]).times(h);
    let hx: F32 = b.max[0].minus(b.min[0]).times(h);
    let hy: F32 = b.max[1].minus(b.min[1]).times(h);
    let hz: F32 = b.max[2].minus(b.min[2]).times(h);
    let zero = F32 { bits: 0 };
    let mut r: Vec<F32> = Vec::new();
    r.push(cx);
    r.push(cz.negate());
    r.push(cy);
    r.push(hx);
    r.push(zero);
    r.push(zero);
    r.push(zero);
    r.push(hz);
    r.push(zero);
    r.push(zero);
    r.push(zero);
    r.push(hy);
    proof {
        assert(r@ =~= box12(b));
    }
    r
}

/// The box with a margin on all sides.
pub fn widen_bounds(b: Bounds) -> (r: Bounds)
    ensures
        r == widened(b),
{
    let h = F32 { bits: HALF32 };
    let one = F32 { bits: ONE32 };
    let px: F32 = b.max[0].minus(b.min[0]).times(h).times(h).plus(one);
    let py: F32 = b.max[1].minus(b.min[1]).times(h).times(h).plus(one);
    let pz: F32 = b.max[2].minus(b.min[2]).times(h).times(h).plus(one);
    let r = Bounds {
        min: [b.min[0].minus(px), b.min[1].minus(py), b.min[2].minus(pz)],
        max: [b.max[0].plus(px), b.max[1].plus(py), b.max[2].plus(pz)],
    };
    proof {
        assert(r.min =~= widened(b).min);
        assert(r.max =~= widened(b).max);
    }
    r
}

/// The bounding volume of a box with a margin, so that neighbouring tiles overlap.
pub fn aabb_minmax_to_box12_padded(b: Bounds) -> (r: Vec<F32>)
    ensures
        r@ == box12(widened(b)),
{
    aabb_minmax_to_box12(widen_bounds(b))
}

/// The cell of an octree node in 32 bits.
pub open spec fn cell_bounds(a: Aabb) -> Bounds {
    Bounds {
        min: [a.min[0].narrow(), a.min[1].narrow(), a.min[2].narrow()],
        max: [a.max[0].narrow(), a.max[1].narrow(), a.max[2].narrow()],
    }
}

/// The cell of an octree node in 32 bits.
pub fn narrow_cell(a: &Aabb) -> (r: Bounds)
    ensures
        r == cell_bounds(*a),
{
    let r = Bounds {
        min: [a.min[0].narrow(), a.min[1].narrow(), a.min[2].narrow()],
        max: [a.max[0].narrow(), a.max[1].narrow(), a.max[2].narrow()],
    };
    proof {
        assert(r.min =~= cell_bounds(*a).min);
        assert(r.max =~= cell_bounds(*a).max);
    }
    r
}

/// The bounding volume of the cell of an octree node.
pub fn aabb_to_box12(a: &Aabb) -> (r: Vec<F32>)
    ensures
        r@ == box12(cell_bounds(*a)),
{
    aabb_minmax_to_box12(narrow_cell(a))
}

/// The smaller of two bounds, the first where they do not compare.
pub open spec fn lower(a: F32, b: F32) -> F32 {
    if b.lt(a) {
        b
    } else {
        a
    }
}

/// The larger of two bounds, the first where they do not compare.
pub open spec fn upper(a: F32, b: F32) -> F32 {
    if a.lt(b) {
        b
    } else {
        a
    }
}

/// The box `a`, grown to hold `b`.
pub open spec fn united(a: Bounds, b: Bounds) -> Bounds {
    Bounds {
        min: [
            lower(a.min[0], b.min[0]),
            lower(a.min[1], b.min[1]),
            lower(a.min[2], b.min[2]),
        ],
        max: [
            upper(a.max[0], b.max[0]),
            upper(a.max[1], b.max[1]),
            upper(a.max[2], b.max[2]),
        ],
    }
}

fn lower_of(a: F32, b: F32) -> (r: F32)
    ensures
        r == lower(a, b),
{
    if b.lt(a) {
        b
    } else {
        a
    }
}

fn upper_of(a: F32, b: F32) -> (r: F32)
    ensures
        r == upper(a, b),
{
    if a.lt(b) {
        b
    } else {
        a
    }
}

/// The box `a`, grown to hold `b`.
pub fn unite(a: &Bounds, b: &Bounds) -> (r: Bounds)
    ensures
        r == united(*a, *b),
{
    let r = Bounds {
        min: [
            lower_of(a.min[0], b.min[0]),
            lower_of(a.min[1], b.min[1]),
            lower_of(a.min[2], b.min[2]),
        ],
        max: [
            upper_of(a.max[0], b.max[0]),
            upper_of(a.max[1], b.max[1]),
            upper_of(a.max[2], b.max[2]),
        ],
    };
    proof {
        assert(r.min =~= united(*a, *b).min);
        assert(r.max =~= united(*a, *b).max);
    }
    r
}

/// The box that holds nothing.
pub open spec fn spec_nothing() -> Bounds {
    let lo = F32 { bits: INF32 };
    let hi = F32 { bits: NEG_INF32 };
    Bounds { min: [lo, lo, lo], max: [hi, hi, hi] }
}

/// The box that holds nothing.
#[verifier::when_used_as_spec(spec_nothing)]
pub fn nothing() -> (r: Bounds)
    ensures
        r == spec_nothing(),
{
    let lo = F32 { bits: INF32 };
    let hi = F32 { bits: NEG_INF32 };
    let r = Bounds { min: [lo, lo, lo], max: [hi, hi, hi] };
    proof {
        assert(r.min =~= spec_nothing().min);
        assert(r.max =~= spec_nothing().max);
    }
    r
}

/// The largest of the three extents.
pub open spec fn spec_extent(b: Bounds) -> F32 {
    b.max[0].minus(b.min[0]).max(b.max[1].minus(b.min[1])).max(b.max[2].minus(b.min[2]))
}

/// The largest of the three extents.
#[verifier::when_used_as_spec(spec_extent)]
pub fn extent(b: Bounds) -> (r: F32)
    ensures
        r == spec_extent(b),
{
    b.max[0].minus(b.min[0]).max(b.max[1].minus(b.min[1])).max(b.max[2].minus(b.min[2]))
}

/// Whether all bounds are numbers.
pub open spec fn numbers(b: Bounds) -> bool {
    !b.min[0].nan() && !b.min[1].nan() && !b.min[2].nan() && !b.max[0].nan() && !b.max[1].nan()
        && !b.max[2].nan()
}

/// Whether `outer` reaches at least as far as `inner` on all sides.
pub open spec fn covers(outer: Bounds, inner: Bounds) -> bool {
    forall|k: int|
        #![trigger outer.min[k]]
        #![trigger inner.min[k]]
        0 <= k < 3 ==> outer.min[k].le(inner.min[k]) && inner.max[k].le(outer.max[k])
}

/// A united box reaches at least as far as both of its parts.
pub proof fn law_united_covers(a: Bounds, b: Bounds)
    requires
        numbers(a),
        numbers(b),
    ensures
        numbers(united(a, b)),
        covers(united(a, b), a),
        covers(united(a, b), b),
{
    let u = united(a, b);
    assert(u.min[0] == lower(a.min[0], b.min[0]));
    assert(u.min[1] == lower(a.min[1], b.min[1]));
    assert(u.min[2] == lower(a.min[2], b.min[2]));
    assert(u.max[0] == upper(a.max[0], b.max[0]));
    assert(u.max[1] == upper(a.max[1], b.max[1]));
    assert(u.max[2] == upper(a.max[2], b.max[2]));
}

/// Covering carries over from box to box.
pub proof fn law_covers_transitive(a: Bounds, b: Bounds, c: Bounds)
    requires
        covers(a, b),
        covers(b, c),
    ensures
        covers(a, c),
{
    assert forall|k: int|
        #![trigger a.min[k]]
        #![trigger c.min[k]]
        0 <= k < 3 implies a.min[k].le(c.min[k]) && c.max[k].le(a.max[k]) by {
        assert(a.min[k].le(b.min[k]));
        assert(b.min[k].le(c.min[k]));
    }
}

/// A box with its margin reaches at least as far as the box on all sides.
pub proof fn law_widened_covers(b: Bounds)
    requires
        forall|k: int|
            0 <= k < 3 ==> (#[trigger] b.min[k]).finite() && b.max[k].finite() && b.min[k].le(
                b.max[k],
            ),
    ensures
        covers(widened(b), b),
{
    assert forall|k: int| 0 <= k < 3 implies b.min[k].minus(margin(b, k)).le(#[trigger] b.min[k])
        && b.max[k].le(b.max[k].plus(margin(b, k))) by {
        let h = F32 { bits: HALF32 };
        let one = F32 { bits: ONE32 };
        let side = b.max[k].minus(b.min[k]);
        h.lemma_positive();
        one.lemma_positive();
        b.max[k].law_minus_sign(b.min[k]);
        side.law_times_sign(h);
        half(b, k).law_times_sign(h);
        half(b, k).times(h).law_plus_raises(one);
        b.min[k].law_minus_lowers(margin(b, k));
        b.max[k].law_plus_raises(margin(b, k));
    }
    let w = widened(b);
    assert forall|k: int|
        #![trigger w.min[k]]
        #![trigger b.min[k]]
        0 <= k < 3 implies w.min[k].le(b.min[k]) && b.max[k].le(w.max[k]) by {
        assert(b.min[k].minus(margin(b, k)).le(b.min[k]));
    }
}

} // verus!
