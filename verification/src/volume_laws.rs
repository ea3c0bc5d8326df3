//! What holds of the bounding volumes and the geometric errors that a tileset is written
//! with.

use crate::boxes;
use crate::boxes::Bounds;
use crate::float::{F32, F64, HALF32, ONE32};
use crate::halving;
use crate::ieee;
use crate::isotone;
use crate::monotone;
use crate::octree::{Aabb, OctreeBuilder, OctreeNode};
use crate::tileset;
use crate::tileset::NodeTiles;
use vstd::prelude::*;

verus! {

/// Whether a box has finite bounds, none above its opposite.
pub open spec fn sane(b: Bounds) -> bool {
    forall|k: int|
        #![trigger b.min[k]]
        #![trigger b.max[k]]
        0 <= k < 3 ==> b.min[k].finite() && b.max[k].finite() && b.min[k].le(b.max[k])
}

/// The margin of a box is no smaller than that of a box within it.
proof fn lemma_margins(outer: Bounds, inner: Bounds, k: int)
    requires
        sane(outer),
        sane(inner),
        boxes::covers(outer, inner),
        0 <= k < 3,
    ensures
        boxes::margin(inner, k).le(boxes::margin(outer, k)),
{
    let h = F32 { bits: HALF32 };
    let one = F32 { bits: ONE32 };
    h.lemma_positive();
    one.lemma_positive();
    assert(outer.min[k].le(inner.min[k]) && inner.max[k].le(outer.max[k]));
    inner.max[k].law_minus_isotone(inner.min[k], outer.max[k], outer.min[k]);
    inner.max[k].minus(inner.min[k]).law_times_isotone(outer.max[k].minus(outer.min[k]), h);
    boxes::half(inner, k).law_times_isotone(boxes::half(outer, k), h);
    one.law_plus_isotone(
        boxes::half(inner, k).times(h),
        one,
        boxes::half(outer, k).times(h),
    );
    lemma_plus_commutes(boxes::half(inner, k).times(h), one);
    lemma_plus_commutes(boxes::half(outer, k).times(h), one);
}

/// Sums do not depend on the order of what is added.
proof fn lemma_plus_commutes(x: F32, y: F32)
    requires
        y.finite(),
    ensures
        x.plus(y) == y.plus(x),
{
    reveal(F32::spec_plus);
}

/// With their margins, too, a box that reaches at least as far as another does so.
pub proof fn law_margins_nest(outer: Bounds, inner: Bounds)
    requires
        sane(outer),
        sane(inner),
        boxes::covers(outer, inner),
    ensures
        boxes::covers(boxes::widened(outer), boxes::widened(inner)),
{
    let o = boxes::widened(outer);
    let i = boxes::widened(inner);
    assert forall|k: int|
        #![trigger o.min[k]]
        #![trigger i.min[k]]
        0 <= k < 3 implies o.min[k].le(i.min[k]) && i.max[k].le(o.max[k]) by {
        lemma_margins(outer, inner, k);
        assert(outer.min[k].le(inner.min[k]) && inner.max[k].le(outer.max[k]));
        outer.min[k].law_minus_isotone(
            boxes::margin(outer, k),
            inner.min[k],
            boxes::margin(inner, k),
        );
        inner.max[k].law_plus_isotone(
            boxes::margin(inner, k),
            outer.max[k],
            boxes::margin(outer, k),
        );
    }
}

/// How far the twelve numbers of a bounding volume reach down along axis `a`, in units of
/// the smallest positive number: the midpoint without the half axis.
pub open spec fn low_end(volume: Seq<F32>, a: int) -> int {
    volume[a].rank() - volume[3 + 4 * a].rank()
}

/// How far the twelve numbers of a bounding volume reach up along axis `a`.
pub open spec fn high_end(volume: Seq<F32>, a: int) -> int {
    volume[a].rank() + volume[3 + 4 * a].rank()
}

/// The bounds of a box along axis `a` of a bounding volume: what points up in the model is
/// the third axis, and what points to the front the second one, backwards.
pub open spec fn turned_ends(b: Bounds, a: int) -> (int, int) {
    if a == 0 {
        (b.min[0].rank(), b.max[0].rank())
    } else if a == 1 {
        (-b.max[2].rank(), -b.min[2].rank())
    } else {
        (b.min[1].rank(), b.max[1].rank())
    }
}

/// What the ends of a bounding volume may be off by for rounding, in `2^24`ths of a unit:
/// the larger bound, that is one part in `2^24` of it, and one unit.
pub open spec fn rounding_of(b: Bounds, a: int) -> nat {
    let ends = turned_ends(b, a);
    halving::size(ends.0, ends.1) + 0x100_0000
}

/// Whether the twelve numbers of the bounding volume of `b` are finite.
pub open spec fn writable(b: Bounds) -> bool {
    forall|n: int| 0 <= n < 12 ==> (#[trigger] boxes::box12(b)[n]).finite()
}

/// The bounding volume of a box has the ends of the box, up to rounding.
pub proof fn law_volume_ends(b: Bounds, a: int)
    requires
        writable(b),
        0 <= a < 3,
    ensures
        ieee::abs_of(low_end(boxes::box12(b), a) - turned_ends(b, a).0) * 0x100_0000
            <= rounding_of(b, a),
        ieee::abs_of(high_end(boxes::box12(b), a) - turned_ends(b, a).1) * 0x100_0000
            <= rounding_of(b, a),
{
    let v = boxes::box12(b);
    let k: int = if a == 0 {
        0
    } else if a == 1 {
        2
    } else {
        1
    };
    assert(v[a].finite() && v[3 + 4 * a].finite());
    let c = boxes::center(b, k);
    let r = boxes::half(b, k);
    assert(v[3 + 4 * a] == r);
    assert(v[a] == if a == 1 {
        c.negate()
    } else {
        c
    });
    lemma_negate(c);
    lemma_ends_finite(b.min[k], b.max[k]);
    halving::law_half_extents(b.min[k], b.max[k]);
}

proof fn lemma_negate(x: F32)
    ensures
        x.negate().rank() == -x.rank(),
        x.negate().finite() == x.finite(),
{
    reveal(F32::rank);
    reveal(F32::spec_negate);
}

/// Only finite numbers have a finite midpoint.
proof fn lemma_ends_finite(lo: F32, hi: F32)
    requires
        lo.plus(hi).times(F32 { bits: HALF32 }).finite(),
    ensures
        lo.finite(),
        hi.finite(),
{
    reveal(F32::spec_plus);
    reveal(F32::spec_times);
}

/// The bounding volume of a box, written with its margin, reaches at least as far on all
/// sides as that of a box within it, and as that box itself, up to rounding.
pub proof fn law_volumes_nest(outer: Bounds, inner: Bounds, a: int)
    requires
        sane(outer),
        sane(inner),
        boxes::covers(outer, inner),
        writable(boxes::widened(outer)),
        writable(boxes::widened(inner)),
        0 <= a < 3,
    ensures
        ({
            let o = boxes::box12(boxes::widened(outer));
            let i = boxes::box12(boxes::widened(inner));
            let off = rounding_of(boxes::widened(outer), a);
            &&& (low_end(o, a) - low_end(i, a)) * 0x100_0000 <= 2 * off
            &&& (high_end(i, a) - high_end(o, a)) * 0x100_0000 <= 2 * off
            &&& (low_end(o, a) - turned_ends(inner, a).0) * 0x100_0000 <= off
            &&& (turned_ends(inner, a).1 - high_end(o, a)) * 0x100_0000 <= off
        }),
{
    let o = boxes::widened(outer);
    let i = boxes::widened(inner);
    law_margins_nest(outer, inner);
    boxes::law_widened_covers(inner);
    law_volume_ends(o, a);
    law_volume_ends(i, a);
    assert(o.min[0].le(i.min[0]) && i.max[0].le(o.max[0]));
    assert(o.min[1].le(i.min[1]) && i.max[1].le(o.max[1]));
    assert(o.min[2].le(i.min[2]) && i.max[2].le(o.max[2]));
    assert(i.min[0].le(inner.min[0]) && inner.max[0].le(i.max[0]));
    assert(i.min[1].le(inner.min[1]) && inner.max[1].le(i.max[1]));
    assert(i.min[2].le(inner.min[2]) && inner.max[2].le(i.max[2]));
}

/// Whether the bounds of all given tiles are sane.
pub open spec fn sane_tiles(tiles: NodeTiles) -> bool {
    forall|n: int|
        0 <= n < tiles.bounds@.len() && (#[trigger] tiles.bounds@[n]) is Some ==> sane(
            tiles.bounds@[n]->0,
        )
}

proof fn lemma_united_sane(a: Bounds, b: Bounds)
    requires
        sane(a) || a == boxes::nothing(),
        sane(b),
    ensures
        sane(boxes::united(a, b)),
{
    let u = boxes::united(a, b);
    assert forall|k: int|
        #![trigger u.min[k]]
        #![trigger u.max[k]]
        0 <= k < 3 implies u.min[k].finite() && u.max[k].finite() && u.min[k].le(u.max[k]) by {
        assert(u.min[k] == boxes::lower(a.min[k], b.min[k]));
        assert(u.max[k] == boxes::upper(a.max[k], b.max[k]));
        assert(b.min[k].le(b.max[k]));
        b.min[k].lemma_between_infinities();
        b.max[k].lemma_between_infinities();
        if sane(a) {
            assert(a.min[k].le(a.max[k]));
        } else {
            assert(a.min[k] == boxes::nothing().min[k]);
            assert(a.max[k] == boxes::nothing().max[k]);
        }
    }
}

proof fn lemma_sane_numbers(tiles: NodeTiles)
    requires
        sane_tiles(tiles),
    ensures
        tileset::tile_numbers(tiles),
{
    assert forall|n: int|
        0 <= n < tiles.bounds@.len() && (#[trigger] tiles.bounds@[n]) is Some implies boxes::numbers(
        tiles.bounds@[n]->0,
    ) by {
        let b = tiles.bounds@[n]->0;
        assert(b.min[0].finite() && b.min[1].finite() && b.min[2].finite());
    }
}

proof fn lemma_branch_sane(node: &OctreeNode, number: int, tiles: NodeTiles, reach: Bounds)
    requires
        number >= 0,
        sane_tiles(tiles),
    ensures
        tileset::branch(node, number, tiles, reach).entry matches Some(e) ==> sane(e.1),
    decreases node, node.children@.len() + 1,
{
    let n = node.children@.len();
    lemma_branches_sane(node, number, tiles, reach, n);
    let below = tileset::branches(node, number, tiles, reach, n);
    let own = tiles.bounds_of(number);
    if own is Some {
        assert(tiles.bounds@[number] is Some);
        if below.entries.len() > 0 {
            lemma_united_sane(own->0, below.bounds);
        }
    }
}

proof fn lemma_branches_sane(
    node: &OctreeNode,
    number: int,
    tiles: NodeTiles,
    reach: Bounds,
    n: nat,
)
    requires
        number >= 0,
        sane_tiles(tiles),
        n <= node.children@.len(),
    ensures
        ({
            let b = tileset::branches(node, number, tiles, reach, n);
            if b.entries.len() == 0 {
                b.bounds == boxes::nothing()
            } else {
                sane(b.bounds)
            }
        }),
    decreases node, n,
{
    if n > 0 {
        let before = tileset::branches(node, number, tiles, reach, (n - 1) as nat);
        lemma_branches_sane(node, number, tiles, reach, (n - 1) as nat);
        let at = number + 1 + node.nodes_below((n - 1) as nat).len();
        lemma_branch_sane(&*node.children@[n - 1], at, tiles, before.reach);
        let next = tileset::branch(&*node.children@[n - 1], at, tiles, before.reach);
        if next.entry is Some {
            lemma_united_sane(before.bounds, (next.entry->0).1);
        }
    }
}

/// The bounding volumes that a tileset of levels of detail is written with nest: that of
/// a node reaches at least as far as that of each of its children, and as the bounds of
/// the children's tiles and of its own, up to rounding.
pub proof fn law_written_volumes_nest(
    node: &OctreeNode,
    number: int,
    tiles: NodeTiles,
    reach: Bounds,
    i: nat,
    a: int,
)
    requires
        number >= 0,
        sane_tiles(tiles),
        i < node.children@.len(),
        tileset::child_branch(node, number, tiles, reach, i).entry is Some,
        tileset::branch(node, number, tiles, reach).entry matches Some(e) ==> writable(
            boxes::widened(e.1),
        ),
        tileset::child_branch(node, number, tiles, reach, i).entry matches Some(e) ==> writable(
            boxes::widened(e.1),
        ),
        0 <= a < 3,
    ensures
        tileset::branch(node, number, tiles, reach).entry is Some,
        ({
            let outer = (tileset::branch(node, number, tiles, reach).entry->0).1;
            let inner = (tileset::child_branch(node, number, tiles, reach, i).entry->0).1;
            let o = boxes::box12(boxes::widened(outer));
            let c = boxes::box12(boxes::widened(inner));
            let off = rounding_of(boxes::widened(outer), a);
            &&& (low_end(o, a) - low_end(c, a)) * 0x100_0000 <= 2 * off
            &&& (high_end(c, a) - high_end(o, a)) * 0x100_0000 <= 2 * off
            &&& (low_end(o, a) - turned_ends(inner, a).0) * 0x100_0000 <= off
            &&& (turned_ends(inner, a).1 - high_end(o, a)) * 0x100_0000 <= off
            &&& tiles.bounds_of(number) matches Some(own) ==> {
                &&& (low_end(o, a) - turned_ends(own, a).0) * 0x100_0000 <= off
                &&& (turned_ends(own, a).1 - high_end(o, a)) * 0x100_0000 <= off
            }
        }),
{
    lemma_sane_numbers(tiles);
    tileset::law_parent_covers_child(node, number, tiles, reach, i);
    lemma_branch_sane(node, number, tiles, reach);
    lemma_branch_sane(
        &*node.children@[i as int],
        number + 1 + node.nodes_below(i).len(),
        tiles,
        tileset::branches(node, number, tiles, reach, i).reach,
    );
    let outer = (tileset::branch(node, number, tiles, reach).entry->0).1;
    let inner = (tileset::child_branch(node, number, tiles, reach, i).entry->0).1;
    law_volumes_nest(outer, inner, a);
    if tiles.bounds_of(number) is Some {
        let own = tiles.bounds_of(number)->0;
        assert(tiles.bounds@[number] is Some);
        let w = boxes::widened(outer);
        boxes::law_widened_covers(outer);
        boxes::law_covers_transitive(w, outer, own);
        law_volume_ends(w, a);
        assert(w.min[0].le(own.min[0]) && own.max[0].le(w.max[0]));
        assert(w.min[1].le(own.min[1]) && own.max[1].le(w.max[1]));
        assert(w.min[2].le(own.min[2]) && own.max[2].le(w.max[2]));
    }
}

/// Whether a cell has finite bounds, none above its opposite, and finite midpoints.
pub open spec fn splits_finitely(b: Aabb) -> bool {
    forall|k: int|
        #![trigger b.min[k]]
        #![trigger b.max[k]]
        #![trigger b.middle(k)]
        0 <= k < 3 ==> b.min[k].finite() && b.max[k].finite() && b.min[k].le(b.max[k]) && b.middle(
            k,
        ).finite()
}

/// No side of an octant is longer than that of its cell.
proof fn lemma_octant_side(b: Aabb, i: int, k: int)
    requires
        splits_finitely(b),
        0 <= i < 8,
        0 <= k < 3,
    ensures
        b.octant(i).max[k].minus(b.octant(i).min[k]).le(b.max[k].minus(b.min[k])),
{
    let m = b.middle(k);
    assert(m.finite());
    b.min[k].law_middle_between(b.max[k]);
    assert(m.le(m));
    assert(b.min[k].le(b.min[k]) && b.max[k].le(b.max[k]));
    if Aabb::upper(i, k) {
        assert(b.octant(i).min[k] == m && b.octant(i).max[k] == b.max[k]);
        b.max[k].law_minus_isotone(m, b.max[k], b.min[k]);
    } else {
        assert(b.octant(i).min[k] == b.min[k] && b.octant(i).max[k] == m);
        m.law_minus_isotone(b.min[k], b.max[k], b.min[k]);
    }
}

/// No octant is larger than its cell.
proof fn lemma_octant_extent(b: Aabb, i: int)
    requires
        splits_finitely(b),
        0 <= i < 8,
    ensures
        (F64 { bits: 0 }).le(b.octant(i).max_extent()),
        b.octant(i).max_extent().le(b.max_extent()),
{
    lemma_octant_side(b, i, 0);
    lemma_octant_side(b, i, 1);
    lemma_octant_side(b, i, 2);
    (F64 { bits: 0 }).lemma_zero();
}

/// The geometric error never grows from a node to its child, where the midpoints of the
/// node's cell are finite: no cell of an octree is larger than the one that it is cut out
/// of.
pub proof fn law_error_never_grows(
    builder: OctreeBuilder,
    node: OctreeNode,
    bounds: Aabb,
    ids: Seq<usize>,
    centers: Seq<[F64; 3]>,
    tris: Seq<u64>,
    depth: nat,
    i: int,
)
    requires
        builder.built(node, bounds, ids, centers, tris, depth),
        splits_finitely(bounds),
        0 <= i < node.children@.len(),
    ensures
        tileset::node_error(&*node.children@[i]).le(tileset::node_error(&node)),
{
    let child = *node.children@[i];
    let zero = F64 { bits: 0 };
    let eight = F64 { bits: tileset::EIGHT };
    eight.lemma_positive();
    zero.lemma_zero();
    lemma_octant_extent(bounds, i);
    assert(builder.built(
        child,
        bounds.octant(i),
        bounds.octant_ids(centers, ids, i),
        centers,
        tris,
        depth + 1,
    ));
    child.bounds.max_extent().law_over_isotone(bounds.max_extent(), eight);
    zero.law_over_isotone(bounds.max_extent(), eight);
    lemma_nothing_over(eight);
}

/// Nothing, divided, is nothing.
proof fn lemma_nothing_over(by: F64)
    requires
        by.finite(),
        by.rank() > 0,
    ensures
        (F64 { bits: 0 }).over(by).rank() == 0,
{
    reveal(F64::rank);
    reveal(F64::spec_over);
    let f = ieee::double();
    (F64 { bits: 0 }).lemma_zero();
    isotone::lemma_over_value(f, 0, by.bits);
    monotone::lemma_round_zero(f.precision as nat, f.inf as nat, f.units(by.bits));
    monotone::lemma_units_zero(f.precision as nat);
    assert(0 * vstd::arithmetic::power2::pow2(f.unit as nat) == 0) by (nonlinear_arith);
}

} // verus!
