//! When a cell of an octree is split, and where what lies outside goes.

use crate::float::F64;
use crate::nearness;
use crate::octree;
use crate::octree::{Aabb, OctreeBuilder, OctreeNode};
use crate::octree_laws;
use vstd::arithmetic::power2::*;
use vstd::prelude::*;

verus! {

/// The weight of a mesh: its triangles.
pub open spec fn weight(tris: Seq<u64>) -> spec_fn(usize) -> nat {
    |x: usize| tris[x as int] as nat
}

/// The exact length of a side.
pub open spec fn side(b: Aabb, k: int) -> int {
    b.max[k].rank() - b.min[k].rank()
}

/// Whether the corners of a box are finite and no coordinate is over `2^509`.
pub open spec fn box_in_reach(b: Aabb) -> bool {
    nearness::in_reach(b.min) && nearness::in_reach(b.max)
}

/// Whether the width of a box can be held against the least one, which is above zero.
pub open spec fn measurable(builder: OctreeBuilder, b: Aabb) -> bool {
    box_in_reach(b) && builder.min_extent.finite() && builder.min_extent.rank() > 0
}

/// Whether a cell with children had to be split: it lies above the depth limit, holds more
/// than one mesh and more triangles than the limit, and one of its two horizontal sides is
/// not below the least width, up to rounding.
pub open spec fn had_to_split(builder: OctreeBuilder, n: OctreeNode, tris: Seq<u64>) -> bool {
    &&& n.depth < builder.max_depth
    &&& n.subtree_ids().len() > 1
    &&& octree_laws::total(n.subtree_ids(), weight(tris)) > builder.max_triangles_per_tile
    &&& measurable(builder, n.bounds) ==> {
        let least = builder.min_extent.rank() * pow2(53);
        ||| side(n.bounds, 0) * (pow2(53) + 1) >= least
        ||| side(n.bounds, 1) * (pow2(53) + 1) >= least
    }
}

/// Whether a cell without children had to stay whole: it lies at the depth limit, holds no
/// two meshes or no more triangles than the limit, or both its horizontal sides are below
/// the least width, up to rounding.
pub open spec fn had_to_stay(builder: OctreeBuilder, n: OctreeNode, tris: Seq<u64>) -> bool {
    ||| n.depth >= builder.max_depth
    ||| n.mesh_ids@.len() <= 1
    ||| octree_laws::total(n.mesh_ids@, weight(tris)) <= builder.max_triangles_per_tile
    ||| measurable(builder, n.bounds) ==> {
        let least = builder.min_extent.rank() * pow2(53);
        &&& side(n.bounds, 0) * (pow2(53) - 1) <= least
        &&& side(n.bounds, 1) * (pow2(53) - 1) <= least
    }
}

proof fn lemma_triangles_total(tris: Seq<u64>, ids: Seq<usize>)
    ensures
        octree::triangles(tris, ids) == octree_laws::total(ids, weight(tris)),
    decreases ids.len(),
{
    if ids.len() > 0 {
        lemma_triangles_total(tris, ids.drop_last());
    }
}

/// A side that is compared is the exact one up to rounding.
pub proof fn lemma_side(b: Aabb, k: int)
    requires
        box_in_reach(b),
        0 <= k < 3,
    ensures
        b.max[k].minus(b.min[k]).finite(),
        ({
            let e = b.max[k].minus(b.min[k]).rank();
            let d = side(b, k);
            &&& d >= 0 ==> d * (pow2(53) - 1) <= e * pow2(53) <= d * (pow2(53) + 1)
            &&& d < 0 ==> e <= 0 && d * (pow2(53) - 1) <= 0
        }),
{
    assert(b.max[k].finite() && b.min[k].finite());
    nearness::lemma_difference_bounded(b.max[k], b.min[k]);
    b.max[k].law_minus_near(b.min[k]);
    lemma2_to64_rest();
    let d = side(b, k);
    let e = b.max[k].minus(b.min[k]).rank();
    let w = pow2(53) as int;
    assert(w == 0x20_0000_0000_0000);
    assert(d * (w - 1) == d * w - d && d * (w + 1) == d * w + d) by (nonlinear_arith);
    assert(e * w == e * 0x20_0000_0000_0000);
    assert(d * w == d * 0x20_0000_0000_0000);
    assert(d < 0 ==> d * w <= d) by (nonlinear_arith)
        requires
            w >= 1,
    ;
}

/// A cell is split exactly where it has to be. In particular a cell within the limit of
/// triangles is never split, however many meshes it holds.
pub proof fn law_split_where_needed(
    builder: OctreeBuilder,
    node: OctreeNode,
    bounds: Aabb,
    ids: Seq<usize>,
    centers: Seq<[F64; 3]>,
    tris: Seq<u64>,
    depth: nat,
    k: int,
)
    requires
        builder.built(node, bounds, ids, centers, tris, depth),
        0 <= k < node.nodes().len(),
    ensures
        node.nodes()[k].children@.len() > 0 ==> had_to_split(builder, node.nodes()[k], tris),
        node.nodes()[k].children@.len() == 0 ==> had_to_stay(builder, node.nodes()[k], tris),
    decreases node, node.children@.len() + 1,
{
    if k == 0 {
        octree_laws::law_total_kept(
            builder,
            node,
            bounds,
            ids,
            centers,
            tris,
            depth,
            weight(tris),
        );
        octree_laws::law_total_kept(
            builder,
            node,
            bounds,
            ids,
            centers,
            tris,
            depth,
            |y: usize| 1nat,
        );
        octree_laws::lemma_total_len(ids);
        octree_laws::lemma_total_len(node.subtree_ids());
        lemma_triangles_total(tris, ids);
        assert(node.nodes()[0] == node);
        if measurable(builder, bounds) {
            lemma_side(bounds, 0);
            lemma_side(bounds, 1);
            lemma2_to64_rest();
            let w = pow2(53) as int;
            let m = builder.min_extent.rank();
            let x = bounds.max[0].minus(bounds.min[0]).rank();
            let y = bounds.max[1].minus(bounds.min[1]).rank();
            assert(m * w > 0) by (nonlinear_arith)
                requires
                    m > 0,
                    w > 0,
            ;
            assert(x >= m ==> x * w >= m * w) by (nonlinear_arith)
                requires
                    w > 0,
            ;
            assert(y >= m ==> y * w >= m * w) by (nonlinear_arith)
                requires
                    w > 0,
            ;
            assert(x <= m ==> x * w <= m * w) by (nonlinear_arith)
                requires
                    w > 0,
            ;
            assert(y <= m ==> y * w <= m * w) by (nonlinear_arith)
                requires
                    w > 0,
            ;
        }
    } else {
        assert(node.nodes()[k] == node.nodes_below(node.children@.len())[k - 1]);
        lemma_split_below(
            builder,
            node,
            bounds,
            ids,
            centers,
            tris,
            depth,
            node.children@.len(),
            k - 1,
        );
    }
}

proof fn lemma_split_below(
    builder: OctreeBuilder,
    node: OctreeNode,
    bounds: Aabb,
    ids: Seq<usize>,
    centers: Seq<[F64; 3]>,
    tris: Seq<u64>,
    depth: nat,
    n: nat,
    k: int,
)
    requires
        builder.built(node, bounds, ids, centers, tris, depth),
        n <= node.children@.len(),
        0 <= k < node.nodes_below(n).len(),
    ensures
        node.nodes_below(n)[k].children@.len() > 0 ==> had_to_split(
            builder,
            node.nodes_below(n)[k],
            tris,
        ),
        node.nodes_below(n)[k].children@.len() == 0 ==> had_to_stay(
            builder,
            node.nodes_below(n)[k],
            tris,
        ),
    decreases node, n,
{
    let before = node.nodes_below((n - 1) as nat);
    if k < before.len() {
        lemma_split_below(
            builder,
            node,
            bounds,
            ids,
            centers,
            tris,
            depth,
            (n - 1) as nat,
            k,
        );
    } else {
        let child = *node.children@[n - 1];
        law_split_where_needed(
            builder,
            child,
            bounds.octant(n - 1),
            bounds.octant_ids(centers, ids, n - 1),
            centers,
            tris,
            depth + 1,
            k - before.len(),
        );
    }
}

/// The midpoint of octant `i`.
pub open spec fn octant_middle(b: Aabb, i: int) -> [F64; 3] {
    [b.octant(i).middle(0), b.octant(i).middle(1), b.octant(i).middle(2)]
}

proof fn lemma_nearest_of(b: Aabb, p: [F64; 3], n: nat)
    requires
        n <= 8,
        nearness::in_reach(p),
        forall|i: int| 0 <= i < 8 ==> nearness::in_reach(#[trigger] octant_middle(b, i)),
    ensures
        ({
            let best = b.nearest_of(p, n);
            &&& n > 0 ==> 0 <= best.0 < n && best.1 == nearness::offsets_squared(
                p,
                octant_middle(b, best.0),
            ) && best.1.finite()
            &&& n == 0 ==> best.1 == (F64 { bits: crate::float::INF64 })
            &&& forall|i: int|
                0 <= i < n ==> best.1.le(
                    nearness::offsets_squared(p, #[trigger] octant_middle(b, i)),
                )
        }),
    decreases n,
{
    if n > 0 {
        lemma_nearest_of(b, p, (n - 1) as nat);
        assert(nearness::in_reach(octant_middle(b, n - 1)));
        nearness::lemma_apart_finite(p, octant_middle(b, n - 1));
        let d = nearness::offsets_squared(p, octant_middle(b, n - 1));
        nearness::lemma_infinity_above(d);
        assert(b.octant_distance(p, n - 1) == d);
    }
}

/// A mesh whose centre no octant holds goes to the one whose midpoint is nearest, by the
/// distance over all three axes, up to rounding.
pub proof fn law_stray_goes_to_nearest(b: Aabb, p: [F64; 3], i: int)
    requires
        forall|j: int| 0 <= j < 8 ==> !(#[trigger] b.octant(j)).contains_point(&p),
        nearness::in_reach(p),
        forall|j: int| 0 <= j < 8 ==> nearness::in_reach(#[trigger] octant_middle(b, j)),
        0 <= i < 8,
    ensures
        0 <= b.home(p) < 8,
        nearness::apart(p, octant_middle(b, b.home(p))) * (pow2(48) - 1) <= nearness::apart(
            p,
            octant_middle(b, i),
        ) * (pow2(48) + 1) + nearness::one64() * pow2(50),
{
    lemma_nearest_of(b, p, 8);
    let h = b.home(p);
    assert(h == b.nearest_of(p, 8).0);
    assert(nearness::in_reach(octant_middle(b, i)));
    nearness::lemma_apart_finite(p, octant_middle(b, i));
    nearness::lemma_apart_ordered(p, octant_middle(b, h), p, octant_middle(b, i));
}

} // verus!
