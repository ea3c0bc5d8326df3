//! What holds of every octree that is built.

use crate::float::F64;
use crate::octree;
use crate::octree::{Aabb, OctreeBuilder, OctreeNode};
use vstd::prelude::*;

verus! {

/// The octants of a box cover it: a point that the box holds is held by an
/// octant, as long as the midpoint is a number along every axis.
pub proof fn law_split_covers(b: Aabb, p: [F64; 3])
    requires
        b.contains_point(&p),
        forall|k: int| 0 <= k < 3 ==> !(#[trigger] b.middle(k)).nan(),
    ensures
        b.held_before(p, 8),
{
    assert(b.min[0].le(p[0]) && b.min[1].le(p[1]) && b.min[2].le(p[2]));
    assert(!b.middle(0).nan() && !b.middle(1).nan() && !b.middle(2).nan());
    let x: int = if p[0].le(b.middle(0)) {
        0
    } else {
        1
    };
    let y: int = if p[1].le(b.middle(1)) {
        0
    } else {
        1
    };
    let z: int = if p[2].le(b.middle(2)) {
        0
    } else {
        1
    };
    let i = x + 2 * y + 4 * z;
    assert(i % 2 == x);
    assert(i / 2 % 2 == y);
    assert(i / 4 % 2 == z);
    assert(b.octant(i).contains_point(&p));
}

/// The sum of the weights of `ids`.
pub open spec fn total(ids: Seq<usize>, w: spec_fn(usize) -> nat) -> nat
    decreases ids.len(),
{
    if ids.len() == 0 {
        0
    } else {
        total(ids.drop_last(), w) + w(ids.last())
    }
}

/// The weight that is one on `x` alone.
pub open spec fn mark(x: usize) -> spec_fn(usize) -> nat {
    |y: usize|
        if y == x {
            1nat
        } else {
            0nat
        }
}

/// How often `x` occurs in `ids`.
pub open spec fn occurrences(ids: Seq<usize>, x: usize) -> nat {
    total(ids, mark(x))
}

pub proof fn lemma_total_add(a: Seq<usize>, b: Seq<usize>, w: spec_fn(usize) -> nat)
    ensures
        total(a + b, w) == total(a, w) + total(b, w),
    decreases b.len(),
{
    if b.len() == 0 {
        assert(a + b =~= a);
    } else {
        lemma_total_add(a, b.drop_last(), w);
        assert((a + b).drop_last() =~= a + b.drop_last());
    }
}

/// The weights of what the first `n` octants get.
spec fn octant_totals(
    b: Aabb,
    centers: Seq<[F64; 3]>,
    ids: Seq<usize>,
    w: spec_fn(usize) -> nat,
    n: nat,
) -> nat
    decreases n,
{
    if n == 0 {
        0
    } else {
        octant_totals(b, centers, ids, w, (n - 1) as nat) + total(
            b.octant_ids(centers, ids, n - 1),
            w,
        )
    }
}

/// One more mesh goes to one octant.
proof fn lemma_octant_totals_push(
    b: Aabb,
    centers: Seq<[F64; 3]>,
    ids: Seq<usize>,
    w: spec_fn(usize) -> nat,
    n: nat,
)
    requires
        ids.len() > 0,
    ensures
        octant_totals(b, centers, ids, w, n) == octant_totals(b, centers, ids.drop_last(), w, n)
            + (if 0 <= b.home(centers[ids.last() as int]) < n {
            w(ids.last())
        } else {
            0
        }),
    decreases n,
{
    if n > 0 {
        lemma_octant_totals_push(b, centers, ids, w, (n - 1) as nat);
        let i = n - 1;
        let rest = ids.drop_last();
        let p = centers[ids.last() as int];
        let held = b.held_ids(centers, rest, i);
        let stray = b.stray_ids(centers, rest, i);
        lemma_total_add(held, stray, w);
        lemma_total_add(b.held_ids(centers, ids, i), b.stray_ids(centers, ids, i), w);
        assert(held.push(ids.last()).drop_last() =~= held);
        assert(stray.push(ids.last()).drop_last() =~= stray);
    }
}

/// What the octants get is what there was.
proof fn lemma_octant_totals(
    b: Aabb,
    centers: Seq<[F64; 3]>,
    ids: Seq<usize>,
    w: spec_fn(usize) -> nat,
)
    ensures
        octant_totals(b, centers, ids, w, 8) == total(ids, w),
    decreases ids.len(),
{
    if ids.len() == 0 {
        assert forall|i: int| #[trigger] b.octant_ids(centers, ids, i) == Seq::<usize>::empty() by {
            assert(b.octant_ids(centers, ids, i) =~= Seq::<usize>::empty());
        }
        reveal_with_fuel(octant_totals, 9);
    } else {
        lemma_octant_totals(b, centers, ids.drop_last(), w);
        lemma_octant_totals_push(b, centers, ids, w, 8);
        b.lemma_home(centers[ids.last() as int]);
    }
}

/// A built subtree holds in its leaves the meshes that it was built of, whatever
/// they are weighed by.
pub proof fn law_total_kept(
    builder: OctreeBuilder,
    node: OctreeNode,
    bounds: Aabb,
    ids: Seq<usize>,
    centers: Seq<[F64; 3]>,
    tris: Seq<u64>,
    depth: nat,
    w: spec_fn(usize) -> nat,
)
    requires
        builder.built(node, bounds, ids, centers, tris, depth),
    ensures
        total(node.subtree_ids(), w) == total(ids, w),
    decreases node, 9nat,
{
    if !builder.stops(bounds, ids, tris, depth) {
        lemma_ids_below_total(builder, node, bounds, ids, centers, tris, depth, w, 8);
        lemma_octant_totals(bounds, centers, ids, w);
    }
}

proof fn lemma_ids_below_total(
    builder: OctreeBuilder,
    node: OctreeNode,
    bounds: Aabb,
    ids: Seq<usize>,
    centers: Seq<[F64; 3]>,
    tris: Seq<u64>,
    depth: nat,
    w: spec_fn(usize) -> nat,
    n: nat,
)
    requires
        builder.built(node, bounds, ids, centers, tris, depth),
        !builder.stops(bounds, ids, tris, depth),
        n <= 8,
    ensures
        total(node.ids_below(n), w) == octant_totals(bounds, centers, ids, w, n),
    decreases node, n,
{
    if n > 0 {
        lemma_ids_below_total(
            builder,
            node,
            bounds,
            ids,
            centers,
            tris,
            depth,
            w,
            (n - 1) as nat,
        );
        let child = *node.children@[n - 1];
        law_total_kept(
            builder,
            child,
            bounds.octant(n - 1),
            bounds.octant_ids(centers, ids, n - 1),
            centers,
            tris,
            depth + 1,
            w,
        );
        lemma_total_add(node.ids_below((n - 1) as nat), child.subtree_ids(), w);
    }
}

pub proof fn lemma_total_len(ids: Seq<usize>)
    ensures
        total(ids, |y: usize| 1nat) == ids.len(),
    decreases ids.len(),
{
    if ids.len() > 0 {
        lemma_total_len(ids.drop_last());
    }
}

proof fn lemma_occurrences_first(n: nat, x: usize)
    requires
        n <= usize::MAX,
    ensures
        occurrences(octree::first_ids(n), x) == if x < n {
            1nat
        } else {
            0nat
        },
    decreases n,
{
    if n > 0 {
        lemma_occurrences_first((n - 1) as nat, x);
        assert(octree::first_ids(n).drop_last() =~= octree::first_ids((n - 1) as nat));
    }
}

/// The tree that is built of `n` meshes holds each of them in its leaves exactly
/// once, and nothing else.
pub proof fn law_each_mesh_once(
    builder: OctreeBuilder,
    node: OctreeNode,
    bounds: Aabb,
    centers: Seq<[F64; 3]>,
    tris: Seq<u64>,
    x: usize,
)
    requires
        centers.len() <= usize::MAX,
        builder.built(node, bounds, octree::first_ids(centers.len()), centers, tris, 0),
    ensures
        occurrences(node.subtree_ids(), x) == if x < centers.len() {
            1nat
        } else {
            0nat
        },
        node.subtree_ids().len() == centers.len(),
{
    let ids = octree::first_ids(centers.len());
    law_total_kept(builder, node, bounds, ids, centers, tris, 0, mark(x));
    lemma_occurrences_first(centers.len(), x);
    law_total_kept(builder, node, bounds, ids, centers, tris, 0, |y: usize| 1nat);
    lemma_total_len(ids);
    lemma_total_len(node.subtree_ids());
}

/// Every node of a built subtree is a leaf or has eight children and holds no
/// mesh of its own, and none lies deeper than the limit.
pub proof fn law_shape(
    builder: OctreeBuilder,
    node: OctreeNode,
    bounds: Aabb,
    ids: Seq<usize>,
    centers: Seq<[F64; 3]>,
    tris: Seq<u64>,
    depth: nat,
    k: int,
)
    requires
        builder.built(node, bounds, ids, centers, tris, depth),
        depth <= builder.max_depth,
        0 <= k < node.nodes().len(),
    ensures
        depth <= node.nodes()[k].depth <= builder.max_depth,
        node.nodes()[k].is_leaf() || (node.nodes()[k].children@.len() == 8
            && node.nodes()[k].mesh_ids@.len() == 0),
    decreases node, node.children@.len() + 1,
{
    if k > 0 {
        assert(node.nodes()[k] == node.nodes_below(node.children@.len())[k - 1]);
        lemma_shape_below(
            builder,
            node,
            bounds,
            ids,
            centers,
            tris,
            depth,
            node.children@.len(),
            k - 1,
        );
    }
}

proof fn lemma_shape_below(
    builder: OctreeBuilder,
    node: OctreeNode,
    bounds: Aabb,
    ids: Seq<usize>,
    centers: Seq<[F64; 3]>,
    tris: Seq<u64>,
    depth: nat,
    n: nat,
    k: int,
)
    requires
        builder.built(node, bounds, ids, centers, tris, depth),
        depth <= builder.max_depth,
        n <= node.children@.len(),
        0 <= k < node.nodes_below(n).len(),
    ensures
        depth <= node.nodes_below(n)[k].depth <= builder.max_depth,
        node.nodes_below(n)[k].is_leaf() || (node.nodes_below(n)[k].children@.len() == 8
            && node.nodes_below(n)[k].mesh_ids@.len() == 0),
    decreases node, n,
{
    let before = node.nodes_below((n - 1) as nat);
    if k < before.len() {
        lemma_shape_below(
            builder,
            node,
            bounds,
            ids,
            centers,
            tris,
            depth,
            (n - 1) as nat,
            k,
        );
    } else {
        let child = *node.children@[n - 1];
        law_shape(
            builder,
            child,
            bounds.octant(n - 1),
            bounds.octant_ids(centers, ids, n - 1),
            centers,
            tris,
            depth + 1,
            k - before.len(),
        );
    }
}

/// A leaf of a built subtree is one because a limit was reached: the depth, a
/// single mesh, the triangle budget or the least extent.
pub proof fn law_leaves_stop(
    builder: OctreeBuilder,
    node: OctreeNode,
    bounds: Aabb,
    ids: Seq<usize>,
    centers: Seq<[F64; 3]>,
    tris: Seq<u64>,
    depth: nat,
    k: int,
)
    requires
        builder.built(node, bounds, ids, centers, tris, depth),
        0 <= k < node.leaves().len(),
    ensures
        node.leaves()[k].is_leaf(),
        builder.stops(
            node.leaves()[k].bounds,
            node.leaves()[k].mesh_ids@,
            tris,
            node.leaves()[k].depth as nat,
        ),
    decreases node, node.children@.len() + 1,
{
    if node.children@.len() > 0 {
        lemma_leaves_stop_below(
            builder,
            node,
            bounds,
            ids,
            centers,
            tris,
            depth,
            node.children@.len(),
            k,
        );
    }
}

proof fn lemma_leaves_stop_below(
    builder: OctreeBuilder,
    node: OctreeNode,
    bounds: Aabb,
    ids: Seq<usize>,
    centers: Seq<[F64; 3]>,
    tris: Seq<u64>,
    depth: nat,
    n: nat,
    k: int,
)
    requires
        builder.built(node, bounds, ids, centers, tris, depth),
        n <= node.children@.len(),
        0 <= k < node.leaves_below(n).len(),
    ensures
        node.leaves_below(n)[k].is_leaf(),
        builder.stops(
            node.leaves_below(n)[k].bounds,
            node.leaves_below(n)[k].mesh_ids@,
            tris,
            node.leaves_below(n)[k].depth as nat,
        ),
    decreases node, n,
{
    let before = node.leaves_below((n - 1) as nat);
    if k < before.len() {
        lemma_leaves_stop_below(
            builder,
            node,
            bounds,
            ids,
            centers,
            tris,
            depth,
            (n - 1) as nat,
            k,
        );
    } else {
        let child = *node.children@[n - 1];
        law_leaves_stop(
            builder,
            child,
            bounds.octant(n - 1),
            bounds.octant_ids(centers, ids, n - 1),
            centers,
            tris,
            depth + 1,
            k - before.len(),
        );
    }
}

} // verus!
