//! Which meshes the cells of an octree hold, and in which order.

use crate::float::{F64, HALF64};
use crate::ieee;
use crate::octree;
use crate::octree::{Aabb, OctreeBuilder, OctreeNode};
use crate::octree_laws;
use vstd::prelude::*;

verus! {

/// Whether two bounds have a midpoint that is a number.
spec fn clear(x: F64, y: F64) -> bool {
    let f = ieee::double();
    !x.nan() && !y.nan() && !(f.infinite(x.bits) && f.infinite(y.bits) && f.neg(x.bits) != f.neg(
        y.bits,
    ))
}

/// Whether the box has a midpoint that is a number along every axis.
spec fn splits(b: Aabb) -> bool {
    clear(b.min[0], b.max[0]) && clear(b.min[1], b.max[1]) && clear(b.min[2], b.max[2])
}

/// Both sides of a midpoint have one themselves.
proof fn lemma_halves_clear(x: F64, y: F64)
    requires
        clear(x, y),
    ensures
        ({
            let m = x.plus(y).times(F64 { bits: HALF64 });
            !m.nan() && clear(x, m) && clear(m, y)
        }),
{
    reveal(F64::spec_plus);
    reveal(F64::spec_times);
}

proof fn lemma_octants_split(b: Aabb, i: int)
    requires
        splits(b),
        0 <= i < 8,
    ensures
        splits(b.octant(i)),
        forall|k: int| 0 <= k < 3 ==> !(#[trigger] b.middle(k)).nan(),
{
    lemma_halves_clear(b.min[0], b.max[0]);
    lemma_halves_clear(b.min[1], b.max[1]);
    lemma_halves_clear(b.min[2], b.max[2]);
    assert forall|k: int| 0 <= k < 3 implies !(#[trigger] b.middle(k)).nan() by {
        if k == 0 {
        } else if k == 1 {
        } else {
            assert(k == 2);
        }
    }
}

/// Whether `at` are the places in `b`, from first to last, of the elements of `a`.
pub open spec fn picks(a: Seq<usize>, b: Seq<usize>, at: Seq<int>) -> bool {
    &&& at.len() == a.len()
    &&& forall|i: int| 0 <= i < a.len() ==> 0 <= (#[trigger] at[i]) < b.len() && a[i] == b[at[i]]
    &&& forall|i: int, j: int| 0 <= i < j < a.len() ==> (#[trigger] at[i]) < (#[trigger] at[j])
}

/// Whether `a` is some of `b`, in the same order.
pub open spec fn in_order(a: Seq<usize>, b: Seq<usize>) -> bool {
    exists|at: Seq<int>| #[trigger] picks(a, b, at)
}

proof fn lemma_in_order_same(a: Seq<usize>)
    ensures
        in_order(a, a),
{
    let at = Seq::new(a.len(), |i: int| i);
    assert(picks(a, a, at));
}

proof fn lemma_in_order_transitive(a: Seq<usize>, b: Seq<usize>, c: Seq<usize>)
    requires
        in_order(a, b),
        in_order(b, c),
    ensures
        in_order(a, c),
{
    let p = choose|p: Seq<int>| #[trigger] picks(a, b, p);
    let q = choose|q: Seq<int>| #[trigger] picks(b, c, q);
    let r = Seq::new(a.len(), |i: int| q[p[i]]);
    assert forall|i: int| 0 <= i < a.len() implies 0 <= (#[trigger] r[i]) < c.len() && a[i]
        == c[r[i]] by {
        assert(0 <= p[i] < b.len());
        assert(0 <= q[p[i]] < c.len());
    }
    assert forall|i: int, j: int| 0 <= i < j < a.len() implies (#[trigger] r[i]) < (#[trigger] r[j]) by {
        assert(p[i] < p[j]);
        assert(q[p[i]] < q[p[j]]);
    }
    assert(picks(a, c, r));
}

/// What an octant holds of some meshes, in their order.
proof fn lemma_held_in_order(b: Aabb, centers: Seq<[F64; 3]>, ids: Seq<usize>, i: int)
    ensures
        in_order(b.held_ids(centers, ids, i), ids),
    decreases ids.len(),
{
    let held = b.held_ids(centers, ids, i);
    if ids.len() == 0 {
        assert(held =~= ids);
        lemma_in_order_same(ids);
    } else {
        let rest = ids.drop_last();
        lemma_held_in_order(b, centers, rest, i);
        let before = b.held_ids(centers, rest, i);
        let p = choose|p: Seq<int>| #[trigger] picks(before, rest, p);
        if held.len() == before.len() {
            assert(held == before);
            assert forall|k: int| 0 <= k < held.len() implies 0 <= (#[trigger] p[k]) < ids.len()
                && held[k] == ids[p[k]] by {
                assert(rest[p[k]] == ids[p[k]]);
            }
            assert(picks(held, ids, p));
        } else {
            assert(held == before.push(ids.last()));
            let q = p.push(ids.len() - 1);
            assert forall|k: int| 0 <= k < held.len() implies 0 <= (#[trigger] q[k]) < ids.len()
                && held[k] == ids[q[k]] by {
                if k < before.len() {
                    assert(q[k] == p[k]);
                    assert(rest[p[k]] == ids[p[k]]);
                }
            }
            assert forall|k: int, l: int| 0 <= k < l < held.len() implies (#[trigger] q[k]) < (
            #[trigger] q[l]) by {
                assert(q[k] == p[k]);
                if l < before.len() {
                    assert(q[l] == p[l]);
                }
            }
            assert(picks(held, ids, q));
        }
    }
}

/// Whether the box holds the centres of all of `ids`.
pub open spec fn holds_centers(b: Aabb, centers: Seq<[F64; 3]>, ids: Seq<usize>) -> bool {
    forall|j: int| 0 <= j < ids.len() ==> b.contains_point(&centers[#[trigger] ids[j] as int])
}

/// Where a box holds all centres, each octant gets just those that it holds.
proof fn lemma_octant_holds(b: Aabb, centers: Seq<[F64; 3]>, ids: Seq<usize>, i: int)
    requires
        splits(b),
        holds_centers(b, centers, ids),
        0 <= i < 8,
    ensures
        b.octant_ids(centers, ids, i) == b.held_ids(centers, ids, i),
        holds_centers(b.octant(i), centers, b.octant_ids(centers, ids, i)),
        b.stray_ids(centers, ids, i).len() == 0,
    decreases ids.len(),
{
    if ids.len() > 0 {
        let rest = ids.drop_last();
        assert forall|j: int| 0 <= j < rest.len() implies b.contains_point(
            &centers[#[trigger] rest[j] as int],
        ) by {
            assert(rest[j] == ids[j]);
        }
        lemma_octant_holds(b, centers, rest, i);
        let p = centers[ids.last() as int];
        assert(ids[ids.len() - 1] == ids.last());
        lemma_octants_split(b, i);
        octree_laws::law_split_covers(b, p);
        let held = b.held_ids(centers, ids, i);
        let before = b.held_ids(centers, rest, i);
        b.lemma_home_holds(p);
        assert forall|j: int| 0 <= j < held.len() implies b.octant(i).contains_point(
            &centers[#[trigger] held[j] as int],
        ) by {
            if j < before.len() {
                assert(held[j] == before[j]);
                assert(b.octant_ids(centers, rest, i)[j] == before[j]);
            }
        }
    }
    assert(b.octant_ids(centers, ids, i) =~= b.held_ids(centers, ids, i));
}

/// Where the cell of a built subtree holds the centres of the meshes that it was built
/// of, the cell of each leaf holds those of the leaf's own, and these are in the order in
/// which they were given. No leaf lies deeper than the limit, or than the subtree begins.
pub proof fn law_leaves_hold_centers(
    builder: OctreeBuilder,
    node: OctreeNode,
    bounds: Aabb,
    ids: Seq<usize>,
    centers: Seq<[F64; 3]>,
    tris: Seq<u64>,
    depth: nat,
    k: int,
)
    requires
        builder.built(node, bounds, ids, centers, tris, depth),
        forall|a: int|
            0 <= a < 3 ==> (#[trigger] bounds.min[a]).finite() && bounds.max[a].finite(),
        holds_centers(bounds, centers, ids),
        0 <= k < node.leaves().len(),
    ensures
        holds_centers(node.leaves()[k].bounds, centers, node.leaves()[k].mesh_ids@),
        in_order(node.leaves()[k].mesh_ids@, ids),
        node.leaves()[k].depth <= (if depth < builder.max_depth {
            builder.max_depth as nat
        } else {
            depth
        }),
{
    assert(bounds.min[0].finite() && bounds.min[1].finite() && bounds.min[2].finite());
    lemma_leaf_holds(builder, node, bounds, ids, centers, tris, depth, k);
}

proof fn lemma_leaf_holds(
    builder: OctreeBuilder,
    node: OctreeNode,
    bounds: Aabb,
    ids: Seq<usize>,
    centers: Seq<[F64; 3]>,
    tris: Seq<u64>,
    depth: nat,
    k: int,
)
    requires
        builder.built(node, bounds, ids, centers, tris, depth),
        splits(bounds),
        holds_centers(bounds, centers, ids),
        0 <= k < node.leaves().len(),
    ensures
        holds_centers(node.leaves()[k].bounds, centers, node.leaves()[k].mesh_ids@),
        in_order(node.leaves()[k].mesh_ids@, ids),
        node.leaves()[k].depth <= (if depth < builder.max_depth {
            builder.max_depth as nat
        } else {
            depth
        }),
    decreases node, node.children@.len() + 1,
{
    if node.children@.len() == 0 {
        lemma_in_order_same(ids);
    } else {
        lemma_leaf_holds_below(
            builder,
            node,
            bounds,
            ids,
            centers,
            tris,
            depth,
            node.children@.len(),
            k,
        );
    }
}

proof fn lemma_leaf_holds_below(
    builder: OctreeBuilder,
    node: OctreeNode,
    bounds: Aabb,
    ids: Seq<usize>,
    centers: Seq<[F64; 3]>,
    tris: Seq<u64>,
    depth: nat,
    n: nat,
    k: int,
)
    requires
        builder.built(node, bounds, ids, centers, tris, depth),
        splits(bounds),
        holds_centers(bounds, centers, ids),
        node.children@.len() > 0,
        n <= node.children@.len(),
        0 <= k < node.leaves_below(n).len(),
    ensures
        holds_centers(node.leaves_below(n)[k].bounds, centers, node.leaves_below(n)[k].mesh_ids@),
        in_order(node.leaves_below(n)[k].mesh_ids@, ids),
        node.leaves_below(n)[k].depth <= builder.max_depth,
    decreases node, n,
{
    let before = node.leaves_below((n - 1) as nat);
    if k < before.len() {
        lemma_leaf_holds_below(
            builder,
            node,
            bounds,
            ids,
            centers,
            tris,
            depth,
            (n - 1) as nat,
            k,
        );
    } else {
        let child = *node.children@[n - 1];
        let i = n - 1;
        let own = bounds.octant_ids(centers, ids, i);
        lemma_octants_split(bounds, i);
        lemma_octant_holds(bounds, centers, ids, i);
        lemma_held_in_order(bounds, centers, ids, i);
        lemma_leaf_holds(
            builder,
            child,
            bounds.octant(i),
            own,
            centers,
            tris,
            depth + 1,
            k - before.len(),
        );
        lemma_in_order_transitive(child.leaves()[k - before.len()].mesh_ids@, own, ids);
    }
}

/// In the tree that is built of all meshes each leaf lists its own in increasing order,
/// where the root's cell holds the centres of all.
pub proof fn law_leaves_increase(
    builder: OctreeBuilder,
    tree: OctreeNode,
    bounds: Aabb,
    centers: Seq<[F64; 3]>,
    tris: Seq<u64>,
    k: int,
    i: int,
    j: int,
)
    requires
        centers.len() <= usize::MAX,
        builder.built(tree, bounds, octree::first_ids(centers.len()), centers, tris, 0),
        forall|a: int|
            0 <= a < 3 ==> (#[trigger] bounds.min[a]).finite() && bounds.max[a].finite(),
        holds_centers(bounds, centers, octree::first_ids(centers.len())),
        0 <= k < tree.leaves().len(),
        0 <= i < j < tree.leaves()[k].mesh_ids@.len(),
    ensures
        tree.leaves()[k].mesh_ids@[i] < tree.leaves()[k].mesh_ids@[j],
{
    let all = octree::first_ids(centers.len());
    law_leaves_hold_centers(builder, tree, bounds, all, centers, tris, 0, k);
    let own = tree.leaves()[k].mesh_ids@;
    let at = choose|at: Seq<int>| #[trigger] picks(own, all, at);
    assert(at[i] < at[j]);
}

} // verus!
