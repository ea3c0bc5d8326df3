//! Which meshes the tiles of a single-layer tileset hold.

use crate::float::F64;
use crate::octree;
use crate::octree::{Aabb, OctreeBuilder, OctreeNode};
use crate::octree_laws;
use crate::tiles;
use vstd::prelude::*;

verus! {

/// The weights of the meshes of `leaves`, together.
spec fn leaves_total(leaves: Seq<&OctreeNode>, w: spec_fn(usize) -> nat) -> nat
    decreases leaves.len(),
{
    if leaves.len() == 0 {
        0
    } else {
        leaves_total(leaves.drop_last(), w) + octree_laws::total(leaves.last().mesh_ids@, w)
    }
}

spec fn refs(leaves: Seq<OctreeNode>) -> Seq<&'static OctreeNode> {
    Seq::new(leaves.len(), |i: int| &leaves[i])
}

proof fn lemma_leaves_total_add(
    a: Seq<&OctreeNode>,
    b: Seq<&OctreeNode>,
    w: spec_fn(usize) -> nat,
)
    ensures
        leaves_total(a + b, w) == leaves_total(a, w) + leaves_total(b, w),
    decreases b.len(),
{
    if b.len() == 0 {
        assert(a + b =~= a);
    } else {
        lemma_leaves_total_add(a, b.drop_last(), w);
        assert((a + b).drop_last() =~= a + b.drop_last());
    }
}

/// The meshes of a subtree are those of its leaves.
proof fn lemma_subtree_total(node: OctreeNode, w: spec_fn(usize) -> nat)
    ensures
        octree_laws::total(node.subtree_ids(), w) == leaves_total(refs(node.leaves()), w),
    decreases node, node.children@.len() + 1,
{
    if node.children@.len() == 0 {
        let one = refs(node.leaves());
        assert(one.drop_last() =~= Seq::empty());
        assert(leaves_total(one.drop_last(), w) == 0);
    } else {
        lemma_below_total(node, node.children@.len(), w);
    }
}

proof fn lemma_below_total(node: OctreeNode, n: nat, w: spec_fn(usize) -> nat)
    requires
        n <= node.children@.len(),
    ensures
        octree_laws::total(node.ids_below(n), w) == leaves_total(refs(node.leaves_below(n)), w),
    decreases node, n,
{
    if n > 0 {
        let child = *node.children@[n - 1];
        lemma_below_total(node, (n - 1) as nat, w);
        lemma_subtree_total(child, w);
        octree_laws::lemma_total_add(node.ids_below((n - 1) as nat), child.subtree_ids(), w);
        let a = refs(node.leaves_below((n - 1) as nat));
        let b = refs(child.leaves());
        assert(refs(node.leaves_below(n)) =~= a + b);
        lemma_leaves_total_add(a, b, w);
    }
}

/// Leaves without meshes weigh nothing.
proof fn lemma_filled_total(leaves: Seq<&OctreeNode>, w: spec_fn(usize) -> nat)
    ensures
        leaves_total(tiles::filled(leaves), w) == leaves_total(leaves, w),
    decreases leaves.len(),
{
    if leaves.len() > 0 {
        lemma_filled_total(leaves.drop_last(), w);
        let rest = tiles::filled(leaves.drop_last());
        assert(rest.push(leaves.last()).drop_last() =~= rest);
    }
}

proof fn lemma_mark(ids: Seq<usize>, x: usize)
    ensures
        octree_laws::occurrences(ids, x) > 0 <==> ids.contains(x),
    decreases ids.len(),
{
    if ids.len() > 0 {
        lemma_mark(ids.drop_last(), x);
        if ids.contains(x) {
            let k = choose|k: int| 0 <= k < ids.len() && ids[k] == x;
            if k < ids.len() - 1 {
                assert(ids.drop_last()[k] == x);
            }
        }
        if ids.drop_last().contains(x) {
            let k = choose|k: int| 0 <= k < ids.len() - 1 && ids.drop_last()[k] == x;
            assert(ids[k] == x);
        }
        if ids.last() == x {
            assert(ids[ids.len() - 1] == x);
        }
    }
}

/// The leaves that hold `x`, counted as often as they do.
proof fn lemma_leaves_mark(leaves: Seq<&OctreeNode>, x: usize)
    ensures
        leaves_total(leaves, octree_laws::mark(x)) > 0 <==> exists|i: int|
            0 <= i < leaves.len() && (#[trigger] leaves[i]).mesh_ids@.contains(x),
        leaves_total(leaves, octree_laws::mark(x)) <= 1 ==> forall|i: int, j: int|
            0 <= i < leaves.len() && 0 <= j < leaves.len()
                && (#[trigger] leaves[i]).mesh_ids@.contains(x)
                && (#[trigger] leaves[j]).mesh_ids@.contains(x) ==> i == j,
    decreases leaves.len(),
{
    if leaves.len() > 0 {
        let rest = leaves.drop_last();
        lemma_leaves_mark(rest, x);
        lemma_mark(leaves.last().mesh_ids@, x);
        let n = leaves.len() - 1;
        assert(leaves[n] == leaves.last());
        assert(forall|i: int| 0 <= i < n ==> rest[i] == leaves[i]);
        if exists|i: int| 0 <= i < rest.len() && (#[trigger] rest[i]).mesh_ids@.contains(x) {
            let i = choose|i: int| 0 <= i < rest.len() && (#[trigger] rest[i]).mesh_ids@.contains(x);
            assert(leaves[i].mesh_ids@.contains(x));
        }
        if exists|i: int| 0 <= i < leaves.len() && (#[trigger] leaves[i]).mesh_ids@.contains(x) {
            let i = choose|i: int|
                0 <= i < leaves.len() && (#[trigger] leaves[i]).mesh_ids@.contains(x);
            if i < n {
                assert(rest[i].mesh_ids@.contains(x));
            }
        }
        if leaves_total(leaves, octree_laws::mark(x)) <= 1 {
            assert forall|i: int, j: int|
                0 <= i < leaves.len() && 0 <= j < leaves.len()
                    && (#[trigger] leaves[i]).mesh_ids@.contains(x)
                    && (#[trigger] leaves[j]).mesh_ids@.contains(x) implies i == j by {
                if i < n {
                    assert(rest[i].mesh_ids@.contains(x));
                }
                if j < n {
                    assert(rest[j].mesh_ids@.contains(x));
                }
            }
        }
    }
}

/// In the tiles of an octree that is built of `n` meshes, merged or not, each mesh
/// is held by exactly one living tile.
pub proof fn law_each_mesh_in_one_tile(
    builder: OctreeBuilder,
    tree: OctreeNode,
    bounds: Aabb,
    mesh_centers: Seq<[F64; 3]>,
    mesh_tris: Seq<u64>,
    centers: Seq<[F64; 3]>,
    small: Seq<usize>,
    max_tri: u64,
)
    requires
        mesh_centers.len() <= usize::MAX,
        builder.built(
            tree,
            bounds,
            octree::first_ids(mesh_centers.len()),
            mesh_centers,
            mesh_tris,
            0,
        ),
        centers.len() == tiles::filled(tiles::leaf_refs(&tree)).len(),
        octree::below(small, centers.len()),
    ensures
        tiles::seeded(tiles::filled(tiles::leaf_refs(&tree)), mesh_tris).merged_all(
            centers,
            small,
            max_tri,
        ).disjoint(),
        forall|x: usize|
            #[trigger] tiles::seeded(
                tiles::filled(tiles::leaf_refs(&tree)),
                mesh_tris,
            ).merged_all(centers, small, max_tri).holds_mesh(x) <==> x < mesh_centers.len(),
{
    let leaves = tiles::filled(tiles::leaf_refs(&tree));
    let plan = tiles::seeded(leaves, mesh_tris);
    assert forall|x: usize|
        leaves_total(leaves, octree_laws::mark(x)) == (if x < mesh_centers.len() {
            1nat
        } else {
            0nat
        }) by {
        octree_laws::law_each_mesh_once(builder, tree, bounds, mesh_centers, mesh_tris, x);
        lemma_subtree_total(tree, octree_laws::mark(x));
        assert(refs(tree.leaves()) =~= tiles::leaf_refs(&tree));
        lemma_filled_total(tiles::leaf_refs(&tree), octree_laws::mark(x));
    }
    assert forall|x: usize| #[trigger] plan.holds_mesh(x) <==> x < mesh_centers.len() by {
        lemma_leaves_mark(leaves, x);
        if plan.holds_mesh(x) {
            let i = choose|i: int| plan.holds(i, x);
            assert(leaves[i].mesh_ids@.contains(x));
        }
        if x < mesh_centers.len() {
            let i = choose|i: int|
                0 <= i < leaves.len() && (#[trigger] leaves[i]).mesh_ids@.contains(x);
            assert(plan.holds(i, x));
        }
    }
    assert forall|i: int, j: int, x: usize|
        #[trigger] plan.holds(i, x) && #[trigger] plan.holds(j, x) implies i == j by {
        lemma_leaves_mark(leaves, x);
        assert(leaves[i].mesh_ids@.contains(x));
        assert(leaves[j].mesh_ids@.contains(x));
    }
    tiles::law_merge_keeps_meshes(plan, centers, small, max_tri);
}

/// The weight of a mesh by its triangles.
pub open spec fn triangle_weight(mesh_tris: Seq<u64>) -> spec_fn(usize) -> nat {
    |x: usize| mesh_tris[x as int] as nat
}

pub proof fn lemma_triangle_total(mesh_tris: Seq<u64>, ids: Seq<usize>)
    ensures
        octree_laws::total(ids, triangle_weight(mesh_tris)) == octree::triangles(mesh_tris, ids),
    decreases ids.len(),
{
    if ids.len() > 0 {
        lemma_triangle_total(mesh_tris, ids.drop_last());
    }
}

/// One leaf weighs no more than all.
proof fn lemma_one_leaf(leaves: Seq<&OctreeNode>, w: spec_fn(usize) -> nat, i: int)
    requires
        0 <= i < leaves.len(),
    ensures
        octree_laws::total(leaves[i].mesh_ids@, w) <= leaves_total(leaves, w),
    decreases leaves.len(),
{
    if i < leaves.len() - 1 {
        lemma_one_leaf(leaves.drop_last(), w, i);
    }
}

/// No mesh occurs twice in a leaf of an octree that is built of meshes.
pub proof fn lemma_leaf_occurrences(
    builder: OctreeBuilder,
    tree: OctreeNode,
    bounds: Aabb,
    mesh_centers: Seq<[F64; 3]>,
    mesh_tris: Seq<u64>,
    i: int,
    x: usize,
)
    requires
        mesh_centers.len() <= usize::MAX,
        builder.built(
            tree,
            bounds,
            octree::first_ids(mesh_centers.len()),
            mesh_centers,
            mesh_tris,
            0,
        ),
        0 <= i < tiles::filled(tiles::leaf_refs(&tree)).len(),
    ensures
        octree_laws::occurrences(
            tiles::filled(tiles::leaf_refs(&tree))[i].mesh_ids@,
            x,
        ) <= 1,
{
    let all = tiles::leaf_refs(&tree);
    let m = octree_laws::mark(x);
    octree_laws::law_each_mesh_once(builder, tree, bounds, mesh_centers, mesh_tris, x);
    lemma_one_leaf(tiles::filled(all), m, i);
    lemma_filled_total(all, m);
    lemma_subtree_total(tree, m);
    assert(refs(tree.leaves()) =~= all);
}

/// The leaves of an octree that is built of meshes hold these alone, and no leaf holds
/// more triangles than all meshes together have.
pub proof fn law_built_countable(
    builder: OctreeBuilder,
    tree: OctreeNode,
    bounds: Aabb,
    mesh_centers: Seq<[F64; 3]>,
    mesh_tris: Seq<u64>,
)
    requires
        mesh_centers.len() <= usize::MAX,
        mesh_centers.len() <= mesh_tris.len(),
        octree::triangles(mesh_tris, octree::first_ids(mesh_centers.len())) <= u64::MAX,
        builder.built(
            tree,
            bounds,
            octree::first_ids(mesh_centers.len()),
            mesh_centers,
            mesh_tris,
            0,
        ),
    ensures
        tiles::countable(tiles::filled(tiles::leaf_refs(&tree)), mesh_tris),
{
    let ids = octree::first_ids(mesh_centers.len());
    let w = triangle_weight(mesh_tris);
    let all = tiles::leaf_refs(&tree);
    let leaves = tiles::filled(all);
    octree_laws::law_total_kept(builder, tree, bounds, ids, mesh_centers, mesh_tris, 0, w);
    lemma_triangle_total(mesh_tris, ids);
    lemma_subtree_total(tree, w);
    assert(refs(tree.leaves()) =~= all);
    lemma_filled_total(all, w);
    assert forall|i: int| #![trigger leaves[i]] 0 <= i < leaves.len() implies octree::below(
        leaves[i].mesh_ids@,
        mesh_tris.len(),
    ) && octree::triangles(mesh_tris, leaves[i].mesh_ids@) <= u64::MAX by {
        lemma_one_leaf(leaves, w, i);
        lemma_triangle_total(mesh_tris, leaves[i].mesh_ids@);
        let held = leaves[i].mesh_ids@;
        assert forall|k: int| 0 <= k < held.len() implies #[trigger] held[k] < mesh_tris.len() by {
            let x = held[k];
            let m = octree_laws::mark(x);
            octree_laws::law_each_mesh_once(builder, tree, bounds, mesh_centers, mesh_tris, x);
            lemma_mark(held, x);
            assert(held.contains(x));
            lemma_one_leaf(leaves, m, i);
            lemma_filled_total(all, m);
            lemma_subtree_total(tree, m);
        }
    }
}

} // verus!
