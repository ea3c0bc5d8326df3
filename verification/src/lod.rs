//! Levels of detail: which nodes of the octree get a tile of their own, and how
//! much each is simplified.

use crate::float::{F32, F64, ONE32};
use crate::ieee;
use crate::octree::{Aabb, OctreeBuilder, OctreeNode};
use vstd::prelude::*;

verus! {

/// The side, in metres, of the cells that vertices are gathered in on a level: none on
/// the finest, 0, which is left as it is, and about four times as large on each coarser
/// one.
pub open spec fn spec_lod_cell_size(lod_layer: u32) -> F32 {
    if lod_layer == 0 {
        F32 { bits: 0 }
    } else if lod_layer == 1 {
        F32 { bits: 0x3eb3_3333 }
    } else if lod_layer == 2 {
        F32 { bits: 0x3fc0_0000 }
    } else if lod_layer == 3 {
        F32 { bits: 0x40c0_0000 }
    } else {
        F32 { bits: 0x41c0_0000 }
    }
}

/// The side, in metres, of the cells of a level: the finest, 0, has none; levels 1, 2 and
/// 3 have 0.35, 1.5 and 6, and all coarser ones 24.
#[verifier::when_used_as_spec(spec_lod_cell_size)]
pub fn lod_cell_size(lod_layer: u32) -> (r: F32)
    ensures
        r == spec_lod_cell_size(lod_layer),
{
    match lod_layer {
        0 => F32 { bits: 0 },
        1 => F32 { bits: 0x3eb3_3333 },
        2 => F32 { bits: 0x3fc0_0000 },
        3 => F32 { bits: 0x40c0_0000 },
        _ => F32 { bits: 0x41c0_0000 },
    }
}

/// The share of the triangles that is left on a level: of the finest, 0, nothing is
/// taken away, which zero stands for; level 1 has 0.35, and each coarser one, whose cells
/// are about four times as large, a quarter of that of the level before, down to level 4.
pub open spec fn spec_kept_share(lod_layer: u32) -> F32 {
    if lod_layer == 0 {
        F32 { bits: 0 }
    } else if lod_layer == 1 {
        F32 { bits: 0x3eb3_3333 }
    } else if lod_layer == 2 {
        F32 { bits: 0x3db3_3333 }
    } else if lod_layer == 3 {
        F32 { bits: 0x3cb3_3333 }
    } else {
        F32 { bits: 0x3bb3_3333 }
    }
}

/// The share of the triangles that is left on a level; zero where nothing is taken away.
#[verifier::when_used_as_spec(spec_kept_share)]
pub fn kept_share(lod_layer: u32) -> (r: F32)
    ensures
        r == spec_kept_share(lod_layer),
{
    match lod_layer {
        0 => F32 { bits: 0 },
        1 => F32 { bits: 0x3eb3_3333 },
        2 => F32 { bits: 0x3db3_3333 },
        3 => F32 { bits: 0x3cb3_3333 },
        _ => F32 { bits: 0x3bb3_3333 },
    }
}

/// On every level above the finest some, but not all, of the triangles are left, and on a
/// coarser one no more than on a finer one.
pub proof fn law_shares_shrink(fine: u32, coarse: u32)
    requires
        0 < fine <= coarse,
    ensures
        (F32 { bits: 0 }).lt(kept_share(fine)),
        kept_share(fine).lt(F32 { bits: ONE32 }),
        kept_share(coarse).le(kept_share(fine)),
{
    reveal(F32::rank);
    let f = ieee::single();
    let a = kept_share(fine).bits as u64;
    let b = kept_share(coarse).bits as u64;
    ieee::lemma_value_order(f, 0, a);
    ieee::lemma_value_order(f, a, ONE32 as u64);
    ieee::lemma_value_order(f, a, b);
    ieee::lemma_value_order(f, b, a);
}

/// The larger of two depths.
pub open spec fn deeper(a: u32, b: u32) -> u32 {
    if a < b {
        b
    } else {
        a
    }
}

/// The largest depth of `node` and of the leaves below it.
pub open spec fn deepest(node: OctreeNode) -> u32
    decreases node, node.children@.len() + 1,
{
    deepest_below(node, node.children@.len())
}

/// The largest depth of `node` and of the leaves of its first `n` children.
pub open spec fn deepest_below(node: OctreeNode, n: nat) -> u32
    decreases node, n,
{
    if n == 0 || n > node.children@.len() {
        node.depth
    } else {
        deeper(deepest_below(node, (n - 1) as nat), deepest(*node.children@[n - 1]))
    }
}

/// The depth of the deepest leaf of the subtree.
///
/// The octree may stop above its greatest depth, so how far a node stands from the
/// finest level is told by its subtree alone.
pub fn subtree_leaf_depth(node: &OctreeNode) -> (r: u32)
    ensures
        r == deepest(*node),
    decreases node,
{
    if node.is_leaf() {
        return node.depth;
    }
    let mut most: u32 = node.depth;
    let mut i: usize = 0;
    while i < node.children.len()
        invariant
            i <= node.children@.len(),
            most == deepest_below(*node, i as nat),
        decreases node.children@.len() - i,
    {
        let d: u32 = subtree_leaf_depth(&node.children[i]);
        if most < d {
            most = d;
        }
        i = i + 1;
    }
    most
}

/// Whether every child in the subtree lies one deeper than its parent.
pub open spec fn layered(node: OctreeNode) -> bool
    decreases node,
{
    forall|i: int|
        #![trigger node.children@[i]]
        0 <= i < node.children@.len() ==> node.children@[i].depth == node.depth + 1 && layered(
            *node.children@[i],
        )
}

/// A built subtree is layered.
pub proof fn law_built_layered(
    builder: OctreeBuilder,
    node: OctreeNode,
    bounds: Aabb,
    ids: Seq<usize>,
    centers: Seq<[F64; 3]>,
    tris: Seq<u64>,
    depth: nat,
)
    requires
        builder.built(node, bounds, ids, centers, tris, depth),
    ensures
        layered(node),
    decreases node,
{
    assert forall|i: int|
        #![trigger node.children@[i]]
        0 <= i < node.children@.len() implies node.children@[i].depth == node.depth + 1 && layered(
        *node.children@[i],
    ) by {
        law_built_layered(
            builder,
            *node.children@[i],
            bounds.octant(i),
            bounds.octant_ids(centers, ids, i),
            centers,
            tris,
            depth + 1,
        );
    }
}

/// In a layered tree the depth that [`subtree_leaf_depth`] finds is that of a leaf.
pub proof fn law_deepest_is_leaf(node: OctreeNode)
    requires
        layered(node),
    ensures
        exists|i: int|
            0 <= i < node.leaves().len() && (#[trigger] node.leaves()[i]).depth == deepest(node),
        deepest(node) >= node.depth,
    decreases node, node.children@.len() + 1,
{
    if node.children@.len() == 0 {
        assert(node.leaves()[0].depth == deepest(node));
    } else {
        lemma_deepest_below_leaf(node, node.children@.len());
        let k = choose|k: int|
            0 <= k < node.leaves_below(node.children@.len()).len() && (
            #[trigger] node.leaves_below(node.children@.len())[k]).depth == deepest_below(
                node,
                node.children@.len(),
            );
        assert(node.leaves()[k].depth == deepest(node));
    }
}

proof fn lemma_deepest_below_leaf(node: OctreeNode, n: nat)
    requires
        layered(node),
        0 < n <= node.children@.len(),
    ensures
        exists|i: int|
            0 <= i < node.leaves_below(n).len() && (#[trigger] node.leaves_below(n)[i]).depth
                == deepest_below(node, n),
        deepest_below(node, n) > node.depth,
    decreases node, n,
{
    let child = *node.children@[n - 1];
    law_deepest_is_leaf(child);
    let before = node.leaves_below((n - 1) as nat);
    let all = node.leaves_below(n);
    let j = choose|j: int|
        0 <= j < child.leaves().len() && (#[trigger] child.leaves()[j]).depth == deepest(child);
    assert(all[before.len() + j] == child.leaves()[j]);
    if n > 1 {
        lemma_deepest_below_leaf(node, (n - 1) as nat);
        let k = choose|k: int|
            0 <= k < before.len() && (#[trigger] before[k]).depth == deepest_below(
                node,
                (n - 1) as nat,
            );
        assert(all[k] == before[k]);
    } else {
        assert(deepest_below(node, 0) == node.depth);
    }
}

/// No leaf lies deeper than what [`subtree_leaf_depth`] finds.
pub proof fn law_no_leaf_deeper(node: OctreeNode, k: int)
    requires
        0 <= k < node.leaves().len(),
    ensures
        node.leaves()[k].depth <= deepest(node),
    decreases node, node.children@.len() + 1,
{
    if node.children@.len() > 0 {
        lemma_leaf_depths_below(node, node.children@.len(), k);
    }
}

proof fn lemma_leaf_depths_below(node: OctreeNode, n: nat, k: int)
    requires
        n <= node.children@.len(),
        0 <= k < node.leaves_below(n).len(),
    ensures
        node.leaves_below(n)[k].depth <= deepest_below(node, n),
    decreases node, n,
{
    let before = node.leaves_below((n - 1) as nat);
    if k < before.len() {
        lemma_leaf_depths_below(node, (n - 1) as nat, k);
    } else {
        law_no_leaf_deeper(*node.children@[n - 1], k - before.len());
    }
}

/// The nodes of the subtree that get a tile, each before its children: all that
/// hold a mesh somewhere below. Each comes with its number in [`OctreeNode::nodes`],
/// `number` being that of `node`, and with the cell size of its level, which is its height
/// over its deepest leaf, at most `lod_levels`.
pub open spec fn lod_nodes<'a>(
    node: &'a OctreeNode,
    number: int,
    lod_levels: u32,
) -> Seq<(usize, &'a OctreeNode, F32)>
    decreases node, node.children@.len() + 1,
{
    if node.subtree_ids().len() == 0 {
        Seq::empty()
    } else {
        seq![(number as usize, node, lod_setting(*node, lod_levels))] + lod_nodes_below(
            node,
            number,
            lod_levels,
            node.children@.len(),
        )
    }
}

/// The nodes below the first `n` children that get a tile.
pub open spec fn lod_nodes_below<'a>(
    node: &'a OctreeNode,
    number: int,
    lod_levels: u32,
    n: nat,
) -> Seq<(usize, &'a OctreeNode, F32)>
    decreases node, n,
{
    if n == 0 || n > node.children@.len() {
        Seq::empty()
    } else {
        lod_nodes_below(node, number, lod_levels, (n - 1) as nat) + lod_nodes(
            &*node.children@[n - 1],
            number + 1 + node.nodes_below((n - 1) as nat).len(),
            lod_levels,
        )
    }
}

/// The level of a node: its height over its deepest leaf, at most `lod_levels`.
pub open spec fn spec_lod_layer(node: &OctreeNode, lod_levels: u32) -> u32 {
    let h = deepest(*node) - node.depth;
    if h < 0 {
        0u32
    } else if h < lod_levels {
        h as u32
    } else {
        lod_levels
    }
}

/// The level of a node: its height over its deepest leaf, at most `lod_levels`.
#[verifier::when_used_as_spec(spec_lod_layer)]
pub fn lod_layer(node: &OctreeNode, lod_levels: u32) -> (r: u32)
    ensures
        r == spec_lod_layer(node, lod_levels),
{
    let most: u32 = subtree_leaf_depth(node);
    let h: u32 = if most < node.depth {
        0
    } else {
        most - node.depth
    };
    if h < lod_levels {
        h
    } else {
        lod_levels
    }
}

/// The cell size of the level of a node.
pub open spec fn lod_setting(node: OctreeNode, lod_levels: u32) -> F32 {
    lod_cell_size(lod_layer(&node, lod_levels))
}

/// In a layered tree the leaves are on the finest level, every other node is above it, and
/// no node is on a finer level than its children.
pub proof fn law_levels_rise(node: OctreeNode, lod_levels: u32)
    requires
        layered(node),
    ensures
        node.children@.len() == 0 ==> lod_layer(&node, lod_levels) == 0,
        node.children@.len() > 0 && lod_levels > 0 ==> lod_layer(&node, lod_levels) > 0,
        forall|i: int|
            0 <= i < node.children@.len() ==> lod_layer(
                &*#[trigger] node.children@[i],
                lod_levels,
            ) <= lod_layer(&node, lod_levels),
{
    if node.children@.len() > 0 {
        lemma_deepest_below_leaf(node, node.children@.len());
        assert forall|i: int| 0 <= i < node.children@.len() implies lod_layer(
            &*#[trigger] node.children@[i],
            lod_levels,
        ) <= lod_layer(&node, lod_levels) by {
            lemma_child_no_deeper(node, node.children@.len(), i);
        }
    }
}

proof fn lemma_child_no_deeper(node: OctreeNode, n: nat, i: int)
    requires
        0 <= i < n <= node.children@.len(),
    ensures
        deepest(*node.children@[i]) <= deepest_below(node, n),
    decreases n,
{
    if i < n - 1 {
        lemma_child_no_deeper(node, (n - 1) as nat, i);
    }
}

/// The number of nodes of the subtree.
pub fn node_count(node: &OctreeNode) -> (r: usize)
    requires
        node.nodes().len() <= usize::MAX,
    ensures
        r == node.nodes().len(),
    decreases node,
{
    let mut n: usize = 1;
    let mut i: usize = 0;
    while i < node.children.len()
        invariant
            i <= node.children@.len(),
            node.nodes().len() <= usize::MAX,
            n == 1 + node.nodes_below(i as nat).len(),
        decreases node.children@.len() - i,
    {
        proof {
            node.lemma_below_grows((i + 1) as nat, node.children@.len());
        }
        n = n + node_count(&node.children[i]);
        i = i + 1;
    }
    n
}

/// Appends the nodes of the subtree that get a tile to `out`.
pub fn collect_lod_nodes<'a>(
    node: &'a OctreeNode,
    number: usize,
    lod_levels: u32,
    out: &mut Vec<(usize, &'a OctreeNode, F32)>,
)
    requires
        number + node.nodes().len() <= usize::MAX,
    ensures
        final(out)@ == old(out)@ + lod_nodes(node, number as int, lod_levels),
    decreases node,
{
    let mut ids: Vec<usize> = Vec::new();
    node.collect_subtree_mesh_ids(&mut ids);
    proof {
        assert(ids@ =~= node.subtree_ids());
    }
    if ids.len() == 0 {
        proof {
            assert(out@ =~= old(out)@ + lod_nodes(node, number as int, lod_levels));
        }
        return ;
    }
    let cell: F32 = lod_cell_size(lod_layer(node, lod_levels));
    out.push((number, node, cell));
    let ghost start = old(out)@.push((number, node, cell));
    let mut next: usize = number + 1;
    let mut i: usize = 0;
    proof {
        assert(out@ =~= start + lod_nodes_below(node, number as int, lod_levels, 0));
    }
    while i < node.children.len()
        invariant
            i <= node.children@.len(),
            number + node.nodes().len() <= usize::MAX,
            next == number + 1 + node.nodes_below(i as nat).len(),
            out@ == start + lod_nodes_below(node, number as int, lod_levels, i as nat),
        decreases node.children@.len() - i,
    {
        proof {
            node.lemma_below_grows((i + 1) as nat, node.children@.len());
        }
        collect_lod_nodes(&node.children[i], next, lod_levels, out);
        next = next + node_count(&node.children[i]);
        proof {
            assert(out@ =~= start + lod_nodes_below(
                node,
                number as int,
                lod_levels,
                (i + 1) as nat,
            ));
        }
        i = i + 1;
    }
    proof {
        assert(out@ =~= old(out)@ + lod_nodes(node, number as int, lod_levels));
    }
}

/// Every leaf that holds a mesh gets a tile, on the level that is left as it is.
pub proof fn law_leaves_kept_whole(node: &OctreeNode, number: int, lod_levels: u32, k: int)
    requires
        0 <= k < node.leaves().len(),
        node.leaves()[k].mesh_ids@.len() > 0,
    ensures
        exists|i: int|
            0 <= i < lod_nodes(node, number, lod_levels).len() && *(#[trigger] lod_nodes(
                node,
                number,
                lod_levels,
            )[i]).1 == node.leaves()[k] && lod_nodes(node, number, lod_levels)[i].2 == (F32 {
                bits: 0,
            }),
        node.subtree_ids().len() > 0,
    decreases node, node.children@.len() + 1,
{
    if node.children@.len() == 0 {
        let t = lod_nodes(node, number, lod_levels)[0];
        assert(deepest(*node) == node.depth);
        assert(*t.1 == node.leaves()[k]);
    } else {
        lemma_leaves_kept_below(node, number, lod_levels, node.children@.len(), k);
        let below = lod_nodes_below(node, number, lod_levels, node.children@.len());
        let i = choose|i: int|
            0 <= i < below.len() && *(#[trigger] below[i]).1 == node.leaves()[k] && below[i].2 == (
            F32 { bits: 0 });
        assert(lod_nodes(node, number, lod_levels)[i + 1] == below[i]);
    }
}

proof fn lemma_leaves_kept_below(
    node: &OctreeNode,
    number: int,
    lod_levels: u32,
    n: nat,
    k: int,
)
    requires
        n <= node.children@.len(),
        0 <= k < node.leaves_below(n).len(),
        node.leaves_below(n)[k].mesh_ids@.len() > 0,
    ensures
        exists|i: int|
            0 <= i < lod_nodes_below(node, number, lod_levels, n).len() && *(
            #[trigger] lod_nodes_below(node, number, lod_levels, n)[i]).1 == node.leaves_below(
                n,
            )[k] && lod_nodes_below(node, number, lod_levels, n)[i].2 == (F32 { bits: 0 }),
        node.ids_below(n).len() > 0,
    decreases node, n,
{
    let before = node.leaves_below((n - 1) as nat);
    let leaf = node.leaves_below(n)[k];
    let head = lod_nodes_below(node, number, lod_levels, (n - 1) as nat);
    let all = lod_nodes_below(node, number, lod_levels, n);
    if k < before.len() {
        lemma_leaves_kept_below(node, number, lod_levels, (n - 1) as nat, k);
        let i = choose|i: int|
            0 <= i < head.len() && *(#[trigger] head[i]).1 == leaf && head[i].2 == (F32 {
                bits: 0,
            });
        assert(all[i] == head[i]);
    } else {
        let child = &*node.children@[n - 1];
        let at = number + 1 + node.nodes_below((n - 1) as nat).len();
        law_leaves_kept_whole(child, at, lod_levels, k - before.len());
        let tail = lod_nodes(child, at, lod_levels);
        let i = choose|i: int|
            0 <= i < tail.len() && *(#[trigger] tail[i]).1 == leaf && tail[i].2 == (F32 {
                bits: 0,
            });
        assert(all[head.len() + i] == tail[i]);
    }
}

/// Whether one of `tiles` is that of node `nd` with the number `m`.
pub open spec fn has_tile(
    tiles: Seq<(usize, &OctreeNode, F32)>,
    m: int,
    nd: OctreeNode,
    lod_levels: u32,
) -> bool {
    exists|i: int|
        0 <= i < tiles.len() && (#[trigger] tiles[i]).0 == m && *tiles[i].1 == nd && tiles[i].2
            == lod_setting(nd, lod_levels)
}

/// Every node that holds a mesh somewhere below gets a tile, under its number, however
/// far it is above or below the others.
pub proof fn law_filled_nodes_get_tiles(node: &OctreeNode, number: int, lod_levels: u32, k: int)
    requires
        0 <= number,
        number + node.nodes().len() <= usize::MAX,
        0 <= k < node.nodes().len(),
        node.nodes()[k].subtree_ids().len() > 0,
    ensures
        has_tile(lod_nodes(node, number, lod_levels), number + k, node.nodes()[k], lod_levels),
        node.subtree_ids().len() > 0,
    decreases node, node.children@.len() + 1,
{
    let nd = node.nodes()[k];
    let all = lod_nodes(node, number, lod_levels);
    if k == 0 {
        assert(all[0].0 == number && *all[0].1 == nd);
    } else {
        let n = node.children@.len();
        assert(node.nodes_below(n)[k - 1] == nd);
        lemma_filled_below(node, number, lod_levels, n, k - 1);
        let below = lod_nodes_below(node, number, lod_levels, n);
        let i = choose|i: int|
            0 <= i < below.len() && (#[trigger] below[i]).0 == number + k && *below[i].1 == nd
                && below[i].2 == lod_setting(nd, lod_levels);
        assert(all[i + 1] == below[i]);
    }
}

proof fn lemma_filled_below(node: &OctreeNode, number: int, lod_levels: u32, n: nat, k: int)
    requires
        0 <= number,
        number + 1 + node.nodes_below(n).len() <= usize::MAX,
        n <= node.children@.len(),
        0 <= k < node.nodes_below(n).len(),
        node.nodes_below(n)[k].subtree_ids().len() > 0,
    ensures
        has_tile(
            lod_nodes_below(node, number, lod_levels, n),
            number + 1 + k,
            node.nodes_below(n)[k],
            lod_levels,
        ),
        node.ids_below(n).len() > 0,
        node.children@.len() > 0,
    decreases node, n,
{
    let before = node.nodes_below((n - 1) as nat);
    let nd = node.nodes_below(n)[k];
    let head = lod_nodes_below(node, number, lod_levels, (n - 1) as nat);
    let all = lod_nodes_below(node, number, lod_levels, n);
    if k < before.len() {
        lemma_filled_below(node, number, lod_levels, (n - 1) as nat, k);
        let i = choose|i: int|
            0 <= i < head.len() && (#[trigger] head[i]).0 == number + 1 + k && *head[i].1 == nd
                && head[i].2 == lod_setting(nd, lod_levels);
        assert(all[i] == head[i]);
    } else {
        let child = &*node.children@[n - 1];
        let at = number + 1 + before.len();
        assert(child.nodes()[k - before.len()] == nd);
        law_filled_nodes_get_tiles(child, at, lod_levels, k - before.len());
        let tail = lod_nodes(child, at, lod_levels);
        let i = choose|i: int|
            0 <= i < tail.len() && (#[trigger] tail[i]).0 == number + 1 + k && *tail[i].1 == nd
                && tail[i].2 == lod_setting(nd, lod_levels);
        assert(all[head.len() + i] == tail[i]);
    }
    node.lemma_below_grows(n, node.children@.len());
}

/// The cells of a level are no smaller than those of a finer one.
pub proof fn law_cells_grow(fine: u32, coarse: u32)
    requires
        fine <= coarse,
    ensures
        lod_cell_size(fine).le(lod_cell_size(coarse)),
{
    reveal(F32::rank);
    let f = ieee::single();
    ieee::lemma_value_order(f, lod_cell_size(coarse).bits as u64, lod_cell_size(fine).bits as u64);
}

/// The cell size of a node is no smaller than that of any node in its subtree.
pub proof fn law_subtree_cells(node: OctreeNode, lod_levels: u32, k: int)
    requires
        layered(node),
        0 <= k < node.nodes().len(),
    ensures
        lod_layer(&node.nodes()[k], lod_levels) <= lod_layer(&node, lod_levels),
        lod_setting(node.nodes()[k], lod_levels).le(lod_setting(node, lod_levels)),
    decreases node, node.children@.len() + 1,
{
    if k > 0 {
        let n = node.children@.len();
        assert(node.nodes()[k] == node.nodes_below(n)[k - 1]);
        lemma_subtree_cells_below(node, lod_levels, n, k - 1);
    }
    law_cells_grow(lod_layer(&node.nodes()[k], lod_levels), lod_layer(&node, lod_levels));
}

proof fn lemma_subtree_cells_below(node: OctreeNode, lod_levels: u32, n: nat, k: int)
    requires
        layered(node),
        n <= node.children@.len(),
        0 <= k < node.nodes_below(n).len(),
    ensures
        lod_layer(&node.nodes_below(n)[k], lod_levels) <= lod_layer(&node, lod_levels),
    decreases node, n,
{
    let before = node.nodes_below((n - 1) as nat);
    if k < before.len() {
        lemma_subtree_cells_below(node, lod_levels, (n - 1) as nat, k);
    } else {
        let child = *node.children@[n - 1];
        law_levels_rise(node, lod_levels);
        law_subtree_cells(child, lod_levels, k - before.len());
    }
}

} // verus!
