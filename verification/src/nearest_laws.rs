//! How near a small tile is to the one that it joins.

use crate::float::F64;
use crate::ieee;
use crate::nearness;
use crate::octree::OctreeNode;
use crate::order;
use crate::tiles;
use crate::tiles::Plan;
use vstd::arithmetic::power2::*;
use vstd::prelude::*;

verus! {

/// The distance that tiles are compared by is the exact one over all three axes, squared,
/// up to one part in `2^48`, and two of the smallest positive number.
pub proof fn law_distance_near(a: [F64; 3], b: [F64; 3])
    requires
        tiles::distance(a, b).finite(),
    ensures
        ieee::abs_of(tiles::distance(a, b).rank() * nearness::one64() - nearness::apart(a, b)) * pow2(48)
            <= nearness::apart(a, b) + nearness::one64() * pow2(49),
{
    nearness::lemma_apart_near(a, b);
}

/// The distance of two points in reach is finite.
proof fn lemma_distance_finite(a: [F64; 3], b: [F64; 3])
    requires
        nearness::in_reach(a),
        nearness::in_reach(b),
    ensures
        tiles::distance(a, b).finite(),
{
    nearness::lemma_apart_finite(a, b);
}

/// Whether tile `i` may take in the small tile `s`: it is another one that was not merged
/// away, holds two megabytes or more, and has room.
pub open spec fn may_join(plan: Plan, s: int, i: int, max_tri: u64) -> bool {
    &&& 0 <= i < plan.tris.len()
    &&& i != s
    &&& !plan.dead[i]
    &&& plan.tris[i] >= 31746
    &&& plan.tris[i] + plan.tris[s] <= max_tri
}

/// Whether tile `h` is no farther from tile `s` than tile `i` is, up to rounding.
pub open spec fn no_farther(centers: Seq<[F64; 3]>, s: int, h: int, i: int) -> bool {
    nearness::apart(centers[s], centers[h]) * (pow2(48) - 1) <= nearness::apart(centers[s], centers[i]) * (pow2(48)
        + 1) + nearness::one64() * pow2(50)
}

proof fn lemma_host(plan: Plan, centers: Seq<[F64; 3]>, s: int, max_tri: u64, n: nat)
    requires
        plan.tris.len() == centers.len(),
        n <= centers.len(),
        0 <= s < centers.len(),
        forall|j: int| 0 <= j < centers.len() ==> nearness::in_reach(#[trigger] centers[j]),
    ensures
        ({
            let best = plan.host_of(centers, s, max_tri, n);
            &&& best.0 matches Some(h) ==> h < n && may_join(plan, s, h, max_tri) && best.1
                == tiles::distance(centers[s], centers[h])
            &&& best.0 is None ==> best.1 == (F64 { bits: crate::float::INF64 })
            &&& forall|i: int|
                0 <= i < n && #[trigger] may_join(plan, s, i, max_tri) ==> best.0 is Some
                    && best.1.rank() <= tiles::distance(centers[s], centers[i]).rank()
        }),
    decreases n,
{
    if n > 0 {
        lemma_host(plan, centers, s, max_tri, (n - 1) as nat);
        let i = n - 1;
        assert(nearness::in_reach(centers[s]) && nearness::in_reach(centers[i]));
        lemma_distance_finite(centers[s], centers[i]);
        nearness::lemma_infinity_above(tiles::distance(centers[s], centers[i]));
        let before = plan.host_of(centers, s, max_tri, i as nat);
        if let Some(h) = before.0 {
            assert(nearness::in_reach(centers[h]));
            lemma_distance_finite(centers[s], centers[h]);
        }
    }
}

/// A small tile joins the nearest tile that may take it in: wherever there is one, it is
/// merged away, one tile gets its meshes and its triangles, and no tile that might have
/// taken it in is nearer, by the distance of the midpoints of their cells over all three
/// axes, up to rounding. All other tiles stay as they are, and without such a tile so does
/// the small one.
pub proof fn law_joins_nearest(plan: Plan, centers: Seq<[F64; 3]>, s: int, max_tri: u64)
    requires
        plan.ids.len() == centers.len(),
        plan.tris.len() == centers.len(),
        plan.dead.len() == centers.len(),
        0 <= s < centers.len(),
        !plan.dead[s],
        forall|j: int| 0 <= j < centers.len() ==> nearness::in_reach(#[trigger] centers[j]),
    ensures
        ({
            let after = plan.merged(centers, s, max_tri);
            &&& (forall|i: int| !#[trigger] may_join(plan, s, i, max_tri)) ==> after == plan
            &&& (exists|i: int| #[trigger] may_join(plan, s, i, max_tri)) ==> exists|h: int|
                {
                    &&& #[trigger] may_join(plan, s, h, max_tri)
                    &&& forall|i: int|
                        #[trigger] may_join(plan, s, i, max_tri) ==> no_farther(centers, s, h, i)
                    &&& after.dead == plan.dead.update(s, true)
                    &&& after.tris == plan.tris.update(h, (plan.tris[h] + plan.tris[s]) as u64)
                    &&& forall|i: int|
                        0 <= i < centers.len() && i != h ==> #[trigger] after.ids[i] == plan.ids[i]
                    &&& forall|x: usize|
                        #[trigger] after.ids[h].contains(x) <==> plan.ids[h].contains(x)
                            || plan.ids[s].contains(x)
                }
        }),
{
    let n = centers.len();
    lemma_host(plan, centers, s, max_tri, n);
    let after = plan.merged(centers, s, max_tri);
    match plan.host_of(centers, s, max_tri, n).0 {
        Some(h) => {
            assert(may_join(plan, s, h, max_tri));
            lemma_joined(plan.ids[h], plan.ids[s]);
            assert forall|i: int| #[trigger] may_join(plan, s, i, max_tri) implies no_farther(
                centers,
                s,
                h,
                i,
            ) by {
                assert(nearness::in_reach(centers[s]) && nearness::in_reach(centers[i]) && nearness::in_reach(centers[h]));
                lemma_distance_finite(centers[s], centers[i]);
                lemma_distance_finite(centers[s], centers[h]);
                nearness::lemma_apart_ordered(centers[s], centers[h], centers[s], centers[i]);
            }
        },
        None => {},
    }
}

/// The meshes of two tiles together.
proof fn lemma_joined(a: Seq<usize>, b: Seq<usize>)
    ensures
        forall|x: usize|
            #[trigger] crate::order::sorted_set(a + b).contains(x) <==> a.contains(x)
                || b.contains(x),
{
    tiles::lemma_sorted_set_exists(a + b);
    assert forall|x: usize| (a + b).contains(x) <==> a.contains(x) || b.contains(x) by {
        if a.contains(x) {
            let k = choose|k: int| 0 <= k < a.len() && a[k] == x;
            assert((a + b)[k] == x);
        }
        if b.contains(x) {
            let k = choose|k: int| 0 <= k < b.len() && b[k] == x;
            assert((a + b)[a.len() + k] == x);
        }
    }
}

/// Small tiles are merged one after the other, those with the fewest triangles first: each
/// tile of less than two megabytes, 63 bytes to the triangle, has its turn once.
pub proof fn law_fewest_first(leaves: Seq<&OctreeNode>, mesh_tris: Seq<u64>, max_tri: u64)
    requires
        leaves.len() <= usize::MAX,
    ensures
        exists|small: Seq<usize>|
            {
                let start = tiles::seeded(leaves, mesh_tris);
                &&& #[trigger] tiles::seeded(leaves, mesh_tris).merged_all(
                    tiles::leaf_centers(leaves),
                    small,
                    max_tri,
                ) == tiles::planned(leaves, mesh_tris, max_tri)
                &&& forall|x: usize|
                    #[trigger] small.contains(x) <==> x < leaves.len() && start.tris[x as int] * 63
                        <= 2_000_000 - 63
                &&& forall|i: int, j: int|
                    0 <= i < j < small.len() ==> #[trigger] small[i] != #[trigger] small[j]
                        && start.tris[small[i] as int] <= start.tris[small[j] as int]
            },
{
    let start = tiles::seeded(leaves, mesh_tris);
    let bound = tiles::SMALL_TILE_TRIANGLES as int;
    let small = order::order_of(start.tris, bound);
    order::lemma_order_below_exists(start.tris, bound);
    assert(start.merged_all(tiles::leaf_centers(leaves), small, max_tri) == tiles::planned(
        leaves,
        mesh_tris,
        max_tri,
    ));
    assert forall|i: int, j: int| 0 <= i < j < small.len() implies #[trigger] small[i]
        != #[trigger] small[j] && start.tris[small[i] as int] <= start.tris[small[j] as int] by {
        assert(order::key_before(start.tris, small[i], small[j]));
    }
}

/// Merging in turn is merging the first ones, and then the last.
pub proof fn law_in_turn(
    plan: Plan,
    centers: Seq<[F64; 3]>,
    first: Seq<usize>,
    last: usize,
    max_tri: u64,
)
    ensures
        plan.merged_all(centers, Seq::empty(), max_tri) == plan,
        plan.merged_all(centers, first.push(last), max_tri) == plan.merged_all(
            centers,
            first,
            max_tri,
        ).merged(centers, last as int, max_tri),
{
    assert(first.push(last).drop_last() =~= first);
}

} // verus!
