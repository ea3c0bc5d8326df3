//! The tiles of a single-layer tileset: one for each leaf of the octree that holds
//! a mesh, small ones merged into their neighbours.

use crate::float::{F64, INF64, ONE64};
use crate::octree;
use crate::octree::OctreeNode;
use crate::order;
use vstd::prelude::*;

verus! {

/// A tile of fewer triangles than these, about two megabytes, is small.
pub const SMALL_TILE_TRIANGLES: u64 = 31746;

/// Pattern of a million.
pub const MILLION: u64 = 0x412e_8480_0000_0000;

/// Pattern of the bytes that a triangle takes in a tile, 63.
pub const TRIANGLE_BYTES: u64 = 0x404f_8000_0000_0000;

/// The triangles that fit a tile of `megabytes`, at least one.
pub open spec fn spec_triangle_budget(megabytes: F64) -> u64 {
    megabytes.times(F64 { bits: MILLION }).over(F64 { bits: TRIANGLE_BYTES }).max(
        F64 { bits: ONE64 },
    ).to_uint(u64::MAX)
}

/// The triangles that fit a tile of `megabytes`, at least one: a million bytes to
/// the megabyte and 63 bytes to the triangle.
#[verifier::when_used_as_spec(spec_triangle_budget)]
pub fn triangle_budget(megabytes: F64) -> (r: u64)
    ensures
        r == spec_triangle_budget(megabytes),
{
    megabytes.times(F64 { bits: MILLION }).over(F64 { bits: TRIANGLE_BYTES }).max(
        F64 { bits: ONE64 },
    ).to_uint(u64::MAX)
}

/// The leaves that hold a mesh.
pub open spec fn filled(leaves: Seq<&OctreeNode>) -> Seq<&OctreeNode>
    decreases leaves.len(),
{
    if leaves.len() == 0 {
        Seq::empty()
    } else if leaves.last().mesh_ids@.len() > 0 {
        filled(leaves.drop_last()).push(leaves.last())
    } else {
        filled(leaves.drop_last())
    }
}

/// The leaves of `tree`, by reference.
pub open spec fn leaf_refs(tree: &OctreeNode) -> Seq<&OctreeNode> {
    Seq::new(tree.leaves().len(), |i: int| &tree.leaves()[i])
}

/// The leaves of `tree` that hold a mesh, in order.
pub fn filled_leaves<'a>(tree: &'a OctreeNode) -> (r: Vec<&'a OctreeNode>)
    ensures
        r@ == filled(leaf_refs(tree)),
{
    let mut leaves: Vec<&'a OctreeNode> = Vec::new();
    tree.collect_leaves(&mut leaves);
    proof {
        assert(leaves@ =~= leaf_refs(tree));
    }
    let mut out: Vec<&'a OctreeNode> = Vec::new();
    let mut i: usize = 0;
    while i < leaves.len()
        invariant
            i <= leaves@.len(),
            leaves@ == leaf_refs(tree),
            out@ == filled(leaves@.take(i as int)),
        decreases leaves@.len() - i,
    {
        let leaf: &'a OctreeNode = leaves[i];
        proof {
            assert(leaves@.take(i + 1).drop_last() =~= leaves@.take(i as int));
        }
        if leaf.mesh_ids.len() > 0 {
            out.push(leaf);
        }
        i = i + 1;
    }
    proof {
        assert(leaves@.take(i as int) =~= leaves@);
    }
    out
}

/// What the tiles hold.
#[verifier::ext_equal]
pub struct Plan {
    /// The meshes of each tile.
    pub ids: Seq<Seq<usize>>,
    /// The triangles of each tile.
    pub tris: Seq<u64>,
    /// Which tiles were merged away.
    pub dead: Seq<bool>,
}

/// Tiles on their way to the tileset.
pub struct TileSet {
    /// The midpoints of the tiles' octree cells.
    pub centers: Vec<[F64; 3]>,
    /// The meshes of each tile.
    pub ids: Vec<Vec<usize>>,
    /// The triangles of each tile.
    pub tris: Vec<u64>,
    /// Which tiles were merged away.
    pub dead: Vec<bool>,
}

impl TileSet {
    /// Whether the four lists are of one length.
    pub open spec fn wf(self) -> bool {
        self.ids@.len() == self.centers@.len() && self.tris@.len() == self.centers@.len()
            && self.dead@.len() == self.centers@.len()
    }

    /// What the tiles hold.
    pub open spec fn plan(self) -> Plan {
        Plan {
            ids: Seq::new(self.ids@.len(), |i: int| self.ids@[i]@),
            tris: self.tris@,
            dead: self.dead@,
        }
    }
}

/// The squared distance of two points.
pub open spec fn spec_distance(a: [F64; 3], b: [F64; 3]) -> F64 {
    let dx = a[0].minus(b[0]);
    let dy = a[1].minus(b[1]);
    let dz = a[2].minus(b[2]);
    dx.times(dx).plus(dy.times(dy)).plus(dz.times(dz))
}

/// The squared distance of two points.
#[verifier::when_used_as_spec(spec_distance)]
pub fn distance(a: [F64; 3], b: [F64; 3]) -> (r: F64)
    ensures
        r == spec_distance(a, b),
{
    let dx: F64 = a[0].minus(b[0]);
    let dy: F64 = a[1].minus(b[1]);
    let dz: F64 = a[2].minus(b[2]);
    dx.times(dx).plus(dy.times(dy)).plus(dz.times(dz))
}

impl Plan {
    /// Whether tile `i` can take in tile `s`: it lives, is not small itself, and has room.
    pub open spec fn can_host(self, s: int, i: int, max_tri: u64) -> bool {
        i != s && !self.dead[i] && self.tris[i] >= SMALL_TILE_TRIANGLES && self.tris[i]
            + self.tris[s] <= max_tri
    }

    /// The first of the first `n` tiles that can take in tile `s` and is nearest to
    /// it, with its squared distance.
    pub open spec fn host_of(
        self,
        centers: Seq<[F64; 3]>,
        s: int,
        max_tri: u64,
        n: nat,
    ) -> (Option<int>, F64)
        decreases n,
    {
        if n == 0 {
            (None, F64 { bits: INF64 })
        } else {
            let best = self.host_of(centers, s, max_tri, (n - 1) as nat);
            let d = distance(centers[s], centers[n - 1]);
            if self.can_host(s, n - 1, max_tri) && d.lt(best.1) {
                (Some(n - 1), d)
            } else {
                best
            }
        }
    }

    /// Merges tile `s` into its nearest host, if it has one.
    pub open spec fn merged(self, centers: Seq<[F64; 3]>, s: int, max_tri: u64) -> Plan {
        if self.dead[s] {
            self
        } else {
            match self.host_of(centers, s, max_tri, centers.len()).0 {
                None => self,
                Some(b) => Plan {
                    ids: self.ids.update(b, order::sorted_set(self.ids[b] + self.ids[s])),
                    tris: self.tris.update(b, (self.tris[b] + self.tris[s]) as u64),
                    dead: self.dead.update(s, true),
                },
            }
        }
    }

    /// Merges the tiles `small`, one after the other.
    pub open spec fn merged_all(
        self,
        centers: Seq<[F64; 3]>,
        small: Seq<usize>,
        max_tri: u64,
    ) -> Plan
        decreases small.len(),
    {
        if small.len() == 0 {
            self
        } else {
            self.merged_all(centers, small.drop_last(), max_tri).merged(
                centers,
                small.last() as int,
                max_tri,
            )
        }
    }
}

/// The tile nearest to tile `s` that can take it in.
fn find_host(tiles: &TileSet, s: usize, max_tri: u64) -> (r: Option<usize>)
    requires
        tiles.wf(),
        s < tiles.centers@.len(),
    ensures
        match r {
            None => tiles.plan().host_of(
                tiles.centers@,
                s as int,
                max_tri,
                tiles.centers@.len(),
            ).0 is None,
            Some(b) => tiles.plan().host_of(
                tiles.centers@,
                s as int,
                max_tri,
                tiles.centers@.len(),
            ).0 == Some(b as int) && b < tiles.centers@.len() && tiles.plan().can_host(
                s as int,
                b as int,
                max_tri,
            ),
        },
{
    let mut best: Option<usize> = None;
    let mut best_dist = F64 { bits: INF64 };
    let mut i: usize = 0;
    while i < tiles.centers.len()
        invariant
            tiles.wf(),
            s < tiles.centers@.len(),
            i <= tiles.centers@.len(),
            best_dist == tiles.plan().host_of(tiles.centers@, s as int, max_tri, i as nat).1,
            match best {
                None => tiles.plan().host_of(tiles.centers@, s as int, max_tri, i as nat).0 is None,
                Some(b) => tiles.plan().host_of(tiles.centers@, s as int, max_tri, i as nat).0
                    == Some(b as int) && b < i && tiles.plan().can_host(
                    s as int,
                    b as int,
                    max_tri,
                ),
            },
        decreases tiles.centers@.len() - i,
    {
        if i != s && !tiles.dead[i] && tiles.tris[i] >= SMALL_TILE_TRIANGLES
            && tiles.tris[i] as u128 + tiles.tris[s] as u128 <= max_tri as u128 {
            let d: F64 = distance(tiles.centers[s], tiles.centers[i]);
            if d.lt(best_dist) {
                best_dist = d;
                best = Some(i);
            }
        }
        i = i + 1;
    }
    best
}

/// Merges the tiles `small`, in that order, each into the nearest living tile that is not
/// small and with which it has at most `max_tri` triangles; a tile without such a
/// neighbour stays.
pub fn merge_small_tiles(tiles: &mut TileSet, small: &Vec<usize>, max_tri: u64)
    requires
        old(tiles).wf(),
        octree::below(small@, old(tiles).centers@.len()),
    ensures
        final(tiles).wf(),
        final(tiles).centers@ == old(tiles).centers@,
        final(tiles).plan() == old(tiles).plan().merged_all(
            old(tiles).centers@,
            small@,
            max_tri,
        ),
{
    let ghost start = tiles.plan();
    let ghost centers = tiles.centers@;
    let mut k: usize = 0;
    while k < small.len()
        invariant
            k <= small@.len(),
            tiles.wf(),
            tiles.centers@ == centers,
            octree::below(small@, centers.len()),
            tiles.plan() == start.merged_all(centers, small@.take(k as int), max_tri),
        decreases small@.len() - k,
    {
        let s: usize = small[k];
        let ghost before = tiles.plan();
        proof {
            assert(small@.take(k + 1).drop_last() =~= small@.take(k as int));
            assert(small@.take(k + 1).last() == s);
        }
        if !tiles.dead[s] {
            let host: Option<usize> = find_host(tiles, s, max_tri);
            if let Some(b) = host {
                let mut both: Vec<usize> = Vec::new();
                both.extend_from_slice(tiles.ids[b].as_slice());
                both.extend_from_slice(tiles.ids[s].as_slice());
                proof {
                    assert(both@ =~= before.ids[b as int] + before.ids[s as int]);
                }
                let ids: Vec<usize> = order::sorted_unique(&both);
                let sum: u64 = tiles.tris[b] + tiles.tris[s];
                tiles.ids.set(b, ids);
                tiles.tris.set(b, sum);
                tiles.dead.set(s, true);
                proof {
                    let after = before.merged(centers, s as int, max_tri);
                    assert(tiles.plan().ids =~= after.ids);
                    assert(tiles.plan().tris =~= after.tris);
                    assert(tiles.plan().dead =~= after.dead);
                    assert(tiles.plan() == after);
                }
            }
        }
        k = k + 1;
    }
    proof {
        assert(small@.take(k as int) =~= small@);
    }
}

/// What the tiles of `leaves` hold before any merging.
pub open spec fn seeded(leaves: Seq<&OctreeNode>, mesh_tris: Seq<u64>) -> Plan {
    Plan {
        ids: Seq::new(leaves.len(), |i: int| leaves[i].mesh_ids@),
        tris: Seq::new(
            leaves.len(),
            |i: int| octree::triangles(mesh_tris, leaves[i].mesh_ids@) as u64,
        ),
        dead: Seq::new(leaves.len(), |i: int| false),
    }
}

/// Whether the leaves hold known meshes whose triangles can be counted.
pub open spec fn countable(leaves: Seq<&OctreeNode>, mesh_tris: Seq<u64>) -> bool {
    forall|i: int|
        #![trigger leaves[i]]
        0 <= i < leaves.len() ==> octree::below(leaves[i].mesh_ids@, mesh_tris.len())
            && octree::triangles(mesh_tris, leaves[i].mesh_ids@) <= u64::MAX
}

/// The midpoints of the cells of `leaves`.
pub open spec fn leaf_centers(leaves: Seq<&OctreeNode>) -> Seq<[F64; 3]> {
    Seq::new(
        leaves.len(),
        |i: int|
            [
                leaves[i].bounds.middle(0),
                leaves[i].bounds.middle(1),
                leaves[i].bounds.middle(2),
            ],
    )
}

/// One tile for each of `leaves`.
pub fn seed_tiles(leaves: &Vec<&OctreeNode>, mesh_tris: &[u64]) -> (r: TileSet)
    requires
        countable(leaves@, mesh_tris@),
    ensures
        r.wf(),
        r.plan() == seeded(leaves@, mesh_tris@),
        r.centers@ == leaf_centers(leaves@),
{
    let mut tiles = TileSet {
        centers: Vec::new(),
        ids: Vec::new(),
        tris: Vec::new(),
        dead: Vec::new(),
    };
    let mut i: usize = 0;
    while i < leaves.len()
        invariant
            i <= leaves@.len(),
            countable(leaves@, mesh_tris@),
            tiles.wf(),
            tiles.centers@ == leaf_centers(leaves@.take(i as int)),
            tiles.plan() == seeded(leaves@.take(i as int), mesh_tris@),
        decreases leaves@.len() - i,
    {
        let leaf: &OctreeNode = leaves[i];
        proof {
            assert(leaves@[i as int] == leaf);
        }
        let ghost before = tiles.plan();
        let ghost centers = tiles.centers@;
        let center: [F64; 3] = leaf.bounds.center();
        tiles.centers.push(center);
        let mut ids: Vec<usize> = Vec::new();
        ids.extend_from_slice(leaf.mesh_ids.as_slice());
        proof {
            assert(ids@ =~= leaf.mesh_ids@);
        }
        tiles.ids.push(ids);
        let tris: u64 = octree::count_triangles(mesh_tris, leaf.mesh_ids.as_slice());
        tiles.tris.push(tris);
        tiles.dead.push(false);
        i = i + 1;
        proof {
            let want = seeded(leaves@.take(i as int), mesh_tris@);
            assert forall|k: int| 0 <= k < i implies tiles.plan().ids[k] == want.ids[k] by {
                if k < i - 1 {
                    assert(tiles.plan().ids[k] == before.ids[k]);
                }
            }
            assert(tiles.plan().ids =~= want.ids);
            assert(tiles.plan().tris =~= want.tris);
            assert(tiles.plan().dead =~= want.dead);
            let mid = leaf_centers(leaves@.take(i as int));
            assert(center =~= mid[i - 1]);
            assert(tiles.centers@ =~= mid) by {
                assert(centers =~= mid.take(i - 1));
            }
        }
    }
    proof {
        assert(leaves@.take(i as int) =~= leaves@);
    }
    tiles
}

/// What the tiles of a single-layer tileset hold: those of `leaves`, the small ones
/// merged, fewest triangles first.
pub open spec fn planned(leaves: Seq<&OctreeNode>, mesh_tris: Seq<u64>, max_tri: u64) -> Plan {
    let start = seeded(leaves, mesh_tris);
    start.merged_all(
        leaf_centers(leaves),
        order::order_of(start.tris, SMALL_TILE_TRIANGLES as int),
        max_tri,
    )
}

/// The tiles of a single-layer tileset: one for each of `leaves`, the small ones
/// merged, fewest triangles first, as far as `max_tri` triangles to a tile allow.
pub fn plan_tiles(leaves: &Vec<&OctreeNode>, mesh_tris: &[u64], max_tri: u64) -> (r: TileSet)
    requires
        countable(leaves@, mesh_tris@),
    ensures
        r.wf(),
        r.centers@ == leaf_centers(leaves@),
        r.plan() == planned(leaves@, mesh_tris@, max_tri),
{
    let mut tiles: TileSet = seed_tiles(leaves, mesh_tris);
    let small: Vec<usize> = order::order_below(&tiles.tris, SMALL_TILE_TRIANGLES as u128);
    proof {
        assert forall|j: int| 0 <= j < small@.len() implies #[trigger] small@[j]
            < tiles.centers@.len() by {
            assert(small@.contains(small@[j]));
        }
    }
    merge_small_tiles(&mut tiles, &small, max_tri);
    tiles
}

/// The living tiles among the first `n`.
pub open spec fn alive(dead: Seq<bool>, n: nat) -> Seq<usize>
    decreases n,
{
    if n == 0 {
        Seq::empty()
    } else if dead[n - 1] {
        alive(dead, (n - 1) as nat)
    } else {
        alive(dead, (n - 1) as nat).push((n - 1) as usize)
    }
}

/// The tiles that were not merged away, in order.
pub fn living_tiles(tiles: &TileSet) -> (r: Vec<usize>)
    ensures
        r@ == alive(tiles.dead@, tiles.dead@.len()),
{
    let mut out: Vec<usize> = Vec::new();
    let mut i: usize = 0;
    while i < tiles.dead.len()
        invariant
            i <= tiles.dead@.len(),
            out@ == alive(tiles.dead@, i as nat),
        decreases tiles.dead@.len() - i,
    {
        if !tiles.dead[i] {
            out.push(i);
        }
        i = i + 1;
    }
    out
}

impl Plan {
    /// Whether the three lists are of length `n`.
    pub open spec fn wf(self, n: nat) -> bool {
        self.ids.len() == n && self.tris.len() == n && self.dead.len() == n
    }

    /// Whether tile `i` is alive and holds mesh `x`.
    pub open spec fn holds(self, i: int, x: usize) -> bool {
        0 <= i < self.ids.len() && !self.dead[i] && self.ids[i].contains(x)
    }

    /// Whether a living tile holds mesh `x`.
    pub open spec fn holds_mesh(self, x: usize) -> bool {
        exists|i: int| #[trigger] self.holds(i, x)
    }

    /// Whether no mesh is held by two living tiles.
    pub open spec fn disjoint(self) -> bool {
        forall|i: int, j: int, x: usize|
            #[trigger] self.holds(i, x) && #[trigger] self.holds(j, x) ==> i == j
    }

    /// The triangles of the living tiles among the first `n`.
    pub open spec fn living_triangles(self, n: nat) -> nat
        decreases n,
    {
        if n == 0 {
            0
        } else {
            self.living_triangles((n - 1) as nat) + (if self.dead[n - 1] {
                0nat
            } else {
                self.tris[n - 1] as nat
            })
        }
    }

    pub proof fn lemma_host(self, centers: Seq<[F64; 3]>, s: int, max_tri: u64, n: nat)
        ensures
            self.host_of(centers, s, max_tri, n).0 matches Some(b) ==> 0 <= b < n && self.can_host(
                s,
                b,
                max_tri,
            ),
        decreases n,
    {
        if n > 0 {
            self.lemma_host(centers, s, max_tri, (n - 1) as nat);
        }
    }

    proof fn lemma_living_triangles_update(self, other: Plan, s: int, b: int, n: nat)
        requires
            self.wf(self.ids.len()),
            n <= self.ids.len(),
            0 <= s < self.ids.len(),
            0 <= b < self.ids.len(),
            s != b,
            !self.dead[s],
            !self.dead[b],
            self.tris[b] + self.tris[s] <= u64::MAX,
            other.tris == self.tris.update(b, (self.tris[b] + self.tris[s]) as u64),
            other.dead == self.dead.update(s, true),
        ensures
            other.living_triangles(n) + (if s < n {
                self.tris[s] as nat
            } else {
                0
            }) == self.living_triangles(n) + (if b < n {
                self.tris[s] as nat
            } else {
                0
            }),
        decreases n,
    {
        if n > 0 {
            self.lemma_living_triangles_update(other, s, b, (n - 1) as nat);
        }
    }

    proof fn lemma_merged(self, centers: Seq<[F64; 3]>, s: int, max_tri: u64)
        requires
            self.wf(centers.len()),
            0 <= s < centers.len(),
        ensures
            self.merged(centers, s, max_tri).wf(centers.len()),
            forall|x: usize|
                #[trigger] self.merged(centers, s, max_tri).holds_mesh(x) <==> self.holds_mesh(x),
            self.disjoint() ==> self.merged(centers, s, max_tri).disjoint(),
            self.merged(centers, s, max_tri).living_triangles(centers.len())
                == self.living_triangles(centers.len()),
            forall|i: int|
                0 <= i < centers.len() ==> #[trigger] self.merged(centers, s, max_tri).tris[i]
                    == self.tris[i] || self.merged(centers, s, max_tri).tris[i] <= max_tri,
            forall|i: int|
                0 <= i < centers.len() ==> (#[trigger] self.merged(centers, s, max_tri).dead[i]
                    ==> self.dead[i] || i == s),
    {
        self.lemma_host(centers, s, max_tri, centers.len());
        let host = self.host_of(centers, s, max_tri, centers.len()).0;
        let next = self.merged(centers, s, max_tri);
        if !self.dead[s] && host is Some {
            let b = host->0;
            let joint = self.ids[b] + self.ids[s];
            lemma_sorted_set_exists(joint);
            assert forall|x: usize| next.ids[b].contains(x) <==> self.ids[b].contains(x)
                || self.ids[s].contains(x) by {
                assert(order::is_sorted_set(next.ids[b], joint));
                if self.ids[b].contains(x) {
                    let k = choose|k: int| 0 <= k < self.ids[b].len() && self.ids[b][k] == x;
                    assert(joint[k] == x);
                }
                if self.ids[s].contains(x) {
                    let k = choose|k: int| 0 <= k < self.ids[s].len() && self.ids[s][k] == x;
                    assert(joint[self.ids[b].len() + k] == x);
                }
                if joint.contains(x) {
                    let k = choose|k: int| 0 <= k < joint.len() && joint[k] == x;
                    if k < self.ids[b].len() {
                        assert(self.ids[b][k] == x);
                    } else {
                        assert(self.ids[s][k - self.ids[b].len()] == x);
                    }
                }
            }
            assert forall|i: int, x: usize| #[trigger] next.holds(i, x) <==> (i != s && (self.holds(
                i,
                x,
            ) || (i == b && self.holds(s, x)))) by {}
            assert forall|x: usize| #[trigger] next.holds_mesh(x) <==> self.holds_mesh(x) by {
                if self.holds_mesh(x) {
                    let i = choose|i: int| #[trigger] self.holds(i, x);
                    if i == s {
                        assert(next.holds(b, x));
                    } else {
                        assert(next.holds(i, x));
                    }
                }
                if next.holds_mesh(x) {
                    let i = choose|i: int| #[trigger] next.holds(i, x);
                    assert(self.holds(i, x) || self.holds(s, x));
                }
            }
            if self.disjoint() {
                assert forall|i: int, j: int, x: usize| #[trigger] next.holds(i, x)
                    && #[trigger] next.holds(j, x) implies i == j by {
                    assert(self.holds(i, x) || self.holds(s, x));
                    assert(self.holds(j, x) || self.holds(s, x));
                }
            }
            self.lemma_living_triangles_update(next, s, b, centers.len());
        } else {
            assert(next == self);
        }
    }
}

proof fn lemma_insert_sorted(r: Seq<usize>, s: Seq<usize>, x: usize) -> (t: Seq<usize>)
    requires
        order::is_sorted_set(r, s),
    ensures
        order::is_sorted_set(t, s.push(x)),
    decreases r.len(),
{
    assert(forall|y: usize| s.push(x).contains(y) <==> s.contains(y) || y == x) by {
        assert forall|y: usize| s.push(x).contains(y) <==> s.contains(y) || y == x by {
            assert(s.push(x)[s.len() as int] == x);
            if s.contains(y) {
                let k = choose|k: int| 0 <= k < s.len() && s[k] == y;
                assert(s.push(x)[k] == y);
            }
        }
    }
    if r.contains(x) {
        r
    } else {
        lemma_insert(r, x)
    }
}

proof fn lemma_insert(r: Seq<usize>, x: usize) -> (t: Seq<usize>)
    requires
        order::increasing(r),
        !r.contains(x),
    ensures
        order::increasing(t),
        forall|y: usize| #[trigger] t.contains(y) <==> r.contains(y) || y == x,
    decreases r.len(),
{
    if r.len() == 0 || r.last() < x {
        let t = r.push(x);
        assert forall|y: usize| #[trigger] t.contains(y) <==> r.contains(y) || y == x by {
            assert(t[r.len() as int] == x);
            if r.contains(y) {
                let k = choose|k: int| 0 <= k < r.len() && r[k] == y;
                assert(t[k] == y);
            }
        }
        t
    } else {
        let last = r.last();
        assert(r[r.len() - 1] == last);
        assert(r.contains(last));
        let head = r.drop_last();
        assert forall|y: usize| r.contains(y) <==> head.contains(y) || y == last by {
            if r.contains(y) {
                let k = choose|k: int| 0 <= k < r.len() && r[k] == y;
                if k < head.len() {
                    assert(head[k] == y);
                }
            }
            if head.contains(y) {
                let k = choose|k: int| 0 <= k < head.len() && head[k] == y;
                assert(r[k] == y);
            }
        }
        let t0 = lemma_insert(head, x);
        let t = t0.push(last);
        assert forall|i: int| 0 <= i < t0.len() implies #[trigger] t0[i] < last by {
            assert(t0.contains(t0[i]));
            if head.contains(t0[i]) {
                let k = choose|k: int| 0 <= k < head.len() && head[k] == t0[i];
                assert(r[k] < r[r.len() - 1]);
            }
        }
        assert forall|y: usize| #[trigger] t.contains(y) <==> r.contains(y) || y == x by {
            assert(t[t0.len() as int] == last);
            if t0.contains(y) {
                let k = choose|k: int| 0 <= k < t0.len() && t0[k] == y;
                assert(t[k] == y);
            }
            if t.contains(y) {
                let k = choose|k: int| 0 <= k < t.len() && t[k] == y;
                if k < t0.len() {
                    assert(t0[k] == y);
                }
            }
        }
        t
    }
}

/// Every sequence has a sorted set.
pub proof fn lemma_sorted_set_exists(s: Seq<usize>)
    ensures
        order::is_sorted_set(order::sorted_set(s), s),
{
    let r = lemma_make_sorted(s);
    assert(order::is_sorted_set(r, s));
}

proof fn lemma_make_sorted(s: Seq<usize>) -> (r: Seq<usize>)
    ensures
        order::is_sorted_set(r, s),
    decreases s.len(),
{
    if s.len() == 0 {
        let r = Seq::<usize>::empty();
        assert(order::is_sorted_set(r, s));
        r
    } else {
        let r = lemma_make_sorted(s.drop_last());
        let t = lemma_insert_sorted(r, s.drop_last(), s.last());
        assert(s.drop_last().push(s.last()) =~= s);
        t
    }
}

/// Merging loses no mesh and adds none, keeps the number of triangles in the
/// living tiles, lets no two living tiles hold one mesh where none did before, fills
/// no tile beyond `max_tri`, and does away with none but the small tiles.
pub proof fn law_merge_keeps_meshes(
    plan: Plan,
    centers: Seq<[F64; 3]>,
    small: Seq<usize>,
    max_tri: u64,
)
    requires
        plan.wf(centers.len()),
        octree::below(small, centers.len()),
    ensures
        plan.merged_all(centers, small, max_tri).wf(centers.len()),
        forall|x: usize|
            #[trigger] plan.merged_all(centers, small, max_tri).holds_mesh(x) <==> plan.holds_mesh(x),
        plan.disjoint() ==> plan.merged_all(centers, small, max_tri).disjoint(),
        plan.merged_all(centers, small, max_tri).living_triangles(centers.len())
            == plan.living_triangles(centers.len()),
        forall|i: int|
            0 <= i < centers.len() ==> #[trigger] plan.merged_all(centers, small, max_tri).tris[i]
                == plan.tris[i] || plan.merged_all(centers, small, max_tri).tris[i] <= max_tri,
        forall|i: int|
            0 <= i < centers.len() ==> (#[trigger] plan.merged_all(centers, small, max_tri).dead[i]
                ==> plan.dead[i] || small.contains(i as usize)),
    decreases small.len(),
{
    if small.len() > 0 {
        let rest = small.drop_last();
        assert(small[small.len() - 1] < centers.len());
        assert(octree::below(rest, centers.len()));
        law_merge_keeps_meshes(plan, centers, rest, max_tri);
        let mid = plan.merged_all(centers, rest, max_tri);
        mid.lemma_merged(centers, small.last() as int, max_tri);
        let end = mid.merged(centers, small.last() as int, max_tri);
        assert forall|i: int| 0 <= i < centers.len() && #[trigger] end.dead[i] implies plan.dead[i]
            || small.contains(i as usize) by {
            assert(small[small.len() - 1] == small.last());
            if mid.dead[i] && rest.contains(i as usize) {
                let k = choose|k: int| 0 <= k < rest.len() && rest[k] == i as usize;
                assert(small[k] == i as usize);
            }
        }
        assert forall|i: int| 0 <= i < centers.len() implies #[trigger] end.tris[i] == plan.tris[i]
            || end.tris[i] <= max_tri by {
            assert(mid.tris[i] == plan.tris[i] || mid.tris[i] <= max_tri);
        }
    }
}

} // verus!
