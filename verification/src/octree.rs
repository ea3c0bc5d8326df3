//! Octree subdivision of a model by the centres of its meshes.

use crate::float::{F64, HALF64, INF64, NEG_INF64};
use std::collections::HashMap;
use vstd::prelude::*;

verus! {

/// An axis-aligned bounding box.
#[derive(Debug, Clone, Copy)]
pub struct Aabb {
    pub min: [F64; 3],
    pub max: [F64; 3],
}

impl Aabb {
    /// The midpoint of the box along one axis.
    pub open spec fn middle(self, k: int) -> F64 {
        self.min[k].plus(self.max[k]).times(F64 { bits: HALF64 })
    }

    /// Whether octant `i` lies on the upper side of the middle along axis `k`.
    pub open spec fn upper(i: int, k: int) -> bool {
        if k == 0 {
            i % 2 == 1
        } else if k == 1 {
            i / 2 % 2 == 1
        } else {
            i / 4 % 2 == 1
        }
    }

    /// Octant `i` of this box: bit 0 of `i` chooses along x, bit 1 along y, bit 2
    /// along z.
    pub open spec fn octant(self, i: int) -> Aabb {
        Aabb {
            min: [
                if Aabb::upper(i, 0) {
                    self.middle(0)
                } else {
                    self.min[0]
                },
                if Aabb::upper(i, 1) {
                    self.middle(1)
                } else {
                    self.min[1]
                },
                if Aabb::upper(i, 2) {
                    self.middle(2)
                } else {
                    self.min[2]
                },
            ],
            max: [
                if Aabb::upper(i, 0) {
                    self.max[0]
                } else {
                    self.middle(0)
                },
                if Aabb::upper(i, 1) {
                    self.max[1]
                } else {
                    self.middle(1)
                },
                if Aabb::upper(i, 2) {
                    self.max[2]
                } else {
                    self.middle(2)
                },
            ],
        }
    }

    /// Whether every bound of the box is a number.
    pub open spec fn numbers(self) -> bool {
        forall|k: int|
            #![trigger self.min[k]]
            #![trigger self.max[k]]
            0 <= k < 3 ==> !self.min[k].nan() && !self.max[k].nan()
    }

    /// The box that holds nothing.
    pub fn empty() -> (r: Aabb)
        ensures
            r.numbers(),
            forall|k: int|
                #![trigger r.min[k]]
                #![trigger r.max[k]]
                0 <= k < 3 ==> r.min[k] == (F64 { bits: INF64 }) && r.max[k] == (F64 {
                    bits: NEG_INF64,
                }),
    {
        let lo = F64 { bits: INF64 };
        let hi = F64 { bits: NEG_INF64 };
        Aabb { min: [lo, lo, lo], max: [hi, hi, hi] }
    }

    /// Grows the box to hold the point `p`.
    pub fn expand_point(&mut self, p: [F64; 3])
        ensures
            forall|k: int|
                #![trigger final(self).min[k]]
                #![trigger final(self).max[k]]
                0 <= k < 3 ==> {
                    &&& final(self).min[k] == if p[k].lt(old(self).min[k]) {
                        p[k]
                    } else {
                        old(self).min[k]
                    }
                    &&& final(self).max[k] == if old(self).max[k].lt(p[k]) {
                        p[k]
                    } else {
                        old(self).max[k]
                    }
                },
            old(self).numbers() && (forall|k: int| 0 <= k < 3 ==> !(#[trigger] p[k]).nan())
                ==> final(self).contains_point(&p) && final(self).numbers(),
            forall|q: [F64; 3]| #[trigger] old(self).contains_point(&q) ==> final(self).contains_point(
                &q,
            ),
    {
        let mut i: usize = 0;
        while i < 3
            invariant
                i <= 3,
                forall|k: int|
                    #![trigger self.min[k]]
                    #![trigger self.max[k]]
                    0 <= k < 3 ==> {
                        &&& self.min[k] == if k < i && p[k].lt(old(self).min[k]) {
                            p[k]
                        } else {
                            old(self).min[k]
                        }
                        &&& self.max[k] == if k < i && old(self).max[k].lt(p[k]) {
                            p[k]
                        } else {
                            old(self).max[k]
                        }
                    },
            decreases 3 - i,
        {
            if p[i].lt(self.min[i]) {
                self.min[i] = p[i];
            }
            if self.max[i].lt(p[i]) {
                self.max[i] = p[i];
            }
            i = i + 1;
        }
        proof {
            assert forall|q: [F64; 3]| #[trigger] old(self).contains_point(&q) implies self.contains_point(
                &q,
            ) by {
                assert forall|k: int| 0 <= k < 3 implies self.min[k].le(#[trigger] q[k])
                    && q[k].le(self.max[k]) by {
                    assert(old(self).min[k].le(q[k]) && q[k].le(old(self).max[k]));
                }
            }
        }
    }

    /// The midpoint of the box.
    pub fn center(&self) -> (r: [F64; 3])
        ensures
            forall|k: int| 0 <= k < 3 ==> #[trigger] r[k] == self.middle(k),
    {
        let half = F64 { bits: HALF64 };
        [
            self.min[0].plus(self.max[0]).times(half),
            self.min[1].plus(self.max[1]).times(half),
            self.min[2].plus(self.max[2]).times(half),
        ]
    }

    /// The eight octants.
    pub fn split(&self) -> (r: [Aabb; 8])
        ensures
            forall|i: int| 0 <= i < 8 ==> #[trigger] r[i] == self.octant(i),
    {
        let c: [F64; 3] = self.center();
        let mut out: [Aabb; 8] = [*self, *self, *self, *self, *self, *self, *self, *self];
        let mut i: usize = 0;
        while i < 8
            invariant
                i <= 8,
                forall|k: int| 0 <= k < 3 ==> #[trigger] c[k] == self.middle(k),
                forall|j: int| 0 <= j < i ==> #[trigger] out[j] == self.octant(j),
            decreases 8 - i,
        {
            let x: bool = i % 2 == 1;
            let y: bool = i / 2 % 2 == 1;
            let z: bool = i / 4 % 2 == 1;
            let child = Aabb {
                min: [
                    if x {
                        c[0]
                    } else {
                        self.min[0]
                    },
                    if y {
                        c[1]
                    } else {
                        self.min[1]
                    },
                    if z {
                        c[2]
                    } else {
                        self.min[2]
                    },
                ],
                max: [
                    if x {
                        self.max[0]
                    } else {
                        c[0]
                    },
                    if y {
                        self.max[1]
                    } else {
                        c[1]
                    },
                    if z {
                        self.max[2]
                    } else {
                        c[2]
                    },
                ],
            };
            proof {
                assert(child.min =~= self.octant(i as int).min);
                assert(child.max =~= self.octant(i as int).max);
            }
            out[i] = child;
            i = i + 1;
        }
        out
    }

    /// Whether the box holds the point `p`, its faces included.
    pub open spec fn spec_contains_point(&self, p: &[F64; 3]) -> bool {
        forall|k: int| 0 <= k < 3 ==> self.min[k].le(#[trigger] p[k]) && p[k].le(self.max[k])
    }

    /// Whether the box holds the point `p`, its faces included.
    #[verifier::when_used_as_spec(spec_contains_point)]
    pub fn contains_point(&self, p: &[F64; 3]) -> (r: bool)
        ensures
            r == self.spec_contains_point(p),
    {
        let r: bool = self.min[0].le(p[0]) && p[0].le(self.max[0]) && self.min[1].le(p[1])
            && p[1].le(self.max[1]) && self.min[2].le(p[2]) && p[2].le(self.max[2]);
        proof {
            assert(self.spec_contains_point(p) ==> self.min[0].le(p[0]) && self.min[1].le(p[1])
                && self.min[2].le(p[2]));
        }
        r
    }

    /// The larger of the two horizontal side lengths, along x and y.
    pub open spec fn spec_horizontal_extent(&self) -> F64 {
        self.max[0].minus(self.min[0]).max(self.max[1].minus(self.min[1]))
    }

    /// The larger of the two horizontal side lengths, along x and y.
    #[verifier::when_used_as_spec(spec_horizontal_extent)]
    pub fn horizontal_extent(&self) -> (r: F64)
        ensures
            r == self.spec_horizontal_extent(),
    {
        self.max[0].minus(self.min[0]).max(self.max[1].minus(self.min[1]))
    }

    /// The larger of `m` and the side length along axis `k`.
    pub open spec fn widest(self, m: F64, k: int) -> F64 {
        let e = self.max[k].minus(self.min[k]);
        if m.lt(e) {
            e
        } else {
            m
        }
    }

    /// The largest side length; zero where no side has a positive length.
    pub open spec fn spec_max_extent(&self) -> F64 {
        self.widest(self.widest(self.widest(F64 { bits: 0 }, 0), 1), 2)
    }

    /// The largest side length; zero where no side has a positive length.
    #[verifier::when_used_as_spec(spec_max_extent)]
    pub fn max_extent(&self) -> (r: F64)
        ensures
            r == self.spec_max_extent(),
    {
        let mut m = F64 { bits: 0 };
        let mut i: usize = 0;
        while i < 3
            invariant
                i <= 3,
                i == 0 ==> m == (F64 { bits: 0 }),
                i == 1 ==> m == self.widest(F64 { bits: 0 }, 0),
                i == 2 ==> m == self.widest(self.widest(F64 { bits: 0 }, 0), 1),
                i == 3 ==> m == self.spec_max_extent(),
            decreases 3 - i,
        {
            let e: F64 = self.max[i].minus(self.min[i]);
            if m.lt(e) {
                m = e;
            }
            i = i + 1;
        }
        m
    }
}

/// A node of the octree.
#[derive(Debug)]
pub struct OctreeNode {
    pub bounds: Aabb,
    /// The meshes held here; an inner node holds none.
    pub mesh_ids: Vec<usize>,
    /// The children; a leaf has none.
    pub children: Vec<Box<OctreeNode>>,
    pub depth: u32,
}

/// How often `d` occurs as a depth among `nodes`.
pub open spec fn depth_count(nodes: Seq<OctreeNode>, d: u32) -> nat
    decreases nodes.len(),
{
    if nodes.len() == 0 {
        0
    } else {
        depth_count(nodes.drop_last(), d) + (if nodes.last().depth == d {
            1nat
        } else {
            0nat
        })
    }
}

/// Depths of two runs of nodes, counted together.
proof fn lemma_depth_count_add(a: Seq<OctreeNode>, b: Seq<OctreeNode>, d: u32)
    ensures
        depth_count(a + b, d) == depth_count(a, d) + depth_count(b, d),
    decreases b.len(),
{
    if b.len() == 0 {
        assert(a + b =~= a);
    } else {
        lemma_depth_count_add(a, b.drop_last(), d);
        assert((a + b).drop_last() =~= a + b.drop_last());
    }
}

/// The entry of a tally, zero where it has none.
pub open spec fn tallied(m: Map<u32, usize>, d: u32) -> nat {
    if m.contains_key(d) {
        m[d] as nat
    } else {
        0
    }
}

/// Whether `after` is the tally `before` with the depths of `nodes` counted in.
pub open spec fn tally_adds(
    before: Map<u32, usize>,
    nodes: Seq<OctreeNode>,
    after: Map<u32, usize>,
) -> bool {
    forall|d: u32|
        #![trigger after.contains_key(d)]
        #![trigger after[d]]
        {
            &&& after.contains_key(d) <==> before.contains_key(d) || depth_count(nodes, d) > 0
            &&& tallied(after, d) == tallied(before, d) + depth_count(nodes, d)
        }
}

impl OctreeNode {
    /// The nodes of this subtree, each before its children.
    pub open spec fn nodes(self) -> Seq<OctreeNode>
        decreases self, self.children@.len() + 1,
    {
        seq![self] + self.nodes_below(self.children@.len())
    }

    /// The nodes of the subtrees of the first `n` children.
    pub open spec fn nodes_below(self, n: nat) -> Seq<OctreeNode>
        decreases self, n,
    {
        if n == 0 || n > self.children@.len() {
            Seq::empty()
        } else {
            self.nodes_below((n - 1) as nat) + self.children@[n - 1].nodes()
        }
    }

    /// The leaves of this subtree, in order.
    pub open spec fn leaves(self) -> Seq<OctreeNode>
        decreases self, self.children@.len() + 1,
    {
        if self.children@.len() == 0 {
            seq![self]
        } else {
            self.leaves_below(self.children@.len())
        }
    }

    /// The leaves of the subtrees of the first `n` children.
    pub open spec fn leaves_below(self, n: nat) -> Seq<OctreeNode>
        decreases self, n,
    {
        if n == 0 || n > self.children@.len() {
            Seq::empty()
        } else {
            self.leaves_below((n - 1) as nat) + self.children@[n - 1].leaves()
        }
    }

    /// The meshes held by the leaves of this subtree, in order.
    pub open spec fn subtree_ids(self) -> Seq<usize>
        decreases self, self.children@.len() + 1,
    {
        if self.children@.len() == 0 {
            self.mesh_ids@
        } else {
            self.ids_below(self.children@.len())
        }
    }

    /// The meshes held by the leaves of the first `n` children.
    pub open spec fn ids_below(self, n: nat) -> Seq<usize>
        decreases self, n,
    {
        if n == 0 || n > self.children@.len() {
            Seq::empty()
        } else {
            self.ids_below((n - 1) as nat) + self.children@[n - 1].subtree_ids()
        }
    }

    /// Fewer children have fewer leaves and meshes.
    pub proof fn lemma_below_grows(self, n: nat, m: nat)
        requires
            n <= m <= self.children@.len(),
        ensures
            self.leaves_below(n).len() <= self.leaves_below(m).len(),
            self.ids_below(n).len() <= self.ids_below(m).len(),
            self.nodes_below(n).len() <= self.nodes_below(m).len(),
        decreases m,
    {
        if n < m {
            self.lemma_below_grows(n, (m - 1) as nat);
        }
    }

    /// Whether this is a leaf.
    pub open spec fn spec_is_leaf(&self) -> bool {
        self.children@.len() == 0
    }

    /// Whether this is a leaf.
    #[verifier::when_used_as_spec(spec_is_leaf)]
    pub fn is_leaf(&self) -> (r: bool)
        ensures
            r == self.spec_is_leaf(),
    {
        self.children.len() == 0
    }

    /// The number of leaves.
    pub fn leaf_count(&self) -> (r: usize)
        requires
            self.leaves().len() <= usize::MAX,
        ensures
            r == self.leaves().len(),
        decreases self,
    {
        if self.is_leaf() {
            return 1;
        }
        let mut total: usize = 0;
        let mut i: usize = 0;
        while i < self.children.len()
            invariant
                i <= self.children@.len(),
                self.children@.len() > 0,
                self.leaves().len() <= usize::MAX,
                total == self.leaves_below(i as nat).len(),
            decreases self.children@.len() - i,
        {
            proof {
                self.lemma_below_grows((i + 1) as nat, self.children@.len());
            }
            total = total + self.children[i].leaf_count();
            i = i + 1;
        }
        total
    }

    /// The number of meshes that the leaves hold.
    pub fn total_mesh_count(&self) -> (r: usize)
        requires
            self.subtree_ids().len() <= usize::MAX,
        ensures
            r == self.subtree_ids().len(),
        decreases self,
    {
        if self.is_leaf() {
            return self.mesh_ids.len();
        }
        let mut total: usize = 0;
        let mut i: usize = 0;
        while i < self.children.len()
            invariant
                i <= self.children@.len(),
                self.children@.len() > 0,
                self.subtree_ids().len() <= usize::MAX,
                total == self.ids_below(i as nat).len(),
            decreases self.children@.len() - i,
        {
            proof {
                self.lemma_below_grows((i + 1) as nat, self.children@.len());
            }
            total = total + self.children[i].total_mesh_count();
            i = i + 1;
        }
        total
    }

    proof fn lemma_depths_grow(self, i: nat, n: nat, d: u32)
        requires
            i <= n <= self.children@.len(),
        ensures
            depth_count(self.nodes_below(i), d) <= depth_count(self.nodes_below(n), d),
        decreases n,
    {
        if i < n {
            self.lemma_depths_grow(i, (n - 1) as nat, d);
            lemma_depth_count_add(
                self.nodes_below((n - 1) as nat),
                self.children@[n - 1].nodes(),
                d,
            );
        }
    }

    /// Counts the nodes of each depth into `out`.
    pub fn depth_histogram(&self, out: &mut HashMap<u32, usize>)
        requires
            forall|d: u32|
                #![trigger old(out)@.contains_key(d)]
                tallied(old(out)@, d) + depth_count(self.nodes(), d) <= usize::MAX,
        ensures
            tally_adds(old(out)@, self.nodes(), final(out)@),
        decreases self,
    {
        broadcast use vstd::std_specs::hash::group_hash_axioms;

        let seen: usize = match out.get(&self.depth) {
            Some(n) => *n,
            None => 0,
        };
        proof {
            assert(old(out)@.contains_key(self.depth) || !old(out)@.contains_key(self.depth));
            lemma_depth_count_add(
                seq![*self],
                self.nodes_below(self.children@.len()),
                self.depth,
            );
            reveal_with_fuel(depth_count, 2);
        }
        out.insert(self.depth, seen + 1);
        let ghost start = old(out)@;
        proof {
            let one = seq![*self];
            assert(one.drop_last() =~= Seq::<OctreeNode>::empty());
            assert(self.nodes_below(0) =~= Seq::<OctreeNode>::empty());
            assert(one + self.nodes_below(0) =~= one);
            assert forall|d: u32| depth_count(one, d) == if d == self.depth {
                1nat
            } else {
                0nat
            } by {
                reveal_with_fuel(depth_count, 2);
            }
            assert(tally_adds(start, one + self.nodes_below(0), out@));
        }
        let mut i: usize = 0;
        while i < self.children.len()
            invariant
                i <= self.children@.len(),
                forall|d: u32|
                    #![trigger start.contains_key(d)]
                    tallied(start, d) + depth_count(self.nodes(), d) <= usize::MAX,
                tally_adds(start, seq![*self] + self.nodes_below(i as nat), out@),
            decreases self.children@.len() - i,
        {
            let ghost mid = out@;
            let ghost before = seq![*self] + self.nodes_below(i as nat);
            let ghost more = self.children@[i as int].nodes();
            proof {
                assert forall|d: u32| #![trigger mid.contains_key(d)] tallied(mid, d)
                    + depth_count(more, d) <= usize::MAX by {
                    assert(start.contains_key(d) || !start.contains_key(d));
                    self.lemma_depths_grow((i + 1) as nat, self.children@.len(), d);
                    lemma_depth_count_add(seq![*self], self.nodes_below(i as nat), d);
                    lemma_depth_count_add(self.nodes_below(i as nat), more, d);
                    lemma_depth_count_add(seq![*self], self.nodes_below(self.children@.len()), d);
                }
            }
            self.children[i].depth_histogram(out);
            proof {
                assert(seq![*self] + self.nodes_below((i + 1) as nat) =~= before + more);
                assert forall|d: u32|
                    #![trigger out@.contains_key(d)]
                    #![trigger out@[d]]
                    {
                        &&& out@.contains_key(d) <==> start.contains_key(d) || depth_count(
                            before + more,
                            d,
                        ) > 0
                        &&& tallied(out@, d) == tallied(start, d) + depth_count(before + more, d)
                    } by {
                    lemma_depth_count_add(before, more, d);
                    assert(mid.contains_key(d) || !mid.contains_key(d));
                }
            }
            i = i + 1;
        }
    }

    /// Appends the meshes of the whole subtree to `out`.
    pub fn collect_subtree_mesh_ids(&self, out: &mut Vec<usize>)
        ensures
            final(out)@ == old(out)@ + self.subtree_ids(),
        decreases self,
    {
        if self.is_leaf() {
            out.extend_from_slice(self.mesh_ids.as_slice());
            return ;
        }
        let ghost start = out@;
        let mut i: usize = 0;
        proof {
            assert(out@ =~= start + self.ids_below(0));
        }
        while i < self.children.len()
            invariant
                i <= self.children@.len(),
                self.children@.len() > 0,
                out@ == start + self.ids_below(i as nat),
            decreases self.children@.len() - i,
        {
            self.children[i].collect_subtree_mesh_ids(out);
            proof {
                assert(out@ =~= start + self.ids_below((i + 1) as nat));
            }
            i = i + 1;
        }
    }

    /// Appends the leaves of the subtree to `out`.
    pub fn collect_leaves<'a>(&'a self, out: &mut Vec<&'a OctreeNode>)
        ensures
            final(out)@ == old(out)@ + Seq::new(
                self.leaves().len(),
                |i: int| &self.leaves()[i],
            ),
        decreases self,
    {
        if self.is_leaf() {
            out.push(self);
            proof {
                assert(out@ =~= old(out)@ + Seq::new(
                    self.leaves().len(),
                    |i: int| &self.leaves()[i],
                ));
            }
            return ;
        }
        let ghost start = out@;
        let mut i: usize = 0;
        proof {
            assert(out@ =~= start + Seq::new(
                self.leaves_below(0).len(),
                |j: int| &self.leaves_below(0)[j],
            ));
        }
        while i < self.children.len()
            invariant
                i <= self.children@.len(),
                self.children@.len() > 0,
                out@ == start + Seq::new(
                    self.leaves_below(i as nat).len(),
                    |j: int| &self.leaves_below(i as nat)[j],
                ),
            decreases self.children@.len() - i,
        {
            self.children[i].collect_leaves(out);
            proof {
                assert(out@ =~= start + Seq::new(
                    self.leaves_below((i + 1) as nat).len(),
                    |j: int| &self.leaves_below((i + 1) as nat)[j],
                ));
            }
            i = i + 1;
        }
    }
}

/// Parameters of the subdivision.
pub struct OctreeBuilder {
    pub max_depth: u32,
    pub max_meshes_per_leaf: usize,
    pub min_extent: F64,
    /// The most triangles that a tile is meant to hold.
    pub max_triangles_per_tile: u64,
}

/// The triangles of the meshes `ids`, together.
pub open spec fn triangles(tris: Seq<u64>, ids: Seq<usize>) -> nat
    decreases ids.len(),
{
    if ids.len() == 0 {
        0
    } else {
        triangles(tris, ids.drop_last()) + tris[ids.last() as int] as nat
    }
}

/// Whether all of `ids` are below `n`.
pub open spec fn below(ids: Seq<usize>, n: nat) -> bool {
    forall|j: int| 0 <= j < ids.len() ==> #[trigger] ids[j] < n
}

/// The first `n` indices.
pub open spec fn first_ids(n: nat) -> Seq<usize> {
    Seq::new(n, |i: int| i as usize)
}

impl Aabb {
    /// Whether an octant below number `n` holds `p`.
    pub open spec fn held_before(self, p: [F64; 3], n: int) -> bool {
        exists|i: int| 0 <= i < n && (#[trigger] self.octant(i)).contains_point(&p)
    }

    /// Whether octant `i` is the first that holds `p`.
    pub open spec fn first_holder(self, p: [F64; 3], i: int) -> bool {
        0 <= i < 8 && self.octant(i).contains_point(&p) && !self.held_before(p, i)
    }

    /// The squared distance of `p` from the midpoint of octant `i`.
    pub open spec fn octant_distance(self, p: [F64; 3], i: int) -> F64 {
        let c = self.octant(i);
        let dx = p[0].minus(c.middle(0));
        let dy = p[1].minus(c.middle(1));
        let dz = p[2].minus(c.middle(2));
        dx.times(dx).plus(dy.times(dy)).plus(dz.times(dz))
    }

    /// The first of the first `n` octants that is nearest to `p`, with its squared
    /// distance; octant 0 at infinity where no distance is below infinity.
    pub open spec fn nearest_of(self, p: [F64; 3], n: nat) -> (int, F64)
        decreases n,
    {
        if n == 0 {
            (0, F64 { bits: INF64 })
        } else {
            let best = self.nearest_of(p, (n - 1) as nat);
            let d = self.octant_distance(p, n - 1);
            if d.lt(best.1) {
                (n - 1, d)
            } else {
                best
            }
        }
    }

    /// The octant that a mesh centred at `p` goes to: the first that holds `p`, or
    /// where none does the nearest.
    pub open spec fn home(self, p: [F64; 3]) -> int {
        if self.held_before(p, 8) {
            choose|i: int| self.first_holder(p, i)
        } else {
            self.nearest_of(p, 8).0
        }
    }

    /// The octant nearest to `p` is one of the eight.
    proof fn lemma_nearest(self, p: [F64; 3], n: nat)
        ensures
            0 <= self.nearest_of(p, n).0 < (if n == 0 {
                1
            } else {
                n as int
            }),
        decreases n,
    {
        if n > 0 {
            self.lemma_nearest(p, (n - 1) as nat);
        }
    }

    /// Where an octant holds `p`, there is a first one, and only one.
    proof fn lemma_first(self, p: [F64; 3], i: int)
        requires
            self.first_holder(p, i),
        ensures
            self.home(p) == i,
    {
        assert(self.octant(i).contains_point(&p));
        assert(self.held_before(p, 8));
        let j = choose|j: int| self.first_holder(p, j);
        assert(self.first_holder(p, j));
        if j < i {
            assert(self.octant(j).contains_point(&p));
        } else if i < j {
            assert(self.octant(i).contains_point(&p));
        }
    }

    /// A point that some octant holds has a first holder.
    proof fn lemma_holder_exists(self, p: [F64; 3], n: int)
        requires
            0 <= n <= 8,
            self.held_before(p, n),
        ensures
            exists|i: int| i < n && self.first_holder(p, i),
        decreases n,
    {
        let i = choose|i: int| 0 <= i < n && (#[trigger] self.octant(i)).contains_point(&p);
        if self.held_before(p, i) {
            self.lemma_holder_exists(p, i);
            let j = choose|j: int| j < i && self.first_holder(p, j);
            assert(j < n && self.first_holder(p, j));
        } else {
            assert(self.first_holder(p, i));
        }
    }

    /// Every mesh goes to one of the eight octants.
    pub proof fn lemma_home(self, p: [F64; 3])
        ensures
            0 <= self.home(p) < 8,
    {
        if self.held_before(p, 8) {
            self.lemma_holder_exists(p, 8);
            let i = choose|i: int| i < 8 && self.first_holder(p, i);
            self.lemma_first(p, i);
        } else {
            self.lemma_nearest(p, 8);
        }
    }

    /// A mesh whose centre some octant holds goes to one that does.
    pub proof fn lemma_home_holds(self, p: [F64; 3])
        requires
            self.held_before(p, 8),
        ensures
            self.octant(self.home(p)).contains_point(&p),
    {
        self.lemma_holder_exists(p, 8);
        let i = choose|i: int| i < 8 && self.first_holder(p, i);
        self.lemma_first(p, i);
    }

    /// The meshes of `ids` whose centres octant `i` is the first to hold.
    pub open spec fn held_ids(
        self,
        centers: Seq<[F64; 3]>,
        ids: Seq<usize>,
        i: int,
    ) -> Seq<usize>
        decreases ids.len(),
    {
        if ids.len() == 0 {
            Seq::empty()
        } else {
            let rest = self.held_ids(centers, ids.drop_last(), i);
            let p = centers[ids.last() as int];
            if self.held_before(p, 8) && self.home(p) == i {
                rest.push(ids.last())
            } else {
                rest
            }
        }
    }

    /// The meshes of `ids` whose centres no octant holds and octant `i` is nearest
    /// to.
    pub open spec fn stray_ids(
        self,
        centers: Seq<[F64; 3]>,
        ids: Seq<usize>,
        i: int,
    ) -> Seq<usize>
        decreases ids.len(),
    {
        if ids.len() == 0 {
            Seq::empty()
        } else {
            let rest = self.stray_ids(centers, ids.drop_last(), i);
            let p = centers[ids.last() as int];
            if !self.held_before(p, 8) && self.home(p) == i {
                rest.push(ids.last())
            } else {
                rest
            }
        }
    }

    /// The meshes of `ids` that go to octant `i`: those it holds, then those it is
    /// nearest to.
    pub open spec fn octant_ids(
        self,
        centers: Seq<[F64; 3]>,
        ids: Seq<usize>,
        i: int,
    ) -> Seq<usize> {
        self.held_ids(centers, ids, i) + self.stray_ids(centers, ids, i)
    }

    /// The meshes of `ids` whose centres no octant holds.
    pub open spec fn outside_ids(self, centers: Seq<[F64; 3]>, ids: Seq<usize>) -> Seq<usize>
        decreases ids.len(),
    {
        if ids.len() == 0 {
            Seq::empty()
        } else {
            let rest = self.outside_ids(centers, ids.drop_last());
            if !self.held_before(centers[ids.last() as int], 8) {
                rest.push(ids.last())
            } else {
                rest
            }
        }
    }

    /// The strays are found among the meshes that no octant holds.
    proof fn lemma_strays(self, centers: Seq<[F64; 3]>, ids: Seq<usize>, i: int)
        ensures
            self.stray_ids(centers, self.outside_ids(centers, ids), i) == self.stray_ids(
                centers,
                ids,
                i,
            ),
        decreases ids.len(),
    {
        if ids.len() > 0 {
            self.lemma_strays(centers, ids.drop_last(), i);
            let rest = self.outside_ids(centers, ids.drop_last());
            if !self.held_before(centers[ids.last() as int], 8) {
                assert(rest.push(ids.last()).drop_last() =~= rest);
            }
        }
    }

    /// What goes to an octant was there before.
    proof fn lemma_octant_ids_valid(
        self,
        centers: Seq<[F64; 3]>,
        ids: Seq<usize>,
        i: int,
        n: nat,
    )
        requires
            below(ids, n),
        ensures
            below(self.held_ids(centers, ids, i), n),
            below(self.stray_ids(centers, ids, i), n),
            below(self.outside_ids(centers, ids), n),
        decreases ids.len(),
    {
        if ids.len() > 0 {
            assert(ids[ids.len() - 1] < n);
            assert(below(ids.drop_last(), n));
            self.lemma_octant_ids_valid(centers, ids.drop_last(), i, n);
        }
    }

    /// An octant gets no more triangles than there are.
    proof fn lemma_octant_triangles(
        self,
        centers: Seq<[F64; 3]>,
        tris: Seq<u64>,
        ids: Seq<usize>,
        i: int,
    )
        ensures
            triangles(tris, self.held_ids(centers, ids, i)) + triangles(
                tris,
                self.stray_ids(centers, ids, i),
            ) <= triangles(tris, ids),
        decreases ids.len(),
    {
        if ids.len() > 0 {
            let rest = ids.drop_last();
            self.lemma_octant_triangles(centers, tris, rest, i);
            let a = self.held_ids(centers, rest, i);
            let b = self.stray_ids(centers, rest, i);
            assert(a.push(ids.last()).drop_last() =~= a);
            assert(b.push(ids.last()).drop_last() =~= b);
        }
    }
}

/// Triangles of two runs of meshes, together.
pub proof fn lemma_triangles_add(tris: Seq<u64>, a: Seq<usize>, b: Seq<usize>)
    ensures
        triangles(tris, a + b) == triangles(tris, a) + triangles(tris, b),
    decreases b.len(),
{
    if b.len() == 0 {
        assert(a + b =~= a);
    } else {
        lemma_triangles_add(tris, a, b.drop_last());
        assert((a + b).drop_last() =~= a + b.drop_last());
    }
}

/// A prefix has no more triangles.
pub proof fn lemma_triangles_prefix(tris: Seq<u64>, ids: Seq<usize>, n: int)
    requires
        0 <= n <= ids.len(),
    ensures
        triangles(tris, ids.take(n)) <= triangles(tris, ids),
{
    lemma_triangles_add(tris, ids.take(n), ids.skip(n));
    assert(ids.take(n) + ids.skip(n) =~= ids);
}

/// The triangles of the meshes `ids`, together.
pub fn count_triangles(tris: &[u64], ids: &[usize]) -> (r: u64)
    requires
        below(ids@, tris@.len()),
        triangles(tris@, ids@) <= u64::MAX,
    ensures
        r == triangles(tris@, ids@),
{
    let mut total: u64 = 0;
    let mut i: usize = 0;
    while i < ids.len()
        invariant
            i <= ids@.len(),
            below(ids@, tris@.len()),
            triangles(tris@, ids@) <= u64::MAX,
            total == triangles(tris@, ids@.take(i as int)),
        decreases ids@.len() - i,
    {
        proof {
            lemma_triangles_prefix(tris@, ids@, i + 1);
            assert(ids@.take(i + 1).drop_last() =~= ids@.take(i as int));
        }
        total = total + tris[ids[i]];
        i = i + 1;
    }
    proof {
        assert(ids@.take(i as int) =~= ids@);
    }
    total
}

impl OctreeBuilder {
    /// Whether a node with these meshes stays a leaf.
    pub open spec fn stops(
        self,
        bounds: Aabb,
        ids: Seq<usize>,
        tris: Seq<u64>,
        depth: nat,
    ) -> bool {
        ||| depth >= self.max_depth
        ||| ids.len() <= 1
        ||| triangles(tris, ids) <= self.max_triangles_per_tile
        ||| bounds.horizontal_extent().lt(self.min_extent)
    }

    /// Whether `node` is the subtree that subdividing `bounds` gives.
    pub open spec fn built(
        self,
        node: OctreeNode,
        bounds: Aabb,
        ids: Seq<usize>,
        centers: Seq<[F64; 3]>,
        tris: Seq<u64>,
        depth: nat,
    ) -> bool
        decreases node,
    {
        &&& node.bounds == bounds
        &&& node.depth == depth
        &&& if self.stops(bounds, ids, tris, depth) {
            node.mesh_ids@ == ids && node.children@.len() == 0
        } else {
            &&& node.mesh_ids@.len() == 0
            &&& node.children@.len() == 8
            &&& forall|i: int|
                #![trigger node.children@[i]]
                0 <= i < 8 ==> self.built(
                    *node.children@[i],
                    bounds.octant(i),
                    bounds.octant_ids(centers, ids, i),
                    centers,
                    tris,
                    depth + 1,
                )
        }
    }

    /// Builds the octree of the meshes with the given centres and triangle counts.
    pub fn build(
        &self,
        root_bounds: Aabb,
        mesh_centers: &[[F64; 3]],
        mesh_tri_counts: &[u64],
    ) -> (r: OctreeNode)
        requires
            mesh_centers@.len() <= mesh_tri_counts@.len(),
            triangles(mesh_tri_counts@, first_ids(mesh_centers@.len())) <= u64::MAX,
        ensures
            self.built(
                r,
                root_bounds,
                first_ids(mesh_centers@.len()),
                mesh_centers@,
                mesh_tri_counts@,
                0,
            ),
    {
        let mut all_ids: Vec<usize> = Vec::new();
        let n: usize = mesh_centers.len();
        let mut i: usize = 0;
        while i < n
            invariant
                i <= n,
                all_ids@ == first_ids(i as nat),
            decreases n - i,
        {
            all_ids.push(i);
            i = i + 1;
            proof {
                assert(all_ids@ =~= first_ids(i as nat));
            }
        }
        self.build_recursive(root_bounds, all_ids, mesh_centers, mesh_tri_counts, 0)
    }

    /// The number of the octant that a mesh centred at `p` goes to, and whether an
    /// octant holds it.
    fn place(&self, bounds: &Aabb, child_bounds: &[Aabb; 8], p: &[F64; 3]) -> (r: Option<usize>)
        requires
            forall|i: int| 0 <= i < 8 ==> #[trigger] child_bounds[i] == bounds.octant(i),
        ensures
            r is Some <==> bounds.held_before(*p, 8),
            r matches Some(i) ==> i == bounds.home(*p) && i < 8,
    {
        let mut i: usize = 0;
        while i < 8
            invariant
                i <= 8,
                forall|j: int| 0 <= j < 8 ==> #[trigger] child_bounds[j] == bounds.octant(j),
                !bounds.held_before(*p, i as int),
            decreases 8 - i,
        {
            if child_bounds[i].contains_point(p) {
                proof {
                    assert(child_bounds[i as int] == bounds.octant(i as int));
                    assert(bounds.octant(i as int).contains_point(p));
                    assert(bounds.first_holder(*p, i as int));
                    bounds.lemma_first(*p, i as int);
                }
                return Some(i);
            }
            proof {
                assert(child_bounds[i as int] == bounds.octant(i as int));
                if bounds.held_before(*p, i + 1) {
                    let j = choose|j: int|
                        0 <= j < i + 1 && (#[trigger] bounds.octant(j)).contains_point(p);
                    assert(j < i);
                    assert(bounds.octant(j).contains_point(p));
                }
            }
            i = i + 1;
        }
        None
    }

    /// The octant nearest to `p`.
    fn nearest(&self, bounds: &Aabb, child_bounds: &[Aabb; 8], p: &[F64; 3]) -> (r: usize)
        requires
            forall|i: int| 0 <= i < 8 ==> #[trigger] child_bounds[i] == bounds.octant(i),
        ensures
            r == bounds.nearest_of(*p, 8).0,
            r < 8,
    {
        let mut best_idx: usize = 0;
        let mut best_dist = F64 { bits: INF64 };
        let mut i: usize = 0;
        while i < 8
            invariant
                i <= 8,
                best_idx < 8,
                forall|j: int| 0 <= j < 8 ==> #[trigger] child_bounds[j] == bounds.octant(j),
                (best_idx as int, best_dist) == bounds.nearest_of(*p, i as nat),
            decreases 8 - i,
        {
            let cc: [F64; 3] = child_bounds[i].center();
            let dx: F64 = p[0].minus(cc[0]);
            let dy: F64 = p[1].minus(cc[1]);
            let dz: F64 = p[2].minus(cc[2]);
            let d: F64 = dx.times(dx).plus(dy.times(dy)).plus(dz.times(dz));
            proof {
                assert(child_bounds[i as int] == bounds.octant(i as int));
                assert(cc[0] == bounds.octant(i as int).middle(0));
                assert(cc[1] == bounds.octant(i as int).middle(1));
                assert(cc[2] == bounds.octant(i as int).middle(2));
                assert(d == bounds.octant_distance(*p, i as int));
            }
            if d.lt(best_dist) {
                best_dist = d;
                best_idx = i;
            }
            i = i + 1;
        }
        best_idx
    }

    /// Deals the meshes out to the eight octants.
    fn distribute(
        &self,
        bounds: &Aabb,
        child_bounds: &[Aabb; 8],
        mesh_ids: &Vec<usize>,
        mesh_centers: &[[F64; 3]],
    ) -> (r: Vec<Vec<usize>>)
        requires
            forall|i: int| 0 <= i < 8 ==> #[trigger] child_bounds[i] == bounds.octant(i),
            below(mesh_ids@, mesh_centers@.len()),
        ensures
            r@.len() == 8,
            forall|i: int|
                0 <= i < 8 ==> (#[trigger] r@[i])@ == bounds.octant_ids(
                    mesh_centers@,
                    mesh_ids@,
                    i,
                ),
    {
        let mut out: Vec<Vec<usize>> = Vec::new();
        let mut k: usize = 0;
        while k < 8
            invariant
                k <= 8,
                out@.len() == k,
                forall|i: int| 0 <= i < k ==> (#[trigger] out@[i])@ == Seq::<usize>::empty(),
            decreases 8 - k,
        {
            out.push(Vec::new());
            k = k + 1;
        }
        let mut unassigned: Vec<usize> = Vec::new();
        let mut n: usize = 0;
        while n < mesh_ids.len()
            invariant
                n <= mesh_ids@.len(),
                out@.len() == 8,
                forall|i: int| 0 <= i < 8 ==> #[trigger] child_bounds[i] == bounds.octant(i),
                below(mesh_ids@, mesh_centers@.len()),
                unassigned@ == bounds.outside_ids(mesh_centers@, mesh_ids@.take(n as int)),
                forall|i: int|
                    0 <= i < 8 ==> (#[trigger] out@[i])@ == bounds.held_ids(
                        mesh_centers@,
                        mesh_ids@.take(n as int),
                        i,
                    ),
            decreases mesh_ids@.len() - n,
        {
            let id: usize = mesh_ids[n];
            let ghost done = mesh_ids@.take(n as int);
            let ghost before = out@;
            proof {
                assert(mesh_ids@.take(n + 1).drop_last() =~= done);
                assert(mesh_ids@.take(n + 1).last() == id);
            }
            let center: [F64; 3] = mesh_centers[id];
            match self.place(bounds, child_bounds, &center) {
                Some(idx) => {
                    out[idx].push(id);
                    proof {
                        assert forall|i: int| 0 <= i < 8 implies (#[trigger] out@[i])@
                            == bounds.held_ids(mesh_centers@, mesh_ids@.take(n + 1), i) by {
                            assert(before[i]@ == bounds.held_ids(mesh_centers@, done, i));
                        }
                    }
                },
                None => {
                    unassigned.push(id);
                },
            }
            n = n + 1;
        }
        proof {
            assert(mesh_ids@.take(n as int) =~= mesh_ids@);
            bounds.lemma_octant_ids_valid(
                mesh_centers@,
                mesh_ids@,
                0,
                mesh_centers@.len(),
            );
        }
        let mut m: usize = 0;
        let ghost held = out@;
        while m < unassigned.len()
            invariant
                m <= unassigned@.len(),
                out@.len() == 8,
                forall|i: int| 0 <= i < 8 ==> #[trigger] child_bounds[i] == bounds.octant(i),
                below(unassigned@, mesh_centers@.len()),
                unassigned@ == bounds.outside_ids(mesh_centers@, mesh_ids@),
                forall|i: int|
                    0 <= i < 8 ==> (#[trigger] out@[i])@ == bounds.held_ids(
                        mesh_centers@,
                        mesh_ids@,
                        i,
                    ) + bounds.stray_ids(mesh_centers@, unassigned@.take(m as int), i),
            decreases unassigned@.len() - m,
        {
            let id: usize = unassigned[m];
            let ghost done = unassigned@.take(m as int);
            let ghost before = out@;
            proof {
                assert(unassigned@.take(m + 1).drop_last() =~= done);
                assert(unassigned@.take(m + 1).last() == id);
            }
            let center: [F64; 3] = mesh_centers[id];
            let best: usize = self.nearest(bounds, child_bounds, &center);
            out[best].push(id);
            proof {
                lemma_outside_member(*bounds, mesh_centers@, mesh_ids@, m as int);
                assert forall|i: int| 0 <= i < 8 implies (#[trigger] out@[i])@ == bounds.held_ids(
                    mesh_centers@,
                    mesh_ids@,
                    i,
                ) + bounds.stray_ids(mesh_centers@, unassigned@.take(m + 1), i) by {
                    assert(before[i]@ == bounds.held_ids(mesh_centers@, mesh_ids@, i)
                        + bounds.stray_ids(mesh_centers@, done, i));
                    assert(out@[i]@ =~= bounds.held_ids(mesh_centers@, mesh_ids@, i)
                        + bounds.stray_ids(mesh_centers@, unassigned@.take(m + 1), i));
                }
            }
            m = m + 1;
        }
        proof {
            assert(unassigned@.take(m as int) =~= unassigned@);
            assert forall|i: int| 0 <= i < 8 implies (#[trigger] out@[i])@ == bounds.octant_ids(
                mesh_centers@,
                mesh_ids@,
                i,
            ) by {
                bounds.lemma_strays(mesh_centers@, mesh_ids@, i);
            }
        }
        out
    }

    /// Subdivides `bounds` among the meshes `mesh_ids`.
    fn build_recursive(
        &self,
        bounds: Aabb,
        mesh_ids: Vec<usize>,
        mesh_centers: &[[F64; 3]],
        mesh_tri_counts: &[u64],
        depth: u32,
    ) -> (r: OctreeNode)
        requires
            mesh_centers@.len() <= mesh_tri_counts@.len(),
            below(mesh_ids@, mesh_centers@.len()),
            triangles(mesh_tri_counts@, mesh_ids@) <= u64::MAX,
        ensures
            self.built(r, bounds, mesh_ids@, mesh_centers@, mesh_tri_counts@, depth as nat),
        decreases self.max_depth - depth,
    {
        let est_tri: u64 = count_triangles(mesh_tri_counts, mesh_ids.as_slice());
        let stop: bool = depth >= self.max_depth || mesh_ids.len() <= 1 || (mesh_ids.len()
            <= self.max_meshes_per_leaf && est_tri <= self.max_triangles_per_tile) || est_tri
            <= self.max_triangles_per_tile || bounds.horizontal_extent().lt(self.min_extent);
        if stop {
            return OctreeNode { bounds, mesh_ids, children: Vec::new(), depth };
        }
        let child_bounds: [Aabb; 8] = bounds.split();
        let child_meshes: Vec<Vec<usize>> = self.distribute(
            &bounds,
            &child_bounds,
            &mesh_ids,
            mesh_centers,
        );
        let mut children: Vec<Box<OctreeNode>> = Vec::new();
        let mut i: usize = 0;
        while i < 8
            invariant
                i <= 8,
                depth < self.max_depth,
                mesh_centers@.len() <= mesh_tri_counts@.len(),
                below(mesh_ids@, mesh_centers@.len()),
                triangles(mesh_tri_counts@, mesh_ids@) <= u64::MAX,
                forall|j: int| 0 <= j < 8 ==> #[trigger] child_bounds[j] == bounds.octant(j),
                child_meshes@.len() == 8,
                forall|j: int|
                    0 <= j < 8 ==> (#[trigger] child_meshes@[j])@ == bounds.octant_ids(
                        mesh_centers@,
                        mesh_ids@,
                        j,
                    ),
                children@.len() == i,
                forall|j: int|
                    #![trigger children@[j]]
                    0 <= j < i ==> self.built(
                        *children@[j],
                        bounds.octant(j),
                        bounds.octant_ids(mesh_centers@, mesh_ids@, j),
                        mesh_centers@,
                        mesh_tri_counts@,
                        (depth + 1) as nat,
                    ),
            decreases 8 - i,
        {
            proof {
                bounds.lemma_octant_ids_valid(
                    mesh_centers@,
                    mesh_ids@,
                    i as int,
                    mesh_centers@.len(),
                );
                bounds.lemma_octant_triangles(
                    mesh_centers@,
                    mesh_tri_counts@,
                    mesh_ids@,
                    i as int,
                );
                lemma_triangles_add(
                    mesh_tri_counts@,
                    bounds.held_ids(mesh_centers@, mesh_ids@, i as int),
                    bounds.stray_ids(mesh_centers@, mesh_ids@, i as int),
                );
                assert(child_bounds[i as int] == bounds.octant(i as int));
            }
            let mut ids: Vec<usize> = Vec::new();
            ids.extend_from_slice(child_meshes[i].as_slice());
            proof {
                assert(ids@ =~= child_meshes@[i as int]@);
            }
            let child: OctreeNode = self.build_recursive(
                child_bounds[i],
                ids,
                mesh_centers,
                mesh_tri_counts,
                depth + 1,
            );
            children.push(Box::new(child));
            i = i + 1;
        }
        OctreeNode { bounds, mesh_ids: Vec::new(), children, depth }
    }
}

/// No octant holds the centre of a mesh that is left over.
proof fn lemma_outside_member(b: Aabb, centers: Seq<[F64; 3]>, ids: Seq<usize>, m: int)
    requires
        0 <= m < b.outside_ids(centers, ids).len(),
    ensures
        !b.held_before(centers[b.outside_ids(centers, ids)[m] as int], 8),
    decreases ids.len(),
{
    if ids.len() > 0 {
        let rest = b.outside_ids(centers, ids.drop_last());
        if m < rest.len() {
            lemma_outside_member(b, centers, ids.drop_last(), m);
        }
    }
}

} // verus!
