//! Meshes of the source model turned into meshes for tiles: split by material,
//! placed, triangulated, and with equal vertices joined.

use crate::float::{F32, F64, ONE32};
use crate::mesh;
use crate::mesh::{MeshData, MeshView};
use crate::order;
use crate::text;
use std::collections::HashMap;
use vstd::prelude::*;

verus! {

/// Pattern of ten thousand, in 32 bits: the steps to the unit in which vertices are
/// compared.
pub const STEPS: u32 = 0x461c_4000;

/// Pattern of `1e-12`, in 64 bits: a shorter normal has no direction.
pub const SHORTEST_NORMAL: u64 = 0x3d71_9799_812d_ea11;

/// Where a mesh stands in the model.
#[derive(Clone, Copy, Debug)]
pub struct Placement {
    /// Metres to the unit of the source.
    pub scale: F64,
    /// What is taken off the scaled position.
    pub off: [F64; 3],
    /// Whether the placement mirrors the mesh.
    pub flip_winding: bool,
}

/// A face of a source mesh: a run of corners.
#[derive(Clone, Copy, Debug)]
pub struct Face {
    pub begin: u32,
    pub count: u32,
}

/// Values of three coordinates, and for each corner the number of its value.
#[derive(Debug)]
pub struct Stream3 {
    pub values: Vec<[F64; 3]>,
    pub indices: Vec<u32>,
}

/// Values of two coordinates, and for each corner the number of its value.
#[derive(Debug)]
pub struct Stream2 {
    pub values: Vec<[F64; 2]>,
    pub indices: Vec<u32>,
}

/// A mesh of the source model. Where it has a [`Placement`], positions and normals
/// are in the coordinates of the scene, otherwise in its own.
#[derive(Debug)]
pub struct SourceMesh {
    pub name: String,
    pub faces: Vec<Face>,
    /// For each face the number of its material.
    pub face_material: Vec<u32>,
    pub positions: Stream3,
    pub normals: Option<Stream3>,
    pub uvs: Option<Stream2>,
}

/// An encoded texture.
#[derive(Debug)]
pub struct Texture {
    pub name: String,
    pub has_alpha: bool,
    pub bytes: Vec<u8>,
    pub mime: String,
}

/// Whether all of `indices` are below `n`.
pub open spec fn within(indices: Seq<u32>, n: nat) -> bool {
    forall|i: int| 0 <= i < indices.len() ==> (#[trigger] indices[i]) < n
}

impl SourceMesh {
    /// Whether the corners of a face can be read.
    pub open spec fn readable(self, f: Face) -> bool {
        f.count >= 3 ==> {
            &&& f.begin + f.count <= self.positions.indices@.len()
            &&& self.normals matches Some(s) ==> f.begin + f.count <= s.indices@.len()
            &&& self.uvs matches Some(s) ==> f.begin + f.count <= s.indices@.len()
        }
    }

    /// Whether all corners have values.
    pub open spec fn wf(self) -> bool {
        &&& within(self.positions.indices@, self.positions.values@.len())
        &&& self.normals matches Some(s) ==> within(s.indices@, s.values@.len())
        &&& self.uvs matches Some(s) ==> within(s.indices@, s.values@.len())
        &&& forall|f: int| 0 <= f < self.faces@.len() ==> self.readable(#[trigger] self.faces@[f])
    }

    /// Whether the corners of a face can be read.
    fn can_read(&self, f: &Face) -> (r: bool)
        ensures
            r == self.readable(*f),
    {
        if f.count < 3 {
            return true;
        }
        let end: u64 = f.begin as u64 + f.count as u64;
        if end > self.positions.indices.len() as u64 {
            return false;
        }
        if let Some(s) = &self.normals {
            if end > s.indices.len() as u64 {
                return false;
            }
        }
        if let Some(s) = &self.uvs {
            if end > s.indices.len() as u64 {
                return false;
            }
        }
        true
    }

    /// Whether all corners have values.
    pub fn is_whole(&self) -> (r: bool)
        ensures
            r == self.wf(),
    {
        if !all_within(&self.positions.indices, self.positions.values.len()) {
            return false;
        }
        if let Some(s) = &self.normals {
            if !all_within(&s.indices, s.values.len()) {
                return false;
            }
        }
        if let Some(s) = &self.uvs {
            if !all_within(&s.indices, s.values.len()) {
                return false;
            }
        }
        let mut f: usize = 0;
        while f < self.faces.len()
            invariant
                f <= self.faces@.len(),
                within(self.positions.indices@, self.positions.values@.len()),
                self.normals matches Some(s) ==> within(s.indices@, s.values@.len()),
                self.uvs matches Some(s) ==> within(s.indices@, s.values@.len()),
                forall|k: int| 0 <= k < f ==> self.readable(#[trigger] self.faces@[k]),
            decreases self.faces@.len() - f,
        {
            if !self.can_read(&self.faces[f]) {
                proof {
                    assert(!self.readable(self.faces@[f as int]));
                }
                return false;
            }
            f = f + 1;
        }
        true
    }
}

/// Whether all of `indices` are below `n`.
fn all_within(indices: &Vec<u32>, n: usize) -> (r: bool)
    ensures
        r == within(indices@, n as nat),
{
    let mut i: usize = 0;
    while i < indices.len()
        invariant
            i <= indices@.len(),
            forall|k: int| 0 <= k < i ==> (#[trigger] indices@[k]) < n,
        decreases indices@.len() - i,
    {
        if indices[i] as u64 >= n as u64 {
            return false;
        }
        i = i + 1;
    }
    true
}

/// A vertex.
#[derive(Clone, Copy, Debug)]
pub struct Vertex {
    pub position: [F32; 3],
    pub normal: [F32; 3],
    pub uv: [F32; 2],
}

/// The position `p` where the mesh stands.
pub open spec fn spec_placed_position(p: [F64; 3], place: Option<Placement>) -> [F32; 3] {
    match place {
        Some(x) => [
            p[0].times(x.scale).minus(x.off[0]).narrow(),
            p[1].times(x.scale).minus(x.off[1]).narrow(),
            p[2].times(x.scale).minus(x.off[2]).narrow(),
        ],
        None => [p[0].narrow(), p[1].narrow(), p[2].narrow()],
    }
}

/// The position `p` where the mesh stands.
pub fn placed_position(p: [F64; 3], place: &Option<Placement>) -> (r: [F32; 3])
    ensures
        r == spec_placed_position(p, *place),
{
    match place {
        Some(x) => {
            let r: [F32; 3] = [
                p[0].times(x.scale).minus(x.off[0]).narrow(),
                p[1].times(x.scale).minus(x.off[1]).narrow(),
                p[2].times(x.scale).minus(x.off[2]).narrow(),
            ];
            proof {
                assert(r =~= spec_placed_position(p, *place));
            }
            r
        },
        None => {
            let r: [F32; 3] = [p[0].narrow(), p[1].narrow(), p[2].narrow()];
            proof {
                assert(r =~= spec_placed_position(p, *place));
            }
            r
        },
    }
}

/// The length of `d`.
pub open spec fn spec_length(d: [F64; 3]) -> F64 {
    d[0].times(d[0]).plus(d[1].times(d[1])).plus(d[2].times(d[2])).root()
}

/// The normal `n` of a mesh: of a placed one brought to length one, and upward where
/// it has no direction.
pub open spec fn spec_placed_normal(n: [F64; 3], place: Option<Placement>) -> [F32; 3] {
    if place is Some {
        let len = spec_length(n);
        if (F64 { bits: SHORTEST_NORMAL }).lt(len) {
            [n[0].over(len).narrow(), n[1].over(len).narrow(), n[2].over(len).narrow()]
        } else {
            mesh::spec_up()
        }
    } else {
        [n[0].narrow(), n[1].narrow(), n[2].narrow()]
    }
}

/// The normal `n` of a mesh: of a placed one brought to length one, and upward where
/// it has no direction.
pub fn placed_normal(n: [F64; 3], place: &Option<Placement>) -> (r: [F32; 3])
    ensures
        r == spec_placed_normal(n, *place),
{
    if place.is_some() {
        let len: F64 = n[0].times(n[0]).plus(n[1].times(n[1])).plus(n[2].times(n[2])).root();
        if (F64 { bits: SHORTEST_NORMAL }).lt(len) {
            let r: [F32; 3] = [
                n[0].over(len).narrow(),
                n[1].over(len).narrow(),
                n[2].over(len).narrow(),
            ];
            proof {
                assert(r =~= spec_placed_normal(n, *place));
            }
            r
        } else {
            mesh::up()
        }
    } else {
        let r: [F32; 3] = [n[0].narrow(), n[1].narrow(), n[2].narrow()];
        proof {
            assert(r =~= spec_placed_normal(n, *place));
        }
        r
    }
}

/// Texture coordinates with the second one counted from the other edge.
pub open spec fn spec_turned_uv(t: [F64; 2]) -> [F32; 2] {
    [t[0].narrow(), F32 { bits: ONE32 }.minus(t[1].narrow())]
}

/// Texture coordinates with the second one counted from the other edge.
pub fn turned_uv(t: [F64; 2]) -> (r: [F32; 2])
    ensures
        r == spec_turned_uv(t),
{
    let r: [F32; 2] = [t[0].narrow(), F32 { bits: ONE32 }.minus(t[1].narrow())];
    proof {
        assert(r =~= spec_turned_uv(t));
    }
    r
}

/// The vertex at corner `i`.
pub open spec fn vertex_at(src: SourceMesh, place: Option<Placement>, i: int) -> Vertex {
    Vertex {
        position: spec_placed_position(
            src.positions.values@[src.positions.indices@[i] as int],
            place,
        ),
        normal: match src.normals {
            Some(s) => spec_placed_normal(s.values@[s.indices@[i] as int], place),
            None => mesh::spec_up(),
        },
        uv: match src.uvs {
            Some(s) => spec_turned_uv(s.values@[s.indices@[i] as int]),
            None => [F32 { bits: 0 }, F32 { bits: 0 }],
        },
    }
}

/// The vertex at corner `i`.
fn read_vertex(src: &SourceMesh, place: &Option<Placement>, i: usize) -> (r: Vertex)
    requires
        src.wf(),
        i < src.positions.indices@.len(),
        src.normals matches Some(s) ==> i < s.indices@.len(),
        src.uvs matches Some(s) ==> i < s.indices@.len(),
    ensures
        r == vertex_at(*src, *place, i as int),
{
    proof {
        assert(src.positions.indices@[i as int] < src.positions.values@.len());
    }
    let position: [F32; 3] = placed_position(
        src.positions.values[src.positions.indices[i] as usize],
        place,
    );
    let normal: [F32; 3] = match &src.normals {
        Some(s) => {
            proof {
                assert(s.indices@[i as int] < s.values@.len());
            }
            placed_normal(s.values[s.indices[i] as usize], place)
        },
        None => mesh::up(),
    };
    let uv: [F32; 2] = match &src.uvs {
        Some(s) => {
            proof {
                assert(s.indices@[i as int] < s.values@.len());
            }
            turned_uv(s.values[s.indices[i] as usize])
        },
        None => {
            let r: [F32; 2] = [F32 { bits: 0 }, F32 { bits: 0 }];
            proof {
                let z: [F32; 2] = [F32 { bits: 0 }, F32 { bits: 0 }];
                assert(r =~= z);
            }
            r
        },
    };
    Vertex { position, normal, uv }
}

/// A number in steps of a ten-thousandth.
pub open spec fn steps(x: F32) -> i32 {
    x.times(F32 { bits: STEPS }).round_int()
}

/// What vertices are compared by: their attributes in steps of a ten-thousandth.
#[verifier::opaque]
pub open spec fn key_of(v: Vertex) -> Seq<i32> {
    seq![
        steps(v.position[0]),
        steps(v.position[1]),
        steps(v.position[2]),
        steps(v.normal[0]),
        steps(v.normal[1]),
        steps(v.normal[2]),
        steps(v.uv[0]),
        steps(v.uv[1]),
    ]
}

/// What vertices are compared by.
#[derive(Clone, Copy, Debug)]
pub struct VKey {
    pub parts: [i32; 8],
}

impl VKey {
    /// The key of a vertex.
    pub fn new(v: &Vertex) -> (r: VKey)
        ensures
            r.parts@ == key_of(*v),
    {
        let s = F32 { bits: STEPS };
        let parts: [i32; 8] = [
            v.position[0].times(s).round_int(),
            v.position[1].times(s).round_int(),
            v.position[2].times(s).round_int(),
            v.normal[0].times(s).round_int(),
            v.normal[1].times(s).round_int(),
            v.normal[2].times(s).round_int(),
            v.uv[0].times(s).round_int(),
            v.uv[1].times(s).round_int(),
        ];
        proof {
            reveal(key_of);
            assert(parts@ =~= key_of(*v));
        }
        VKey { parts }
    }

    /// Whether two keys are equal.
    pub fn same(&self, other: &VKey) -> (r: bool)
        ensures
            r == (self.parts@ == other.parts@),
    {
        let mut i: usize = 0;
        while i < 8
            invariant
                i <= 8,
                forall|k: int| 0 <= k < i ==> self.parts@[k] == other.parts@[k],
            decreases 8 - i,
        {
            if self.parts[i] != other.parts[i] {
                proof {
                    assert(self.parts@[i as int] != other.parts@[i as int]);
                }
                return false;
            }
            i = i + 1;
        }
        proof {
            assert(self.parts@ =~= other.parts@);
        }
        true
    }

    /// A number that equal keys share.
    fn bucket(&self) -> (r: u64)
        ensures
            r == bucket_of(self.parts@),
    {
        let mut h: u64 = 0;
        let mut i: usize = 0;
        while i < 8
            invariant
                i <= 8,
                h == bucket_of(self.parts@.take(i as int)),
                h < 4294967291,
            decreases 8 - i,
        {
            proof {
                assert(self.parts@.take(i + 1).drop_last() =~= self.parts@.take(i as int));
            }
            h = (h * 1000003 + (self.parts[i] as i64 + 0x8000_0000) as u64) % 4294967291;
            i = i + 1;
        }
        proof {
            assert(self.parts@.take(8) =~= self.parts@);
        }
        h
    }
}

/// A number that equal keys share.
spec fn bucket_of(key: Seq<i32>) -> u64
    decreases key.len(),
{
    if key.len() == 0 {
        0
    } else {
        ((bucket_of(key.drop_last()) * 1000003 + (key.last() + 0x8000_0000)) % 4294967291) as u64
    }
}

/// The first of `verts` with the key `key`; their number where there is none.
pub open spec fn place_of(verts: Seq<Vertex>, key: Seq<i32>) -> nat
    decreases verts.len(),
{
    if verts.len() == 0 {
        0
    } else {
        let rest = place_of(verts.drop_last(), key);
        if rest < verts.len() - 1 || key_of(verts.last()) == key {
            rest
        } else {
            verts.len()
        }
    }
}

/// The vertices with `v` among them: one of the same key stands for it.
pub open spec fn with_vertex(verts: Seq<Vertex>, v: Vertex) -> Seq<Vertex> {
    if place_of(verts, key_of(v)) < verts.len() {
        verts
    } else {
        verts.push(v)
    }
}

/// The vertices so far with those of the first `n` corners from `begin` on, and the
/// numbers of these corners' vertices.
pub open spec fn with_corners(
    src: SourceMesh,
    place: Option<Placement>,
    verts: Seq<Vertex>,
    begin: int,
    n: nat,
) -> (Seq<Vertex>, Seq<u32>)
    decreases n,
{
    if n == 0 {
        (verts, Seq::empty())
    } else {
        let before = with_corners(src, place, verts, begin, (n - 1) as nat);
        let v = vertex_at(src, place, begin + n - 1);
        (with_vertex(before.0, v), before.1.push(place_of(before.0, key_of(v)) as u32))
    }
}

/// The triangles of a face: a fan around its first corner, turned round where `flip`
/// says so.
pub open spec fn fan(corners: Seq<u32>, flip: bool) -> Seq<u32> {
    Seq::new(
        (3 * (corners.len() - 2)) as nat,
        |k: int|
            if k % 3 == 0 {
                corners[0]
            } else if (k % 3 == 1) != flip {
                corners[k / 3 + 1]
            } else {
                corners[k / 3 + 2]
            },
    )
}

/// What a list of faces gives: the vertices, and the triangles.
pub open spec fn extracted(
    src: SourceMesh,
    place: Option<Placement>,
    flip: bool,
    faces: Seq<usize>,
) -> (Seq<Vertex>, Seq<u32>)
    decreases faces.len(),
{
    if faces.len() == 0 {
        (Seq::empty(), Seq::empty())
    } else {
        let before = extracted(src, place, flip, faces.drop_last());
        let f = src.faces@[faces.last() as int];
        if f.count < 3 {
            before
        } else {
            let (verts, corners) = with_corners(
                src,
                place,
                before.0,
                f.begin as int,
                f.count as nat,
            );
            (verts, before.1 + fan(corners, flip))
        }
    }
}

/// Vertices of which no two have the same key, and where to find them.
struct VertexTable {
    verts: Vec<Vertex>,
    buckets: HashMap<u64, Vec<usize>>,
}

impl VertexTable {
    spec fn wf(self) -> bool {
        &&& forall|i: int, j: int|
            0 <= i < j < self.verts@.len() ==> key_of(#[trigger] self.verts@[i]) != key_of(
                #[trigger] self.verts@[j],
            )
        &&& forall|h: u64, k: int|
            #![trigger self.buckets@[h]@[k]]
            self.buckets@.contains_key(h) && 0 <= k < self.buckets@[h]@.len()
                ==> self.buckets@[h]@[k] < self.verts@.len()
        &&& forall|i: int|
            #![trigger self.verts@[i]]
            0 <= i < self.verts@.len() ==> self.buckets@.contains_key(
                bucket_of(key_of(self.verts@[i])),
            ) && self.buckets@[bucket_of(key_of(self.verts@[i]))]@.contains(i as usize)
    }

    fn new() -> (r: VertexTable)
        ensures
            r.wf(),
            r.verts@ == Seq::<Vertex>::empty(),
    {
        broadcast use vstd::std_specs::hash::group_hash_axioms;

        VertexTable { verts: Vec::new(), buckets: HashMap::new() }
    }

    /// The number of the vertex with the key `key` among those in `bucket`.
    fn find_in(&self, bucket: &Vec<usize>, key: &VKey) -> (r: Option<usize>)
        requires
            forall|k: int| 0 <= k < bucket@.len() ==> (#[trigger] bucket@[k]) < self.verts@.len(),
        ensures
            r matches Some(i) ==> i < self.verts@.len() && key_of(self.verts@[i as int])
                == key.parts@,
            r is None ==> forall|j: int|
                0 <= j < bucket@.len() ==> key_of(self.verts@[#[trigger] bucket@[j] as int])
                    != key.parts@,
    {
        let mut k: usize = 0;
        while k < bucket.len()
            invariant
                k <= bucket@.len(),
                forall|j: int| 0 <= j < bucket@.len() ==> (#[trigger] bucket@[j])
                    < self.verts@.len(),
                forall|j: int|
                    0 <= j < k ==> key_of(self.verts@[#[trigger] bucket@[j] as int]) != key.parts@,
            decreases bucket@.len() - k,
        {
            let i: usize = bucket[k];
            if VKey::new(&self.verts[i]).same(key) {
                return Some(i);
            }
            k = k + 1;
        }
        None
    }

    /// The number of the vertex with the key `key`.
    fn find(&self, key: &VKey, h: u64) -> (r: Option<usize>)
        requires
            self.wf(),
            h == bucket_of(key.parts@),
        ensures
            r matches Some(i) ==> i < self.verts@.len() && key_of(self.verts@[i as int])
                == key.parts@,
            r is None ==> forall|i: int|
                0 <= i < self.verts@.len() ==> key_of(#[trigger] self.verts@[i]) != key.parts@,
    {
        broadcast use vstd::std_specs::hash::group_hash_axioms;

        match self.buckets.get(&h) {
            None => {
                proof {
                    assert forall|i: int| 0 <= i < self.verts@.len() implies key_of(
                        #[trigger] self.verts@[i],
                    ) != key.parts@ by {
                        assert(self.buckets@.contains_key(bucket_of(key_of(self.verts@[i]))));
                    }
                }
                None
            },
            Some(bucket) => {
                proof {
                    assert forall|k: int| 0 <= k < bucket@.len() implies (#[trigger] bucket@[k])
                        < self.verts@.len() by {
                        assert(self.buckets@[h]@[k] < self.verts@.len());
                    }
                }
                let r: Option<usize> = self.find_in(bucket, key);
                proof {
                    assert(self.verts.len() == self.verts@.len());
                    if r is None {
                        assert forall|i: int| 0 <= i < self.verts@.len() implies key_of(
                            #[trigger] self.verts@[i],
                        ) != key.parts@ by {
                            if key_of(self.verts@[i]) == key.parts@ {
                                assert(bucket@.contains(i as usize));
                                let j = choose|j: int|
                                    0 <= j < bucket@.len() && bucket@[j] == i as usize;
                                assert(key_of(self.verts@[bucket@[j] as int]) != key.parts@);
                            }
                        }
                    }
                }
                r
            },
        }
    }

    /// The number of the vertex that stands for `v`, which is added where there is
    /// none.
    fn put(&mut self, v: Vertex) -> (r: u32)
        requires
            old(self).wf(),
        ensures
            final(self).wf(),
            final(self).verts@ == with_vertex(old(self).verts@, v),
            r == place_of(old(self).verts@, key_of(v)) as u32,
    {
        broadcast use vstd::std_specs::hash::group_hash_axioms;

        let key: VKey = VKey::new(&v);
        let h: u64 = key.bucket();
        match self.find(&key, h) {
            Some(i) => {
                proof {
                    lemma_place_of(self.verts@, key_of(v), i as int);
                }
                i as u32
            },
            None => {
                let n: usize = self.verts.len();
                proof {
                    lemma_place_of(self.verts@, key_of(v), n as int);
                }
                let ghost before = self.verts@;
                let ghost maps = self.buckets@;
                let mut bucket: Vec<usize> = match self.buckets.remove(&h) {
                    Some(b) => b,
                    None => Vec::new(),
                };
                let ghost old_bucket = bucket@;
                bucket.push(n);
                let ghost new_bucket = bucket@;
                self.buckets.insert(h, bucket);
                self.verts.push(v);
                proof {
                    assert(new_bucket[old_bucket.len() as int] == n);
                    assert forall|i: int|
                        #![trigger self.verts@[i]]
                        0 <= i < self.verts@.len() implies self.buckets@.contains_key(
                        bucket_of(key_of(self.verts@[i])),
                    ) && self.buckets@[bucket_of(key_of(self.verts@[i]))]@.contains(i as usize) by {
                        if i < n {
                            assert(before[i] == self.verts@[i]);
                            let g = bucket_of(key_of(before[i]));
                            assert(maps.contains_key(g) && maps[g]@.contains(i as usize));
                            if g == h {
                                let k = choose|k: int|
                                    0 <= k < old_bucket.len() && old_bucket[k] == i as usize;
                                assert(new_bucket[k] == i as usize);
                            }
                        } else {
                            assert(self.buckets@[h]@ == new_bucket);
                        }
                    }
                    assert forall|g: u64, k: int|
                        #![trigger self.buckets@[g]@[k]]
                        self.buckets@.contains_key(g) && 0 <= k < self.buckets@[g]@.len() implies self.buckets@[g]@[k]
                        < self.verts@.len() by {
                        if g == h {
                            if k < old_bucket.len() {
                                assert(new_bucket[k] == old_bucket[k]);
                                assert(maps[h]@[k] < before.len());
                            }
                        } else {
                            assert(maps[g]@[k] < before.len());
                        }
                    }
                }
                n as u32
            },
        }
    }
}

proof fn lemma_place_of(verts: Seq<Vertex>, key: Seq<i32>, g: int)
    requires
        0 <= g <= verts.len(),
        forall|j: int| 0 <= j < g ==> key_of(#[trigger] verts[j]) != key,
        g < verts.len() ==> key_of(verts[g]) == key,
    ensures
        place_of(verts, key) == g,
    decreases verts.len(),
{
    if verts.len() > 0 {
        if g < verts.len() {
            lemma_place_of(verts.drop_last(), key, g);
        } else {
            assert(key_of(verts[verts.len() - 1]) != key);
            lemma_place_of(verts.drop_last(), key, g - 1);
        }
    }
}

/// Appends the triangles of a face to `out`.
fn append_fan(out: &mut Vec<u32>, corners: &Vec<u32>, flip: bool)
    requires
        corners@.len() >= 3,
    ensures
        final(out)@ == old(out)@ + fan(corners@, flip),
{
    let ghost start = out@;
    let ghost all = fan(corners@, flip);
    let n: usize = corners.len();
    let mut i: usize = 1;
    proof {
        assert(out@ =~= start + all.take(0));
    }
    while i < n - 1
        invariant
            1 <= i <= n - 1,
            n == corners@.len(),
            all == fan(corners@, flip),
            out@ == start + all.take(3 * (i - 1)),
        decreases n - i,
    {
        let a: u32 = corners[0];
        let b: u32 = corners[i];
        let c: u32 = corners[i + 1];
        out.push(a);
        if flip {
            out.push(c);
            out.push(b);
        } else {
            out.push(b);
            out.push(c);
        }
        proof {
            let k = 3 * (i - 1);
            assert(k % 3 == 0 && (k + 1) % 3 == 1 && (k + 2) % 3 == 2);
            assert(k / 3 == i - 1 && (k + 1) / 3 == i - 1 && (k + 2) / 3 == i - 1);
            assert(all.len() == 3 * (n - 2));
            assert(all[k] == a);
            assert(out@ =~= start + all.take(3 * i));
        }
        i = i + 1;
    }
    proof {
        assert(all.take(3 * (i - 1)) =~= all);
    }
}

/// The part that the vertices and triangles `e` make. The triangles are as they are
/// drawn. Its material is yet to be set: no metal, all rough.
pub open spec fn part_view(
    e: (Seq<Vertex>, Seq<u32>),
    name: Seq<char>,
    texture: Option<Texture>,
) -> MeshView {
    MeshView {
        positions: Seq::new(e.0.len(), |i: int| e.0[i].position),
        normals: Seq::new(e.0.len(), |i: int| e.0[i].normal),
        uvs: Seq::new(e.0.len(), |i: int| e.0[i].uv),
        indices: e.1,
        name,
        flip_winding: false,
        texture_uri: match texture {
            Some(t) => Some(t.name@),
            None => None,
        },
        texture_bytes: match texture {
            Some(t) => Some(t.bytes@),
            None => None,
        },
        texture_mime: match texture {
            Some(t) => Some(t.mime@),
            None => None,
        },
        texture_has_alpha: texture matches Some(t) && t.has_alpha,
        metallic_factor: F32 { bits: 0 },
        roughness_factor: F32 { bits: ONE32 },
        feature_gid: 0,
        batch_ids: Seq::empty(),
    }
}

/// The geometry of the faces `face_list`: fans of triangles over vertices of which no
/// two agree in position, normal and texture coordinates to a ten-thousandth. With
/// `flip_winding` the triangles are turned round, and nothing is left to be turned.
/// `None` where the faces have no triangle.
pub fn extract_faces(
    src: &SourceMesh,
    face_list: &Vec<usize>,
    texture: &Option<Texture>,
    place: &Option<Placement>,
    flip_winding: bool,
    name: String,
) -> (r: Option<MeshData>)
    requires
        src.wf(),
        forall|i: int| 0 <= i < face_list@.len() ==> (#[trigger] face_list@[i]) < src.faces@.len(),
    ensures
        r is Some <==> extracted(*src, *place, flip_winding, face_list@).0.len() > 0 && extracted(
            *src,
            *place,
            flip_winding,
            face_list@,
        ).1.len() > 0,
        r matches Some(m) ==> m@ == part_view(
            extracted(*src, *place, flip_winding, face_list@),
            name@,
            *texture,
        ),
{
    let mut table: VertexTable = VertexTable::new();
    let mut indices: Vec<u32> = Vec::new();
    let mut k: usize = 0;
    while k < face_list.len()
        invariant
            k <= face_list@.len(),
            src.wf(),
            forall|i: int|
                0 <= i < face_list@.len() ==> (#[trigger] face_list@[i]) < src.faces@.len(),
            table.wf(),
            (table.verts@, indices@) == extracted(
                *src,
                *place,
                flip_winding,
                face_list@.take(k as int),
            ),
        decreases face_list@.len() - k,
    {
        let face: Face = src.faces[face_list[k]];
        proof {
            assert(face_list@.take(k + 1).drop_last() =~= face_list@.take(k as int));
            assert(src.readable(src.faces@[face_list@[k as int] as int]));
        }
        if face.count >= 3 {
            let begin: usize = face.begin as usize;
            let count: usize = face.count as usize;
            let ghost before = table.verts@;
            let mut corners: Vec<u32> = Vec::new();
            let mut j: usize = 0;
            while j < count
                invariant
                    j <= count,
                    begin == face.begin,
                    count == face.count,
                    src.wf(),
                    begin + count <= src.positions.indices@.len(),
                    src.normals matches Some(s) ==> begin + count <= s.indices@.len(),
                    src.uvs matches Some(s) ==> begin + count <= s.indices@.len(),
                    table.wf(),
                    (table.verts@, corners@) == with_corners(
                        *src,
                        *place,
                        before,
                        begin as int,
                        j as nat,
                    ),
                decreases count - j,
            {
                proof {
                    assert(src.positions.indices.len() == src.positions.indices@.len());
                }
                let v: Vertex = read_vertex(src, place, begin + j);
                let n: u32 = table.put(v);
                corners.push(n);
                j = j + 1;
            }
            proof {
                lemma_corner_count(*src, *place, before, begin as int, count as nat);
            }
            append_fan(&mut indices, &corners, flip_winding);
        }
        k = k + 1;
    }
    proof {
        assert(face_list@.take(k as int) =~= face_list@);
    }
    if table.verts.len() == 0 || indices.len() == 0 {
        return None;
    }
    let ghost verts = table.verts@;
    let mut positions: Vec<[F32; 3]> = Vec::new();
    let mut normals: Vec<[F32; 3]> = Vec::new();
    let mut uvs: Vec<[F32; 2]> = Vec::new();
    let mut i: usize = 0;
    while i < table.verts.len()
        invariant
            i <= table.verts@.len(),
            verts == table.verts@,
            positions@ == Seq::new(i as nat, |n: int| verts[n].position),
            normals@ == Seq::new(i as nat, |n: int| verts[n].normal),
            uvs@ == Seq::new(i as nat, |n: int| verts[n].uv),
        decreases table.verts@.len() - i,
    {
        let v: Vertex = table.verts[i];
        positions.push(v.position);
        normals.push(v.normal);
        uvs.push(v.uv);
        i = i + 1;
        proof {
            assert(positions@ =~= Seq::new(i as nat, |n: int| verts[n].position));
            assert(normals@ =~= Seq::new(i as nat, |n: int| verts[n].normal));
            assert(uvs@ =~= Seq::new(i as nat, |n: int| verts[n].uv));
        }
    }
    let (texture_uri, texture_bytes, texture_mime, texture_has_alpha): (
        Option<String>,
        Option<Vec<u8>>,
        Option<String>,
        bool,
    ) = match texture {
        Some(t) => (
            Some(t.name.clone()),
            Some(mesh::copied(&t.bytes)),
            Some(t.mime.clone()),
            t.has_alpha,
        ),
        None => (None, None, None, false),
    };
    let part = MeshData {
        positions,
        normals,
        uvs,
        indices,
        name,
        flip_winding: false,
        texture_uri,
        texture_bytes,
        texture_mime,
        texture_has_alpha,
        metallic_factor: F32 { bits: 0 },
        roughness_factor: F32 { bits: ONE32 },
        feature_gid: 0,
        batch_ids: Vec::new(),
    };
    proof {
        assert(part@ =~= part_view(
            extracted(*src, *place, flip_winding, face_list@),
            name@,
            *texture,
        ));
    }
    Some(part)
}

proof fn lemma_corner_count(
    src: SourceMesh,
    place: Option<Placement>,
    verts: Seq<Vertex>,
    begin: int,
    n: nat,
)
    ensures
        with_corners(src, place, verts, begin, n).1.len() == n,
    decreases n,
{
    if n > 0 {
        lemma_corner_count(src, place, verts, begin, (n - 1) as nat);
    }
}

/// Whether every face has a material of its own.
pub open spec fn has_face_materials(src: SourceMesh) -> bool {
    src.face_material@.len() == src.faces@.len() && src.face_material@.len() > 0
}

/// The materials of the faces, as indices.
pub open spec fn face_materials(src: SourceMesh) -> Seq<usize> {
    Seq::new(src.face_material@.len(), |i: int| src.face_material@[i] as usize)
}

/// The materials that a mesh is split by, in increasing order; without face
/// materials just the first.
pub open spec fn material_numbers(src: SourceMesh) -> Seq<usize> {
    if has_face_materials(src) {
        order::sorted_set(face_materials(src))
    } else {
        seq![0usize]
    }
}

/// Those of the first `n` faces that have the material `mat`.
pub open spec fn faces_with(materials: Seq<u32>, mat: usize, n: nat) -> Seq<usize>
    decreases n,
{
    if n == 0 {
        Seq::empty()
    } else if materials[n - 1] as usize == mat {
        faces_with(materials, mat, (n - 1) as nat).push((n - 1) as usize)
    } else {
        faces_with(materials, mat, (n - 1) as nat)
    }
}

/// The faces of the part with the material `mat`: without face materials all.
pub open spec fn part_faces(src: SourceMesh, mat: usize) -> Seq<usize> {
    if has_face_materials(src) {
        faces_with(src.face_material@, mat, src.face_material@.len())
    } else {
        Seq::new(src.faces@.len(), |i: int| i as usize)
    }
}

/// The texture of the material `mat`; where the mesh does not have it, that of its
/// first material.
pub open spec fn texture_of(textures: Seq<Option<Texture>>, mat: usize) -> Option<Texture> {
    if mat < textures.len() {
        textures[mat as int]
    } else if textures.len() > 0 {
        textures[0]
    } else {
        None
    }
}

/// Whether a placement mirrors.
pub open spec fn flips(place: Option<Placement>) -> bool {
    place matches Some(x) && x.flip_winding
}

/// What all parts of a mesh share.
pub struct PartSettings {
    pub metallic: F64,
    pub roughness: F64,
    pub feature_gid: usize,
}

/// The part of the material `mat`, if it has a triangle.
pub open spec fn part_of(
    src: SourceMesh,
    textures: Seq<Option<Texture>>,
    place: Option<Placement>,
    settings: PartSettings,
    mat: usize,
) -> Option<MeshView> {
    let e = extracted(src, place, flips(place), part_faces(src, mat));
    if e.0.len() > 0 && e.1.len() > 0 {
        Some(
            MeshView {
                metallic_factor: settings.metallic.narrow(),
                roughness_factor: settings.roughness.narrow(),
                feature_gid: settings.feature_gid,
                ..part_view(
                    e,
                    src.name@ + "_m"@ + text::decimal(mat as nat),
                    texture_of(textures, mat),
                )
            },
        )
    } else {
        None
    }
}

/// The parts of the materials `mats`.
pub open spec fn parts_of(
    src: SourceMesh,
    textures: Seq<Option<Texture>>,
    place: Option<Placement>,
    settings: PartSettings,
    mats: Seq<usize>,
) -> Seq<MeshView>
    decreases mats.len(),
{
    if mats.len() == 0 {
        Seq::empty()
    } else {
        let rest = parts_of(src, textures, place, settings, mats.drop_last());
        match part_of(src, textures, place, settings, mats.last()) {
            Some(p) => rest.push(p),
            None => rest,
        }
    }
}

/// The materials that a mesh is split by.
fn split_materials(src: &SourceMesh) -> (r: Vec<usize>)
    ensures
        r@ == material_numbers(*src),
{
    if src.face_material.len() == src.faces.len() && src.face_material.len() > 0 {
        let mut all: Vec<usize> = Vec::new();
        let mut i: usize = 0;
        while i < src.face_material.len()
            invariant
                i <= src.face_material@.len(),
                all@ == face_materials(*src).take(i as int),
            decreases src.face_material@.len() - i,
        {
            all.push(src.face_material[i] as usize);
            i = i + 1;
            proof {
                assert(all@ =~= face_materials(*src).take(i as int));
            }
        }
        proof {
            assert(all@ =~= face_materials(*src));
        }
        order::sorted_unique(&all)
    } else {
        let mut one: Vec<usize> = Vec::new();
        one.push(0);
        proof {
            assert(one@ =~= seq![0usize]);
        }
        one
    }
}

/// The faces of the part with the material `mat`.
fn split_faces(src: &SourceMesh, mat: usize) -> (r: Vec<usize>)
    ensures
        r@ == part_faces(*src, mat),
        forall|i: int| 0 <= i < r@.len() ==> (#[trigger] r@[i]) < src.faces@.len(),
{
    let mut out: Vec<usize> = Vec::new();
    let mut i: usize = 0;
    if src.face_material.len() == src.faces.len() && src.face_material.len() > 0 {
        while i < src.face_material.len()
            invariant
                i <= src.face_material@.len(),
                src.face_material@.len() == src.faces@.len(),
                out@ == faces_with(src.face_material@, mat, i as nat),
                forall|k: int| 0 <= k < out@.len() ==> (#[trigger] out@[k]) < src.faces@.len(),
            decreases src.face_material@.len() - i,
        {
            if src.face_material[i] as usize == mat {
                out.push(i);
            }
            i = i + 1;
        }
    } else {
        while i < src.faces.len()
            invariant
                i <= src.faces@.len(),
                out@ == Seq::new(i as nat, |k: int| k as usize),
                forall|k: int| 0 <= k < out@.len() ==> (#[trigger] out@[k]) < src.faces@.len(),
            decreases src.faces@.len() - i,
        {
            out.push(i);
            i = i + 1;
            proof {
                assert(out@ =~= Seq::new(i as nat, |k: int| k as usize));
            }
        }
    }
    out
}

/// The parts of a mesh, one for each material that its faces have, in increasing
/// order of the materials; a part without a triangle is left out. `textures` holds
/// the texture of each material of the mesh.
pub fn extract_mesh_parts(
    src: &SourceMesh,
    textures: &Vec<Option<Texture>>,
    place: &Option<Placement>,
    settings: &PartSettings,
) -> (r: Vec<MeshData>)
    requires
        src.wf(),
    ensures
        mesh::mesh_views(r@) == parts_of(
            *src,
            textures@,
            *place,
            *settings,
            material_numbers(*src),
        ),
{
    let mats: Vec<usize> = split_materials(src);
    let mut out: Vec<MeshData> = Vec::new();
    let mut k: usize = 0;
    let none: Option<Texture> = None;
    let flip: bool = match place {
        Some(x) => x.flip_winding,
        None => false,
    };
    proof {
        assert(mesh::mesh_views(out@) =~= parts_of(
            *src,
            textures@,
            *place,
            *settings,
            mats@.take(0),
        ));
    }
    while k < mats.len()
        invariant
            k <= mats@.len(),
            src.wf(),
            flip == flips(*place),
            none == None::<Texture>,
            mesh::mesh_views(out@) == parts_of(
                *src,
                textures@,
                *place,
                *settings,
                mats@.take(k as int),
            ),
        decreases mats@.len() - k,
    {
        let mat: usize = mats[k];
        let ghost before = mesh::mesh_views(out@);
        proof {
            assert(mats@.take(k + 1).drop_last() =~= mats@.take(k as int));
        }
        let faces: Vec<usize> = split_faces(src, mat);
        let texture: &Option<Texture> = if mat < textures.len() {
            &textures[mat]
        } else if textures.len() > 0 {
            &textures[0]
        } else {
            &none
        };
        let mut name: String = src.name.clone();
        name.append("_m");
        text::append_decimal(&mut name, mat as u64);
        match extract_faces(src, &faces, texture, place, flip, name) {
            Some(part) => {
                let mut p: MeshData = part;
                p.metallic_factor = settings.metallic.narrow();
                p.roughness_factor = settings.roughness.narrow();
                p.feature_gid = settings.feature_gid;
                out.push(p);
                proof {
                    assert(mesh::mesh_views(out@) =~= before.push(p@));
                    assert(p@ =~= part_of(*src, textures@, *place, *settings, mat)->0);
                }
            },
            None => {},
        }
        k = k + 1;
    }
    proof {
        assert(mats@.take(k as int) =~= mats@);
    }
    out
}

/// The material whose texture the part of the material `mat` has, of `n` materials.
pub open spec fn textured_by(mat: usize, n: nat) -> int {
    if mat < n {
        mat as int
    } else {
        0
    }
}

/// Whether a part has the texture of material `k`, of `n` materials.
pub open spec fn wants(src: SourceMesh, n: nat, k: int) -> bool {
    exists|i: int|
        0 <= i < material_numbers(src).len() && textured_by(
            #[trigger] material_numbers(src)[i],
            n,
        ) == k
}

/// Which of the `n` materials of a mesh have a texture that a part is drawn with.
pub fn wanted_textures(src: &SourceMesh, n: usize) -> (r: Vec<bool>)
    ensures
        r@ == Seq::new(n as nat, |k: int| wants(*src, n as nat, k)),
{
    let mats: Vec<usize> = split_materials(src);
    let mut out: Vec<bool> = Vec::new();
    let mut k: usize = 0;
    while k < n
        invariant
            k <= n,
            mats@ == material_numbers(*src),
            out@ == Seq::new(k as nat, |j: int| wants(*src, n as nat, j)),
        decreases n - k,
    {
        let mut found: bool = false;
        let mut i: usize = 0;
        while i < mats.len()
            invariant
                i <= mats@.len(),
                mats@ == material_numbers(*src),
                found <==> exists|j: int|
                    0 <= j < i && textured_by(#[trigger] mats@[j], n as nat) == k,
            decreases mats@.len() - i,
        {
            let mat: usize = if mats[i] < n {
                mats[i]
            } else {
                0
            };
            if mat == k {
                found = true;
            }
            i = i + 1;
        }
        out.push(found);
        k = k + 1;
        proof {
            assert(out@ =~= Seq::new(k as nat, |j: int| wants(*src, n as nat, j)));
        }
    }
    out
}

/// The parts of a mesh depend on no texture but the wanted ones.
pub proof fn law_unwanted_textures(
    src: SourceMesh,
    a: Seq<Option<Texture>>,
    b: Seq<Option<Texture>>,
    place: Option<Placement>,
    settings: PartSettings,
)
    requires
        a.len() == b.len(),
        forall|k: int| 0 <= k < a.len() && wants(src, a.len(), k) ==> #[trigger] a[k] == b[k],
    ensures
        parts_of(src, a, place, settings, material_numbers(src)) == parts_of(
            src,
            b,
            place,
            settings,
            material_numbers(src),
        ),
{
    let mats = material_numbers(src);
    assert forall|i: int| 0 <= i < mats.len() implies texture_of(a, #[trigger] mats[i])
        == texture_of(b, mats[i]) by {
        assert(wants(src, a.len(), textured_by(mats[i], a.len())));
    }
    lemma_same_textures(src, a, b, place, settings, mats);
}

proof fn lemma_same_textures(
    src: SourceMesh,
    a: Seq<Option<Texture>>,
    b: Seq<Option<Texture>>,
    place: Option<Placement>,
    settings: PartSettings,
    mats: Seq<usize>,
)
    requires
        forall|i: int|
            0 <= i < mats.len() ==> texture_of(a, #[trigger] mats[i]) == texture_of(b, mats[i]),
    ensures
        parts_of(src, a, place, settings, mats) == parts_of(src, b, place, settings, mats),
    decreases mats.len(),
{
    if mats.len() > 0 {
        let rest = mats.drop_last();
        assert forall|i: int| 0 <= i < rest.len() implies texture_of(a, #[trigger] rest[i])
            == texture_of(b, rest[i]) by {
            assert(rest[i] == mats[i]);
        }
        lemma_same_textures(src, a, b, place, settings, rest);
        assert(mats[mats.len() - 1] == mats.last());
    }
}

/// Whether no two vertices have the same key.
pub open spec fn keys_differ(verts: Seq<Vertex>) -> bool {
    forall|i: int, j: int|
        0 <= i < j < verts.len() ==> key_of(#[trigger] verts[i]) != key_of(#[trigger] verts[j])
}

/// The triangles of the faces: two fewer than corners each.
pub open spec fn face_triangles(src: SourceMesh, faces: Seq<usize>) -> nat
    decreases faces.len(),
{
    if faces.len() == 0 {
        0
    } else {
        let n = src.faces@[faces.last() as int].count;
        face_triangles(src, faces.drop_last()) + (if n < 3 {
            0nat
        } else {
            (n - 2) as nat
        })
    }
}

proof fn lemma_place_found(verts: Seq<Vertex>, key: Seq<i32>)
    ensures
        place_of(verts, key) <= verts.len(),
        place_of(verts, key) < verts.len() ==> key_of(verts[place_of(verts, key) as int]) == key,
        place_of(verts, key) == verts.len() ==> forall|j: int|
            0 <= j < verts.len() ==> key_of(#[trigger] verts[j]) != key,
    decreases verts.len(),
{
    if verts.len() > 0 {
        lemma_place_found(verts.drop_last(), key);
        if place_of(verts, key) == verts.len() {
            assert forall|j: int| 0 <= j < verts.len() implies key_of(#[trigger] verts[j]) != key by {
                if j < verts.len() - 1 {
                    assert(verts.drop_last()[j] == verts[j]);
                }
            }
        }
    }
}

/// The vertices that stand for the corners of a face: each has the key of its
/// corner, those that were there before stay, and no two have the same key.
pub proof fn law_corner_vertices(
    src: SourceMesh,
    place: Option<Placement>,
    verts: Seq<Vertex>,
    begin: int,
    n: nat,
)
    requires
        keys_differ(verts),
        with_corners(src, place, verts, begin, n).0.len() <= u32::MAX,
    ensures
        keys_differ(with_corners(src, place, verts, begin, n).0),
        verts.len() <= with_corners(src, place, verts, begin, n).0.len(),
        forall|i: int|
            0 <= i < verts.len() ==> #[trigger] with_corners(src, place, verts, begin, n).0[i]
                == verts[i],
        with_corners(src, place, verts, begin, n).1.len() == n,
        forall|j: int|
            0 <= j < n ==> (#[trigger] with_corners(src, place, verts, begin, n).1[j])
                < with_corners(src, place, verts, begin, n).0.len() && key_of(
                with_corners(src, place, verts, begin, n).0[with_corners(
                    src,
                    place,
                    verts,
                    begin,
                    n,
                ).1[j] as int],
            ) == key_of(vertex_at(src, place, begin + j)),
    decreases n,
{
    if n > 0 {
        let b = with_corners(src, place, verts, begin, (n - 1) as nat);
        let e = with_corners(src, place, verts, begin, n);
        law_corner_vertices(src, place, verts, begin, (n - 1) as nat);
        let v = vertex_at(src, place, begin + n - 1);
        lemma_place_found(b.0, key_of(v));
        assert forall|j: int| 0 <= j < n implies (#[trigger] e.1[j]) < e.0.len() && key_of(
            e.0[e.1[j] as int],
        ) == key_of(vertex_at(src, place, begin + j)) by {
            if j < n - 1 {
                assert(e.1[j] == b.1[j]);
                assert(e.0[b.1[j] as int] == b.0[b.1[j] as int]);
            }
        }
        assert forall|i: int| 0 <= i < verts.len() implies #[trigger] e.0[i] == verts[i] by {
            assert(b.0[i] == verts[i]);
        }
    }
}

/// What faces give is sound: whole triangles, as many as the faces' fans have, over
/// existing vertices of which no two have the same key.
pub proof fn law_extracted_sound(
    src: SourceMesh,
    place: Option<Placement>,
    flip: bool,
    faces: Seq<usize>,
)
    requires
        extracted(src, place, flip, faces).0.len() <= u32::MAX,
    ensures
        keys_differ(extracted(src, place, flip, faces).0),
        within(
            extracted(src, place, flip, faces).1,
            extracted(src, place, flip, faces).0.len(),
        ),
        extracted(src, place, flip, faces).1.len() == 3 * face_triangles(src, faces),
    decreases faces.len(),
{
    if faces.len() > 0 {
        let b = extracted(src, place, flip, faces.drop_last());
        let e = extracted(src, place, flip, faces);
        let f = src.faces@[faces.last() as int];
        if f.count < 3 {
            law_extracted_sound(src, place, flip, faces.drop_last());
        } else {
            let c = with_corners(src, place, b.0, f.begin as int, f.count as nat);
            lemma_corners_grow(src, place, b.0, f.begin as int, f.count as nat);
            law_extracted_sound(src, place, flip, faces.drop_last());
            law_corner_vertices(src, place, b.0, f.begin as int, f.count as nat);
            let tris = fan(c.1, flip);
            assert forall|i: int| 0 <= i < e.1.len() implies (#[trigger] e.1[i]) < e.0.len() by {
                if i < b.1.len() {
                    assert(e.1[i] == b.1[i]);
                } else {
                    let k = i - b.1.len();
                    assert(e.1[i] == tris[k]);
                    assert(k < 3 * (f.count - 2));
                    assert(k / 3 + 2 < f.count);
                    assert(c.1[0] < c.0.len());
                    assert(c.1[k / 3 + 1] < c.0.len());
                    assert(c.1[k / 3 + 2] < c.0.len());
                }
            }
        }
    }
}

pub proof fn lemma_corners_grow(
    src: SourceMesh,
    place: Option<Placement>,
    verts: Seq<Vertex>,
    begin: int,
    n: nat,
)
    ensures
        verts.len() <= with_corners(src, place, verts, begin, n).0.len(),
    decreases n,
{
    if n > 0 {
        lemma_corners_grow(src, place, verts, begin, (n - 1) as nat);
    }
}

/// Every face that has a material is in the part of its material, and in no other.
pub proof fn law_parts_share_faces(src: SourceMesh, f: usize, mat: usize)
    requires
        f < src.faces@.len(),
        has_face_materials(src),
    ensures
        part_faces(src, mat).contains(f) <==> src.face_material@[f as int] as usize == mat,
{
    assert(src.face_material.len() == src.face_material@.len());
    lemma_faces_with(src.face_material@, mat, src.face_material@.len(), f);
}

proof fn lemma_faces_with(materials: Seq<u32>, mat: usize, n: nat, f: usize)
    requires
        n <= materials.len(),
        materials.len() <= usize::MAX,
    ensures
        faces_with(materials, mat, n).contains(f) <==> f < n && materials[f as int] as usize == mat,
    decreases n,
{
    if n > 0 {
        lemma_faces_with(materials, mat, (n - 1) as nat, f);
        let rest = faces_with(materials, mat, (n - 1) as nat);
        let all = faces_with(materials, mat, n);
        if materials[n - 1] as usize == mat {
            assert(all[rest.len() as int] == (n - 1) as usize);
            if rest.contains(f) {
                let k = choose|k: int| 0 <= k < rest.len() && rest[k] == f;
                assert(all[k] == f);
            }
        }
    }
}

} // verus!
