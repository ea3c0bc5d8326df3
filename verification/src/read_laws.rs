//! What is read back of the meshes of a tile through its document.

use crate::bytes;
use crate::float::F32;
use crate::gltf;
use crate::gltf_laws;
use crate::halving;
use crate::ieee;
use crate::isotone;
use crate::json::Doc;
use crate::merge;
use crate::mesh;
use crate::mesh::MeshView;
use crate::nearness;
use crate::rounding;
use vstd::arithmetic::power2::*;
use vstd::prelude::*;

verus! {

/// How many numbers a value of the shape `t` has.
pub open spec fn width(t: Seq<char>) -> nat {
    if t == "VEC3"@ {
        3
    } else if t == "VEC2"@ {
        2
    } else if t == "SCALAR"@ {
        1
    } else {
        0
    }
}

/// An accessor of the document, with the run of bytes that it reads.
pub struct Access {
    /// What it reads: 5126 are floating-point numbers, 5125 integers.
    pub component: nat,
    /// How many values.
    pub count: nat,
    /// The shape of each value.
    pub shape: Seq<char>,
    /// Where the first one begins in the binary data.
    pub offset: nat,
    /// How many bytes it may read.
    pub len: nat,
}

/// Whether entry `j` of the accessors, and the run of bytes that it names, say `x`.
pub open spec fn says(ms: Seq<MeshView>, j: int, x: Access) -> bool {
    let a = gltf::accessor_docs(ms)[j]->Obj_0;
    &&& 0 <= j < gltf::accessor_docs(ms).len()
    &&& gltf::accessor_docs(ms)[j] is Obj
    &&& a.len() >= 4
    &&& a[0].0 == "bufferView"@ && a[0].1 is Uint
    &&& a[1] == ("componentType"@, Doc::Uint(x.component))
    &&& a[2] == ("count"@, Doc::Uint(x.count))
    &&& a[3] == ("type"@, Doc::Str(x.shape))
    &&& a[0].1->Uint_0 < gltf::view_docs(ms).len()
    &&& ({
        let v = gltf::view_docs(ms)[a[0].1->Uint_0 as int]->Obj_0;
        &&& v.len() >= 3
        &&& v[0] == ("buffer"@, Doc::Uint(0))
        &&& v[1] == ("byteOffset"@, Doc::Uint(x.offset))
        &&& v[2] == ("byteLength"@, Doc::Uint(x.len))
    })
}

/// Whether an accessor reads its run of bytes to the end, and the run lies within the
/// binary data.
pub open spec fn fits(ms: Seq<MeshView>, x: Access) -> bool {
    x.count * width(x.shape) * 4 == x.len && x.offset + x.len <= gltf::binary(ms).len()
}

/// Number `k` of value `v` that an accessor reads.
pub open spec fn value_read(ms: Seq<MeshView>, x: Access, v: int, k: int) -> nat {
    bytes::read32(gltf::binary(ms), x.offset + 4 * (width(x.shape) * v + k))
}

/// What entry `j` of the accessors says of mesh `i`.
spec fn access_of(ms: Seq<MeshView>, i: int, a: int) -> Access {
    Access {
        component: if a == 4 {
            5125
        } else {
            5126
        },
        count: if a == 4 {
            ms[i].indices.len()
        } else {
            ms[i].positions.len()
        },
        shape: gltf::shape(a),
        offset: gltf::attribute_offset(ms, i, a),
        len: gltf::attribute_len(ms, i, a),
    }
}

proof fn lemma_shapes()
    ensures
        width("VEC3"@) == 3,
        width("VEC2"@) == 2,
        width("SCALAR"@) == 1,
{
    reveal_strlit("VEC3");
    reveal_strlit("VEC2");
    reveal_strlit("SCALAR");
    assert("VEC3"@[3] != "VEC2"@[3]);
    assert("SCALAR"@.len() == 6 && "VEC3"@.len() == 4 && "VEC2"@.len() == 4);
}

proof fn lemma_access(ms: Seq<MeshView>, i: int, a: int)
    requires
        0 <= i < ms.len(),
        0 <= a < 5,
        merge::sound(ms[i]),
        ms[i].indices.len() % 3 == 0,
    ensures
        says(ms, 5 * i + a, access_of(ms, i, a)),
        fits(ms, access_of(ms, i, a)),
        access_of(ms, i, a).count * width(access_of(ms, i, a).shape) == gltf::attribute_words(
            ms[i],
            a,
        ).len(),
{
    gltf_laws::law_accessor_views(ms, i, a);
    gltf_laws::law_attribute_bytes(ms, i, a);
    lemma_shapes();
    let c = access_of(ms, i, a).count;
    let w = width(gltf::shape(a));
    assert(w == 3 ==> c * w == 3 * c) by (nonlinear_arith);
    assert(w == 2 ==> c * w == 2 * c) by (nonlinear_arith);
    assert(w == 1 ==> c * w == c) by (nonlinear_arith);
}

/// A word that an accessor reads.
proof fn lemma_word(ms: Seq<MeshView>, i: int, a: int, v: int, k: int)
    requires
        0 <= i < ms.len(),
        0 <= a < 5,
        merge::sound(ms[i]),
        ms[i].indices.len() % 3 == 0,
        0 <= v < access_of(ms, i, a).count,
        0 <= k < width(access_of(ms, i, a).shape),
    ensures
        ({
            let x = access_of(ms, i, a);
            let n = width(x.shape) * v + k;
            &&& 0 <= n < gltf::attribute_words(ms[i], a).len()
            &&& value_read(ms, x, v, k) == gltf::attribute_words(ms[i], a)[n]
        }),
{
    lemma_access(ms, i, a);
    gltf_laws::law_attribute_bytes(ms, i, a);
    let x = access_of(ms, i, a);
    let words = gltf::attribute_words(ms[i], a);
    let w = width(x.shape) as int;
    let n = w * v + k;
    assert(0 <= n < x.count * w) by (nonlinear_arith)
        requires
            n == w * v + k,
            0 <= v < x.count,
            0 <= k < w,
    ;
    let at = x.offset + 4 * n;
    let data = gltf::binary(ms);
    let part = data.subrange(x.offset as int, x.offset + x.len as int);
    assert(part == bytes::words_bytes(words));
    assert(data.subrange(at, at + 4) =~= bytes::le32(words[n] as nat)) by {
        broadcast use bytes::lemma_le32_len;

        assert forall|b: int| 0 <= b < 4 implies data.subrange(at, at + 4)[b] == bytes::le32(
            words[n] as nat,
        )[b] by {
            assert(data.subrange(at, at + 4)[b] == part[4 * n + b]);
            assert((4 * n + b) / 4 == n && (4 * n + b) % 4 == b);
        }
    }
    bytes::law_le32_read(words[n] as nat, data, at);
}

/// Which entries of the accessors the primitive of mesh `i` names, by what for.
pub open spec fn names(
    ms: Seq<MeshView>,
    i: int,
    position: int,
    normal: int,
    uv: int,
    id: int,
    index: int,
) -> bool {
    let p = gltf::primitive_doc(ms, i)->Obj_0;
    &&& gltf::mesh_docs(ms)[i]->Obj_0[1] == (
        "primitives"@,
        Doc::Arr(seq![gltf::primitive_doc(ms, i)]),
    )
    &&& p[0].0 == "attributes"@ && p[0].1 is Obj
    &&& p[0].1->Obj_0[0] == ("POSITION"@, Doc::Uint(position as nat))
    &&& p[0].1->Obj_0[1] == ("NORMAL"@, Doc::Uint(normal as nat))
    &&& p[0].1->Obj_0[2] == ("TEXCOORD_0"@, Doc::Uint(uv as nat))
    &&& p[0].1->Obj_0[3] == ("_BATCHID"@, Doc::Uint(id as nat))
    &&& p[1] == ("indices"@, Doc::Uint(index as nat))
    &&& p[3] == ("mode"@, Doc::Uint(4))
}

/// What is drawn of a mesh is what the mesh holds. The primitive of mesh `i` is a list of
/// triangles and names five accessors, each of which reads its own run of bytes to the end:
/// of one position, normal, texture coordinate and component for every vertex, and of one
/// index for every corner of a triangle. Vertex `v` gets its numbers bit for bit.
pub proof fn law_vertices_read_back(ms: Seq<MeshView>, i: int)
    requires
        0 <= i < ms.len(),
        merge::sound(ms[i]),
        ms[i].indices.len() % 3 == 0,
    ensures
        exists|p: Access, n: Access, t: Access, b: Access, x: Access|
            {
                let m = ms[i];
                &&& #[trigger] reads(ms, i, p, n, t, b, x)
                &&& p.count == m.positions.len() && p.shape == "VEC3"@ && p.component == 5126
                &&& n.count == m.positions.len() && n.shape == "VEC3"@ && n.component == 5126
                &&& t.count == m.positions.len() && t.shape == "VEC2"@ && t.component == 5126
                &&& b.count == m.positions.len() && b.shape == "SCALAR"@ && b.component == 5126
                &&& x.count == m.indices.len() && x.shape == "SCALAR"@ && x.component == 5125
                &&& forall|v: int, k: int|
                    0 <= v < m.positions.len() && 0 <= k < 3 ==> #[trigger] value_read(ms, p, v, k)
                        == m.positions[v][k].bits
                &&& forall|v: int, k: int|
                    0 <= v < m.positions.len() && 0 <= k < 3 ==> #[trigger] value_read(ms, n, v, k)
                        == m.normals[v][k].bits
                &&& forall|v: int, k: int|
                    0 <= v < m.positions.len() && 0 <= k < 2 ==> #[trigger] value_read(ms, t, v, k)
                        == m.uvs[v][k].bits
                &&& forall|v: int|
                    0 <= v < m.positions.len() ==> component_read(
                        #[trigger] value_read(ms, b, v, 0),
                        m.batch_ids[v] as nat,
                    )
                &&& forall|c: int|
                    0 <= c < m.indices.len() ==> #[trigger] value_read(ms, x, c, 0) == m.indices[corner(
                        m.flip_winding,
                        c,
                    )]
            },
{
    let m = ms[i];
    let (p, n, t, b, x) = (
        access_of(ms, i, 0),
        access_of(ms, i, 1),
        access_of(ms, i, 2),
        access_of(ms, i, 3),
        access_of(ms, i, 4),
    );
    lemma_access(ms, i, 0);
    lemma_access(ms, i, 1);
    lemma_access(ms, i, 2);
    lemma_access(ms, i, 3);
    lemma_access(ms, i, 4);
    lemma_shapes();
    assert(names(ms, i, 5 * i, 5 * i + 1, 5 * i + 2, 5 * i + 3, 5 * i + 4));
    assert(reads(ms, i, p, n, t, b, x));
    assert forall|v: int, k: int|
        0 <= v < m.positions.len() && 0 <= k < 3 implies #[trigger] value_read(ms, p, v, k)
        == m.positions[v][k].bits by {
        lemma_word(ms, i, 0, v, k);
        assert((3 * v + k) / 3 == v && (3 * v + k) % 3 == k);
    }
    assert forall|v: int, k: int|
        0 <= v < m.positions.len() && 0 <= k < 3 implies #[trigger] value_read(ms, n, v, k)
        == m.normals[v][k].bits by {
        lemma_word(ms, i, 1, v, k);
        assert((3 * v + k) / 3 == v && (3 * v + k) % 3 == k);
    }
    assert forall|v: int, k: int|
        0 <= v < m.positions.len() && 0 <= k < 2 implies #[trigger] value_read(ms, t, v, k)
        == m.uvs[v][k].bits by {
        lemma_word(ms, i, 2, v, k);
        assert((2 * v + k) / 2 == v && (2 * v + k) % 2 == k);
    }
    assert forall|v: int| 0 <= v < m.positions.len() implies component_read(
        #[trigger] value_read(ms, b, v, 0),
        m.batch_ids[v] as nat,
    ) by {
        lemma_word(ms, i, 3, v, 0);
        lemma_component(m.batch_ids[v]);
    }
    assert forall|c: int| 0 <= c < m.indices.len() implies #[trigger] value_read(ms, x, c, 0)
        == m.indices[corner(m.flip_winding, c)] by {
        lemma_word(ms, i, 4, c, 0);
    }
}

/// Whether the five accessors are those that the primitive of mesh `i` names, each reading
/// its run of bytes to the end.
pub open spec fn reads(
    ms: Seq<MeshView>,
    i: int,
    p: Access,
    n: Access,
    t: Access,
    b: Access,
    x: Access,
) -> bool {
    exists|jp: int, jn: int, jt: int, jb: int, jx: int|
        {
            &&& #[trigger] names(ms, i, jp, jn, jt, jb, jx)
            &&& says(ms, jp, p) && fits(ms, p)
            &&& says(ms, jn, n) && fits(ms, n)
            &&& says(ms, jt, t) && fits(ms, t)
            &&& says(ms, jb, b) && fits(ms, b)
            &&& says(ms, jx, x) && fits(ms, x)
        }
}

/// Which of the corners is drawn as number `c`: where triangles are turned round, their
/// second and third corner change places.
pub open spec fn corner(turned: bool, c: int) -> int {
    if turned && c % 3 == 1 {
        c + 1
    } else if turned && c % 3 == 2 {
        c - 1
    } else {
        c
    }
}

/// Whether a word is that of the floating-point number `id`, up to one part in `2^24`.
pub open spec fn component_read(word: nat, id: nat) -> bool {
    let x = F32 { bits: word as u32 };
    &&& x.finite()
    &&& ieee::abs_of(x.rank() - id * nearness::one32()) * pow2(24) <= id * nearness::one32() + pow2(
        23,
    )
}

proof fn lemma_component(id: u32)
    ensures
        component_read(F32::from_uint(id as u64).bits as nat, id as nat),
{
    reveal(F32::rank);
    reveal(F32::spec_from_uint);
    let g = ieee::single();
    let n = id as nat * pow2(149);
    lemma_pow2_pos(149);
    let z = ieee::spec_from_uint(g, id as nat);
    isotone::lemma_signed(g, false, rounding::round_mag(24, g.inf as nat, n, 1));
    assert(g.value(z) == isotone::rounded(g, n as int, 1));
    // The largest identifier is far below the largest single.
    let top = 0x4f80_0000u64;
    lemma2_to64();
    lemma2_to64_rest();
    crate::monotone::lemma_units_of(24, 158, pow2(23));
    lemma_pow2_adds(23, 158);
    lemma_pow2_adds(32, 149);
    assert(g.value(top) == pow2(181));
    halving::lemma_rounded_exact(g, top, 1);
    assert(n <= pow2(181)) by (nonlinear_arith)
        requires
            n == id as nat * pow2(149),
            id < 0x1_0000_0000,
            pow2(181) == 0x1_0000_0000 * pow2(149),
    ;
    assert(pow2(181) as int * 1 == pow2(181));
    isotone::lemma_rounded_ordered(g, n as int, pow2(181) as int, 1);
    if g.infinite(z) {
        ieee::lemma_units_increase(24, top as nat, g.inf as nat);
    }
    halving::lemma_rounded_near(g, z, n as int, 1);
    assert(g.value(z) * 1 == g.value(z));
}

/// The bounds that the document gives for the positions of a mesh are least: along each
/// axis every position that is a number lies between the two, and where all are numbers one
/// lies at each.
pub proof fn law_position_bounds(ms: Seq<MeshView>, i: int, k: int)
    requires
        0 <= i < ms.len(),
        0 <= k < 3,
    ensures
        ({
            let a = gltf::accessor_docs(ms)[5 * i]->Obj_0;
            let points = ms[i].positions;
            exists|lo: F32, hi: F32|
                {
                    &&& #[trigger] bounds_said(a, k, lo, hi)
                    &&& forall|v: int|
                        0 <= v < points.len() && !(#[trigger] points[v])[k].nan() ==> lo.le(
                            points[v][k],
                        ) && points[v][k].le(hi)
                    &&& points.len() > 0 && (forall|v: int|
                        0 <= v < points.len() ==> (#[trigger] points[v])[k].finite()) ==> (exists|
                        v: int,
                    |
                        0 <= v < points.len() && (#[trigger] points[v])[k] == lo) && (exists|v: int|
                        0 <= v < points.len() && (#[trigger] points[v])[k] == hi)
                }
        }),
{
    gltf_laws::law_accessor_views(ms, i, 0);
    let a = gltf::accessor_docs(ms)[5 * i]->Obj_0;
    let points = ms[i].positions;
    let (lo, hi) = (mesh::lowest(points, k), mesh::highest(points, k));
    assert(bounds_said(a, k, lo, hi));
    assert forall|v: int| 0 <= v < points.len() && !(#[trigger] points[v])[k].nan() implies lo.le(
        points[v][k],
    ) && points[v][k].le(hi) by {
        mesh::lemma_extremes(points, v, k);
    }
    if points.len() > 0 && (forall|v: int|
        0 <= v < points.len() ==> (#[trigger] points[v])[k].finite()) {
        lemma_extremes_taken(points, k);
    }
}

/// Whether the bounds of an accessor along axis `k` are `lo` and `hi`.
pub open spec fn bounds_said(a: Seq<(Seq<char>, Doc)>, k: int, lo: F32, hi: F32) -> bool {
    &&& a.len() >= 6
    &&& a[4].0 == "min"@ && a[4].1 is Arr && a[4].1->Arr_0.len() == 3
    &&& a[4].1->Arr_0[k] == Doc::Float(lo.widen())
    &&& a[5].0 == "max"@ && a[5].1 is Arr && a[5].1->Arr_0.len() == 3
    &&& a[5].1->Arr_0[k] == Doc::Float(hi.widen())
}

proof fn lemma_extremes_taken(points: Seq<[F32; 3]>, k: int)
    requires
        points.len() > 0,
        forall|v: int| 0 <= v < points.len() ==> (#[trigger] points[v])[k].finite(),
    ensures
        exists|v: int| 0 <= v < points.len() && (#[trigger] points[v])[k] == mesh::lowest(points, k),
        exists|v: int|
            0 <= v < points.len() && (#[trigger] points[v])[k] == mesh::highest(points, k),
    decreases points.len(),
{
    let rest = points.drop_last();
    let n = points.len() - 1;
    assert(points[n][k].finite());
    if rest.len() > 0 {
        assert forall|v: int| 0 <= v < rest.len() implies (#[trigger] rest[v])[k].finite() by {
            assert(points[v][k].finite());
        }
        lemma_extremes_taken(rest, k);
        let a = choose|v: int|
            0 <= v < rest.len() && (#[trigger] rest[v])[k] == mesh::lowest(rest, k);
        let b = choose|v: int|
            0 <= v < rest.len() && (#[trigger] rest[v])[k] == mesh::highest(rest, k);
        assert(points[a] == rest[a] && points[b] == rest[b]);
        assert(points[a][k] == mesh::lowest(rest, k) && points[b][k] == mesh::highest(rest, k));
    } else {
        points[n][k].lemma_between_infinities();
        assert(mesh::lowest(rest, k) == (F32 { bits: crate::float::INF32 }));
        assert(mesh::highest(rest, k) == (F32 { bits: crate::float::NEG_INF32 }));
    }
    assert(points[n] == points.last());
}

} // verus!
