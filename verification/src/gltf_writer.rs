//! Writing the glTF document of a tile and its binary data.

use crate::bytes;
use crate::float::{F32, F64, HALF64, ONE64};
use crate::gltf;
use crate::json;
use crate::json::{Doc, Json};
use crate::merge;
use crate::mesh;
use crate::mesh::{MeshData, MeshView, TileGeometry};
use crate::text;
use vstd::prelude::*;

verus! {

/// Where the attributes of the meshes lie in the binary data.
struct Layout {
    /// Where each attribute begins.
    offsets: Vec<usize>,
    /// The bytes of each attribute.
    lens: Vec<usize>,
}

impl Layout {
    /// Whether this is the layout of the first `n` meshes.
    spec fn fits(self, ms: Seq<MeshView>, n: int) -> bool {
        &&& self.offsets@.len() == 5 * n
        &&& self.lens@.len() == 5 * n
        &&& forall|j: int|
            #![trigger self.offsets@[j]]
            #![trigger self.lens@[j]]
            0 <= j < 5 * n ==> self.offsets@[j] == gltf::attribute_offset(ms, j / 5, j % 5)
                && self.lens@[j] == gltf::attribute_len(ms, j / 5, j % 5)
    }
}

/// The components of the vertices as words.
fn batch_word_list(m: &MeshData) -> (r: Vec<u32>)
    ensures
        r@ == gltf::batch_words(m@),
{
    let n: usize = m.positions.len();
    let given: bool = m.batch_ids.len() == n;
    let mut out: Vec<u32> = Vec::new();
    let mut i: usize = 0;
    while i < n
        invariant
            i <= n,
            n == m.positions@.len(),
            given == (m.batch_ids@.len() == n),
            out@ == gltf::batch_words(m@).take(i as int),
        decreases n - i,
    {
        let w: u32 = if given {
            F32::from_uint(m.batch_ids[i] as u64).bits
        } else {
            0
        };
        out.push(w);
        i = i + 1;
        proof {
            assert(out@ =~= gltf::batch_words(m@).take(i as int));
        }
    }
    proof {
        assert(gltf::batch_words(m@).take(n as int) =~= gltf::batch_words(m@));
    }
    out
}

/// The words of attribute `a`.
fn attribute_list(m: &MeshData, a: usize) -> (r: Vec<u32>)
    requires
        a < 5,
    ensures
        r@ == gltf::attribute_words(m@, a as int),
{
    if a == 0 {
        bytes::flat3(&m.positions)
    } else if a == 1 {
        bytes::flat3(&m.normals)
    } else if a == 2 {
        bytes::flat2(&m.uvs)
    } else if a == 3 {
        batch_word_list(m)
    } else {
        merge::drawn_indices(m)
    }
}

/// The bytes of all meshes, and where their attributes lie.
fn write_geometry(meshes: &Vec<MeshData>) -> (r: (Vec<u8>, Layout))
    ensures
        r.0@ == gltf::geometry(mesh::mesh_views(meshes@), meshes@.len()),
        r.1.fits(mesh::mesh_views(meshes@), meshes@.len() as int),
{
    let ghost ms = mesh::mesh_views(meshes@);
    let mut data: Vec<u8> = Vec::new();
    let mut layout = Layout { offsets: Vec::new(), lens: Vec::new() };
    let mut i: usize = 0;
    while i < meshes.len()
        invariant
            i <= meshes@.len(),
            ms == mesh::mesh_views(meshes@),
            data@ == gltf::geometry(ms, i as nat),
            layout.fits(ms, i as int),
        decreases meshes@.len() - i,
    {
        let m: &MeshData = &meshes[i];
        let ghost before = data@;
        let mut a: usize = 0;
        proof {
            assert(data@ =~= before + gltf::attributes(m@, 0));
        }
        while a < 5
            invariant
                a <= 5,
                ms[i as int] == m@,
                before == gltf::geometry(ms, i as nat),
                data@ == before + gltf::attributes(m@, a as nat),
                layout.offsets@.len() == 5 * i + a,
                layout.lens@.len() == 5 * i + a,
                forall|j: int|
                    #![trigger layout.offsets@[j]]
                    #![trigger layout.lens@[j]]
                    0 <= j < 5 * i + a ==> layout.offsets@[j] == gltf::attribute_offset(
                        ms,
                        j / 5,
                        j % 5,
                    ) && layout.lens@[j] == gltf::attribute_len(ms, j / 5, j % 5),
            decreases 5 - a,
        {
            let words: Vec<u32> = attribute_list(m, a);
            let offset: usize = data.len();
            let ghost len_before = data@.len();
            bytes::append_words(&mut data, &words);
            proof {
                let at = 5 * i + a;
                assert(at / 5 == i && at % 5 == a);
                assert(data@.len() == len_before + 4 * words@.len());
            }
            let len: usize = data.len() - offset;
            layout.offsets.push(offset);
            layout.lens.push(len);
            proof {
                assert(data@ =~= before + gltf::attributes(m@, (a + 1) as nat));
            }
            a = a + 1;
        }
        i = i + 1;
    }
    (data, layout)
}

/// The meshes with a texture that no earlier mesh has.
fn texture_owner_list(meshes: &Vec<MeshData>) -> (r: Vec<usize>)
    ensures
        r@ == gltf::texture_owners(mesh::mesh_views(meshes@), meshes@.len()),
{
    let ghost ms = mesh::mesh_views(meshes@);
    let mut out: Vec<usize> = Vec::new();
    let mut i: usize = 0;
    while i < meshes.len()
        invariant
            i <= meshes@.len(),
            ms == mesh::mesh_views(meshes@),
            out@ == gltf::texture_owners(ms, i as nat),
        decreases meshes@.len() - i,
    {
        let mut k: usize = 0;
        let mut seen: bool = false;
        proof {
            lemma_owners_first(ms, i as nat);
        }
        while k < out.len()
            invariant
                k <= out@.len(),
                i < meshes@.len(),
                ms == mesh::mesh_views(meshes@),
                out@ == gltf::texture_owners(ms, i as nat),
                forall|j: int| 0 <= j < out@.len() ==> (#[trigger] out@[j]) < i,
                seen ==> gltf::texture_seen(ms, i as int),
                !seen ==> forall|j: int|
                    0 <= j < k ==> ms[#[trigger] out@[j] as int].texture_uri
                        != ms[i as int].texture_uri,
            decreases out@.len() - k,
        {
            let o: usize = out[k];
            if mesh::same_text(&meshes[o].texture_uri, &meshes[i].texture_uri) {
                proof {
                    assert(ms[o as int].texture_uri == ms[i as int].texture_uri);
                }
                seen = true;
            }
            k = k + 1;
        }
        proof {
            assert(ms[i as int] == meshes@[i as int]@);
            if !seen && ms[i as int].texture_uri is Some && gltf::texture_seen(ms, i as int) {
                let j = choose|j: int|
                    0 <= j < i && (#[trigger] ms[j]).texture_uri == ms[i as int].texture_uri;
                lemma_owner_exists(ms, i as nat, j);
            }
        }
        if !seen && meshes[i].texture_uri.is_some() {
            out.push(i);
        }
        i = i + 1;
    }
    out
}

/// The owners among the first `n` meshes are among them, and have a texture.
pub proof fn lemma_owners_first(ms: Seq<MeshView>, n: nat)
    requires
        n <= usize::MAX,
    ensures
        forall|k: int|
            0 <= k < gltf::texture_owners(ms, n).len() ==> (#[trigger] gltf::texture_owners(
                ms,
                n,
            )[k]) < n && ms[gltf::texture_owners(ms, n)[k] as int].texture_uri is Some,
        gltf::texture_owners(ms, n).len() <= n,
    decreases n,
{
    if n > 0 {
        lemma_owners_first(ms, (n - 1) as nat);
    }
}

/// Every texture has an owner.
pub proof fn lemma_owner_exists(ms: Seq<MeshView>, n: nat, j: int)
    requires
        0 <= j < n <= usize::MAX,
        ms[j].texture_uri is Some,
    ensures
        exists|k: int|
            0 <= k < gltf::texture_owners(ms, n).len() && ms[#[trigger] gltf::texture_owners(
                ms,
                n,
            )[k] as int].texture_uri == ms[j].texture_uri,
    decreases n,
{
    let rest = gltf::texture_owners(ms, (n - 1) as nat);
    let all = gltf::texture_owners(ms, n);
    if j < n - 1 {
        lemma_owner_exists(ms, (n - 1) as nat, j);
        let k = choose|k: int|
            0 <= k < rest.len() && ms[#[trigger] rest[k] as int].texture_uri == ms[j].texture_uri;
        assert(all[k] == rest[k]);
    } else if gltf::texture_seen(ms, j) {
        let i = choose|i: int| 0 <= i < j && (#[trigger] ms[i]).texture_uri == ms[j].texture_uri;
        lemma_owner_exists(ms, (n - 1) as nat, i);
        let k = choose|k: int|
            0 <= k < rest.len() && ms[#[trigger] rest[k] as int].texture_uri == ms[i].texture_uri;
        assert(all[k] == rest[k]);
    } else {
        assert(all[rest.len() as int] == j);
    }
}

/// The materials are first met among the meshes that they belong to.
pub proof fn lemma_material_owners(ms: Seq<MeshView>, n: nat)
    requires
        n <= usize::MAX,
    ensures
        forall|k: int|
            0 <= k < gltf::material_owners(ms, n).len() ==> (#[trigger] gltf::material_owners(
                ms,
                n,
            )[k]) < n,
        gltf::material_owners(ms, n).len() <= n,
    decreases n,
{
    if n > 0 {
        lemma_material_owners(ms, (n - 1) as nat);
    }
}

proof fn lemma_material_place(ms: Seq<MeshView>, owners: Seq<usize>, i: int, g: int)
    requires
        0 <= g <= owners.len(),
        forall|j: int|
            0 <= j < g ==> !gltf::same_material(ms[#[trigger] owners[j] as int], ms[i]),
        g < owners.len() ==> gltf::same_material(ms[owners[g] as int], ms[i]),
    ensures
        gltf::material_place(ms, owners, i) == g,
    decreases owners.len(),
{
    if owners.len() > 0 {
        if g < owners.len() {
            lemma_material_place(ms, owners.drop_last(), i, g);
        } else {
            assert(!gltf::same_material(ms[owners[owners.len() - 1] as int], ms[i]));
            lemma_material_place(ms, owners.drop_last(), i, g - 1);
        }
    }
}

/// The materials, and the material of each mesh.
fn material_lists(meshes: &Vec<MeshData>) -> (r: (Vec<usize>, Vec<usize>))
    ensures
        r.0@ == gltf::material_owners(mesh::mesh_views(meshes@), meshes@.len()),
        r.1@.len() == meshes@.len(),
        forall|i: int|
            0 <= i < r.1@.len() ==> #[trigger] r.1@[i] == gltf::material_of(
                mesh::mesh_views(meshes@),
                i,
            ),
{
    let ghost ms = mesh::mesh_views(meshes@);
    let mut owners: Vec<usize> = Vec::new();
    let mut of: Vec<usize> = Vec::new();
    let mut i: usize = 0;
    while i < meshes.len()
        invariant
            i <= meshes@.len(),
            ms == mesh::mesh_views(meshes@),
            owners@ == gltf::material_owners(ms, i as nat),
            of@.len() == i,
            forall|j: int| 0 <= j < i ==> #[trigger] of@[j] == gltf::material_of(ms, j),
        decreases meshes@.len() - i,
    {
        let m: &MeshData = &meshes[i];
        proof {
            lemma_material_owners(ms, i as nat);
        }
        let mut k: usize = 0;
        let mut found: bool = false;
        while k < owners.len() && !found
            invariant
                k <= owners@.len(),
                i < meshes@.len(),
                *m == meshes@[i as int],
                ms == mesh::mesh_views(meshes@),
                forall|j: int| 0 <= j < owners@.len() ==> (#[trigger] owners@[j]) < i,
                forall|j: int|
                    0 <= j < k ==> !gltf::same_material(
                        ms[#[trigger] owners@[j] as int],
                        ms[i as int],
                    ),
                found ==> k < owners@.len() && gltf::same_material(
                    ms[owners@[k as int] as int],
                    ms[i as int],
                ),
            decreases owners@.len() - k + (if found {
                0int
            } else {
                1
            }),
        {
            let o: &MeshData = &meshes[owners[k]];
            proof {
                assert(ms[owners@[k as int] as int] == o@);
                assert(ms[i as int] == m@);
            }
            if mesh::same_text(&o.texture_uri, &m.texture_uri) && o.metallic_factor.same(
                m.metallic_factor,
            ) && o.roughness_factor.same(m.roughness_factor) {
                found = true;
            } else {
                k = k + 1;
            }
        }
        proof {
            lemma_material_place(ms, owners@, i as int, k as int);
        }
        of.push(k);
        if k == owners.len() {
            owners.push(i);
        }
        i = i + 1;
    }
    (owners, of)
}

/// Appends the embedded textures to the data; returns their owners and offsets.
fn write_images(meshes: &Vec<MeshData>, owners: &Vec<usize>, data: &mut Vec<u8>) -> (r: Vec<
    (usize, usize),
>)
    requires
        forall|k: int| 0 <= k < owners@.len() ==> (#[trigger] owners@[k]) < meshes@.len(),
    ensures
        (final(data)@, r@) == gltf::with_images(
            mesh::mesh_views(meshes@),
            old(data)@,
            owners@,
            owners@.len(),
        ),
{
    let ghost ms = mesh::mesh_views(meshes@);
    let ghost start = data@;
    let mut images: Vec<(usize, usize)> = Vec::new();
    let mut k: usize = 0;
    while k < owners.len()
        invariant
            k <= owners@.len(),
            ms == mesh::mesh_views(meshes@),
            forall|j: int| 0 <= j < owners@.len() ==> (#[trigger] owners@[j]) < meshes@.len(),
            (data@, images@) == gltf::with_images(ms, start, owners@, k as nat),
        decreases owners@.len() - k,
    {
        let o: usize = owners[k];
        let m: &MeshData = &meshes[o];
        proof {
            assert(ms[o as int] == m@);
        }
        if m.texture_uri.is_some() && m.texture_mime.is_some() {
            if let Some(image) = &m.texture_bytes {
                bytes::pad_to(data, 0, 4);
                let offset: usize = data.len();
                mesh::append_copies(data, image);
                images.push((o, offset));
            }
        }
        k = k + 1;
    }
    images
}

/// The entry of a run of bytes of an attribute.
fn view_json(offset: usize, len: usize, target: u64) -> (r: Json)
    ensures
        r@ == Doc::object()
            .with("buffer"@, Doc::Uint(0))
            .with("byteOffset"@, Doc::Uint(offset as nat))
            .with("byteLength"@, Doc::Uint(len as nat))
            .with("target"@, Doc::Uint(target as nat)),
{
    let o: Json = json::object();
    let o: Json = json::with(o, "buffer", Json::Uint(0));
    let o: Json = json::with(o, "byteOffset", Json::Uint(offset as u64));
    let o: Json = json::with(o, "byteLength", Json::Uint(len as u64));
    json::with(o, "target", Json::Uint(target))
}

/// The entries of all runs of bytes.
fn views_json(
    meshes: &Vec<MeshData>,
    layout: &Layout,
    images: &Vec<(usize, usize)>,
) -> (r: Json)
    requires
        layout.fits(mesh::mesh_views(meshes@), meshes@.len() as int),
        images@ == gltf::with_all_images(mesh::mesh_views(meshes@)).1,
        forall|k: int|
            0 <= k < images@.len() ==> (#[trigger] images@[k]).0 < meshes@.len()
                && meshes@[images@[k].0 as int].texture_bytes is Some,
    ensures
        r@ == Doc::Arr(gltf::view_docs(mesh::mesh_views(meshes@))),
{
    let ghost ms = mesh::mesh_views(meshes@);
    let ghost all = gltf::view_docs(ms);
    let mut items: Vec<Json> = Vec::new();
    let mut j: usize = 0;
    while j < layout.offsets.len()
        invariant
            j <= layout.offsets@.len(),
            ms == mesh::mesh_views(meshes@),
            all == gltf::view_docs(ms),
            layout.fits(ms, meshes@.len() as int),
            items@.len() == j,
            forall|n: int| 0 <= n < j ==> (#[trigger] items@[n])@ == all[n],
        decreases layout.offsets@.len() - j,
    {
        let target: u64 = if j % 5 == 4 {
            34963
        } else {
            34962
        };
        let item: Json = view_json(layout.offsets[j], layout.lens[j], target);
        proof {
            assert(all[j as int] == gltf::view_doc(ms, j as int / 5, j as int % 5));
        }
        items.push(item);
        j = j + 1;
    }
    let mut k: usize = 0;
    while k < images.len()
        invariant
            k <= images@.len(),
            ms == mesh::mesh_views(meshes@),
            all == gltf::view_docs(ms),
            images@ == gltf::with_all_images(ms).1,
            forall|n: int|
                0 <= n < images@.len() ==> (#[trigger] images@[n]).0 < meshes@.len()
                    && meshes@[images@[n].0 as int].texture_bytes is Some,
            items@.len() == 5 * ms.len() + k,
            forall|n: int| 0 <= n < items@.len() ==> (#[trigger] items@[n])@ == all[n],
        decreases images@.len() - k,
    {
        let (owner, offset): (usize, usize) = images[k];
        proof {
            assert(images@[k as int].0 < meshes@.len());
            assert(ms[owner as int] == meshes@[owner as int]@);
        }
        let len: usize = match &meshes[owner].texture_bytes {
            Some(image) => image.len(),
            None => 0,
        };
        let o: Json = json::object();
        let o: Json = json::with(o, "buffer", Json::Uint(0));
        let o: Json = json::with(o, "byteOffset", Json::Uint(offset as u64));
        let item: Json = json::with(o, "byteLength", Json::Uint(len as u64));
        proof {
            assert(all[5 * ms.len() + k] == gltf::image_view_doc(ms, k as int));
            assert(item@ == gltf::image_view_doc(ms, k as int));
        }
        items.push(item);
        k = k + 1;
    }
    proof {
        assert(json::docs(items@) =~= all);
    }
    json::array(items)
}

/// A corner of a box as an array.
fn corner_json(c: &[F32; 3]) -> (r: Json)
    ensures
        r@ == json::float_docs(Seq::new(3, |k: int| c[k].widen())),
{
    let mut xs: Vec<F64> = Vec::new();
    xs.push(c[0].widen());
    xs.push(c[1].widen());
    xs.push(c[2].widen());
    proof {
        assert(xs@ =~= Seq::new(3, |k: int| c[k].widen()));
    }
    json::floats(&xs)
}

/// The entry of attribute `a` of mesh `i`.
fn accessor_json(meshes: &Vec<MeshData>, i: usize, a: usize) -> (r: Json)
    requires
        i < meshes@.len(),
        a < 5,
        5 * meshes@.len() <= usize::MAX,
    ensures
        r@ == gltf::accessor_doc(mesh::mesh_views(meshes@), i as int, a as int),
{
    let m: &MeshData = &meshes[i];
    let component: u64 = if a == 4 {
        5125
    } else {
        5126
    };
    let count: usize = if a == 4 {
        m.indices.len()
    } else {
        m.positions.len()
    };
    let shape: &str = if a == 0 || a == 1 {
        "VEC3"
    } else if a == 2 {
        "VEC2"
    } else {
        "SCALAR"
    };
    proof {
        assert(mesh::mesh_views(meshes@)[i as int] == m@);
    }
    let o: Json = json::object();
    let o: Json = json::with(o, "bufferView", Json::Uint((5 * i + a) as u64));
    let o: Json = json::with(o, "componentType", Json::Uint(component));
    let o: Json = json::with(o, "count", Json::Uint(count as u64));
    let o: Json = json::with(o, "type", json::string(shape));
    if a == 0 {
        let b: ([F32; 3], [F32; 3]) = TileGeometry::compute_aabb(m.positions.as_slice());
        proof {
            assert(b.0[0] == mesh::lowest(m@.positions, 0) && b.0[1] == mesh::lowest(
                m@.positions,
                1,
            ) && b.0[2] == mesh::lowest(m@.positions, 2));
            assert(Seq::new(3, |k: int| b.0[k].widen()) =~= Seq::new(
                3,
                |k: int| mesh::lowest(m@.positions, k).widen(),
            ));
            assert(Seq::new(3, |k: int| b.1[k].widen()) =~= Seq::new(
                3,
                |k: int| mesh::highest(m@.positions, k).widen(),
            ));
        }
        let o: Json = json::with(o, "min", corner_json(&b.0));
        json::with(o, "max", corner_json(&b.1))
    } else {
        o
    }
}

/// The entries of all attributes.
fn accessors_json(meshes: &Vec<MeshData>) -> (r: Json)
    requires
        5 * meshes@.len() <= usize::MAX,
    ensures
        r@ == Doc::Arr(gltf::accessor_docs(mesh::mesh_views(meshes@))),
{
    let ghost all = gltf::accessor_docs(mesh::mesh_views(meshes@));
    let n: usize = 5 * meshes.len();
    let mut items: Vec<Json> = Vec::new();
    let mut j: usize = 0;
    while j < n
        invariant
            j <= n,
            n == 5 * meshes@.len(),
            all == gltf::accessor_docs(mesh::mesh_views(meshes@)),
            items@.len() == j,
            forall|k: int| 0 <= k < j ==> (#[trigger] items@[k])@ == all[k],
        decreases n - j,
    {
        items.push(accessor_json(meshes, j / 5, j % 5));
        j = j + 1;
    }
    proof {
        assert(json::docs(items@) =~= all);
    }
    json::array(items)
}

/// The entry of mesh `i`, which is of material `material`.
fn mesh_json(meshes: &Vec<MeshData>, i: usize, material: usize) -> (r: Json)
    requires
        i < meshes@.len(),
        5 * meshes@.len() <= usize::MAX,
        material == gltf::material_of(mesh::mesh_views(meshes@), i as int),
    ensures
        r@ == gltf::mesh_doc(mesh::mesh_views(meshes@), i as int),
{
    let base: u64 = 5 * i as u64;
    proof {
        assert(mesh::mesh_views(meshes@)[i as int] == meshes@[i as int]@);
    }
    let a: Json = json::object();
    let a: Json = json::with(a, "POSITION", Json::Uint(base));
    let a: Json = json::with(a, "NORMAL", Json::Uint(base + 1));
    let a: Json = json::with(a, "TEXCOORD_0", Json::Uint(base + 2));
    let a: Json = json::with(a, "_BATCHID", Json::Uint(base + 3));
    let p: Json = json::object();
    let p: Json = json::with(p, "attributes", a);
    let p: Json = json::with(p, "indices", Json::Uint(base + 4));
    let p: Json = json::with(p, "material", Json::Uint(material as u64));
    let p: Json = json::with(p, "mode", Json::Uint(4));
    let o: Json = json::object();
    let o: Json = json::with(o, "name", json::string(meshes[i].name.as_str()));
    json::with(o, "primitives", json::array_of_one(p))
}

/// The entries of the meshes.
fn meshes_json(meshes: &Vec<MeshData>, materials: &Vec<usize>) -> (r: Json)
    requires
        5 * meshes@.len() <= usize::MAX,
        materials@.len() == meshes@.len(),
        forall|i: int|
            0 <= i < materials@.len() ==> #[trigger] materials@[i] == gltf::material_of(
                mesh::mesh_views(meshes@),
                i,
            ),
    ensures
        r@ == Doc::Arr(gltf::mesh_docs(mesh::mesh_views(meshes@))),
{
    let ghost ms = mesh::mesh_views(meshes@);
    let mut items: Vec<Json> = Vec::new();
    let mut i: usize = 0;
    while i < meshes.len()
        invariant
            i <= meshes@.len(),
            ms == mesh::mesh_views(meshes@),
            5 * meshes@.len() <= usize::MAX,
            materials@.len() == meshes@.len(),
            forall|k: int|
                0 <= k < materials@.len() ==> #[trigger] materials@[k] == gltf::material_of(ms, k),
            items@.len() == i,
            forall|k: int| 0 <= k < i ==> (#[trigger] items@[k])@ == gltf::mesh_doc(ms, k),
        decreases meshes@.len() - i,
    {
        items.push(mesh_json(meshes, i, materials[i]));
        i = i + 1;
    }
    proof {
        assert(json::docs(items@) =~= gltf::mesh_docs(ms));
    }
    json::array(items)
}

/// The entries of the nodes.
fn nodes_json(meshes: &Vec<MeshData>) -> (r: Json)
    ensures
        r@ == Doc::Arr(gltf::node_docs(mesh::mesh_views(meshes@))),
{
    let ghost ms = mesh::mesh_views(meshes@);
    let mut items: Vec<Json> = Vec::new();
    let mut i: usize = 0;
    while i < meshes.len()
        invariant
            i <= meshes@.len(),
            ms == mesh::mesh_views(meshes@),
            items@.len() == i,
            forall|k: int| 0 <= k < i ==> (#[trigger] items@[k])@ == gltf::node_doc(ms, k),
        decreases meshes@.len() - i,
    {
        let o: Json = json::object();
        let o: Json = json::with(o, "mesh", Json::Uint(i as u64));
        items.push(json::with(o, "name", json::string(meshes[i].name.as_str())));
        i = i + 1;
    }
    proof {
        assert(json::docs(items@) =~= gltf::node_docs(ms));
    }
    json::array(items)
}

/// The scene.
fn scene_json(n: usize) -> (r: Json)
    ensures
        r@ == gltf::scene_doc(n as nat),
{
    let mut items: Vec<Json> = Vec::new();
    let mut i: usize = 0;
    while i < n
        invariant
            i <= n,
            items@.len() == i,
            forall|k: int| 0 <= k < i ==> (#[trigger] items@[k])@ == Doc::Uint(k as nat),
        decreases n - i,
    {
        items.push(Json::Uint(i as u64));
        i = i + 1;
    }
    proof {
        assert(json::docs(items@) =~= Seq::new(n as nat, |k: int| Doc::Uint(k as nat)));
    }
    json::with(json::object(), "nodes", json::array(items))
}

/// The sampler.
fn sampler_json() -> (r: Json)
    ensures
        r@ == gltf::sampler_doc(),
{
    let o: Json = json::object();
    let o: Json = json::with(o, "magFilter", Json::Uint(9729));
    let o: Json = json::with(o, "minFilter", Json::Uint(9987));
    let o: Json = json::with(o, "wrapS", Json::Uint(10497));
    json::with(o, "wrapT", Json::Uint(10497))
}

pub proof fn lemma_owner_place(
    ms: Seq<MeshView>,
    owners: Seq<usize>,
    uri: Option<Seq<char>>,
    g: int,
)
    requires
        0 <= g <= owners.len(),
        forall|j: int| 0 <= j < g ==> ms[#[trigger] owners[j] as int].texture_uri != uri,
        g < owners.len() ==> ms[owners[g] as int].texture_uri == uri,
    ensures
        gltf::owner_place(ms, owners, uri) == g,
    decreases owners.len(),
{
    if owners.len() > 0 {
        if g < owners.len() {
            lemma_owner_place(ms, owners.drop_last(), uri, g);
        } else {
            assert(ms[owners[owners.len() - 1] as int].texture_uri != uri);
            lemma_owner_place(ms, owners.drop_last(), uri, g - 1);
        }
    }
}

/// The number of the texture of mesh `i`.
fn find_texture(meshes: &Vec<MeshData>, owners: &Vec<usize>, i: usize) -> (r: usize)
    requires
        i < meshes@.len(),
        meshes@[i as int].texture_uri is Some,
        owners@ == gltf::texture_owners(mesh::mesh_views(meshes@), meshes@.len()),
    ensures
        r == gltf::texture_number(
            mesh::mesh_views(meshes@),
            mesh::mesh_views(meshes@)[i as int].texture_uri,
        ),
        r < owners@.len(),
        owners@[r as int] < meshes@.len(),
{
    let ghost ms = mesh::mesh_views(meshes@);
    let ghost uri = ms[i as int].texture_uri;
    proof {
        assert(meshes.len() == meshes@.len());
        lemma_owners_first(ms, meshes@.len());
        assert(ms[i as int] == meshes@[i as int]@);
        lemma_owner_exists(ms, meshes@.len(), i as int);
    }
    let mut k: usize = 0;
    while !mesh::same_text(&meshes[owners[k]].texture_uri, &meshes[i].texture_uri)
        invariant
            i < meshes@.len(),
            k < owners@.len(),
            ms == mesh::mesh_views(meshes@),
            uri == ms[i as int].texture_uri,
            exists|j: int|
                0 <= j < owners@.len() && ms[#[trigger] owners@[j] as int].texture_uri == uri,
            forall|j: int| 0 <= j < owners@.len() ==> (#[trigger] owners@[j]) < meshes@.len(),
            forall|j: int| 0 <= j < k ==> ms[#[trigger] owners@[j] as int].texture_uri != uri,
        decreases owners@.len() - k,
    {
        proof {
            let j = choose|j: int|
                0 <= j < owners@.len() && ms[#[trigger] owners@[j] as int].texture_uri == uri;
            assert(ms[owners@[k as int] as int] == meshes@[owners@[k as int] as int]@);
            assert(j > k);
            assert(owners.len() == owners@.len());
        }
        k = k + 1;
    }
    proof {
        assert(ms[owners@[k as int] as int] == meshes@[owners@[k as int] as int]@);
        lemma_owner_place(ms, owners@, uri, k as int);
    }
    k
}

/// White.
fn white_json() -> (r: Json)
    ensures
        r@ == gltf::white_doc(),
{
    let one = F64 { bits: ONE64 };
    let mut xs: Vec<F64> = Vec::new();
    xs.push(one);
    xs.push(one);
    xs.push(one);
    xs.push(one);
    proof {
        assert(xs@ =~= Seq::new(4, |i: int| F64 { bits: ONE64 }));
    }
    json::floats(&xs)
}

/// The entry of the `k`-th material.
fn material_json(
    meshes: &Vec<MeshData>,
    owners: &Vec<usize>,
    materials: &Vec<usize>,
    k: usize,
) -> (r: Json)
    requires
        k < materials@.len(),
        owners@ == gltf::texture_owners(mesh::mesh_views(meshes@), meshes@.len()),
        materials@ == gltf::material_owners(mesh::mesh_views(meshes@), meshes@.len()),
    ensures
        r@ == gltf::material_doc(mesh::mesh_views(meshes@), k as int),
{
    let ghost ms = mesh::mesh_views(meshes@);
    proof {
        assert(meshes.len() == meshes@.len());
        lemma_material_owners(ms, meshes@.len());
        assert(materials@[k as int] < meshes@.len());
    }
    let i: usize = materials[k];
    let m: &MeshData = &meshes[i];
    proof {
        assert(ms[i as int] == m@);
    }
    let mut name: String = match &m.texture_uri {
        Some(uri) => uri.clone(),
        None => "default".to_owned(),
    };
    name.append("_m");
    text::append_decimal(&mut name, k as u64);
    let s: Json = json::object();
    let s: Json = json::with(s, "metallicFactor", Json::Float(m.metallic_factor.widen()));
    let s: Json = json::with(s, "roughnessFactor", Json::Float(m.roughness_factor.widen()));
    let mut translucent: bool = false;
    let s: Json = if m.texture_uri.is_some() {
        let number: usize = find_texture(meshes, owners, i);
        let owner: usize = owners[number];
        proof {
            assert(ms[owner as int] == meshes@[owner as int]@);
        }
        translucent = meshes[owner].texture_has_alpha;
        json::with(
            s,
            "baseColorTexture",
            json::with(json::object(), "index", Json::Uint(number as u64)),
        )
    } else {
        json::with(s, "baseColorFactor", white_json())
    };
    let o: Json = json::object();
    let o: Json = json::with(o, "name", Json::Str(name));
    let o: Json = json::with(o, "pbrMetallicRoughness", s);
    if translucent {
        let o: Json = json::with(o, "alphaMode", json::string("MASK"));
        let o: Json = json::with(o, "alphaCutoff", Json::Float(F64 { bits: HALF64 }));
        json::with(o, "doubleSided", Json::Bool(true))
    } else {
        o
    }
}

/// The entries of the materials.
fn materials_json(
    meshes: &Vec<MeshData>,
    owners: &Vec<usize>,
    materials: &Vec<usize>,
) -> (r: Json)
    requires
        owners@ == gltf::texture_owners(mesh::mesh_views(meshes@), meshes@.len()),
        materials@ == gltf::material_owners(mesh::mesh_views(meshes@), meshes@.len()),
    ensures
        r@ == Doc::Arr(gltf::material_docs(mesh::mesh_views(meshes@))),
{
    let ghost ms = mesh::mesh_views(meshes@);
    let mut items: Vec<Json> = Vec::new();
    let mut k: usize = 0;
    while k < materials.len()
        invariant
            k <= materials@.len(),
            ms == mesh::mesh_views(meshes@),
            owners@ == gltf::texture_owners(ms, meshes@.len()),
            materials@ == gltf::material_owners(ms, meshes@.len()),
            items@.len() == k,
            forall|j: int| 0 <= j < k ==> (#[trigger] items@[j])@ == gltf::material_doc(ms, j),
        decreases materials@.len() - k,
    {
        items.push(material_json(meshes, owners, materials, k));
        k = k + 1;
    }
    proof {
        assert(json::docs(items@) =~= gltf::material_docs(ms));
    }
    json::array(items)
}

/// The entries of `n` textures.
fn textures_json(n: usize) -> (r: Json)
    ensures
        r@ == Doc::Arr(Seq::new(n as nat, |k: int| gltf::texture_doc(k as nat))),
{
    let mut items: Vec<Json> = Vec::new();
    let mut k: usize = 0;
    while k < n
        invariant
            k <= n,
            items@.len() == k,
            forall|j: int| 0 <= j < k ==> (#[trigger] items@[j])@ == gltf::texture_doc(j as nat),
        decreases n - k,
    {
        let o: Json = json::object();
        let o: Json = json::with(o, "sampler", Json::Uint(0));
        items.push(json::with(o, "source", Json::Uint(k as u64)));
        k = k + 1;
    }
    proof {
        assert(json::docs(items@) =~= Seq::new(n as nat, |k: int| gltf::texture_doc(k as nat)));
    }
    json::array(items)
}

pub proof fn lemma_image_place(images: Seq<(usize, usize)>, o: usize, g: int)
    requires
        0 <= g <= images.len(),
        forall|j: int| 0 <= j < g ==> (#[trigger] images[j]).0 != o,
        g < images.len() ==> images[g].0 == o,
    ensures
        gltf::image_place(images, o) == g,
    decreases images.len(),
{
    if images.len() > 0 {
        if g < images.len() {
            lemma_image_place(images.drop_last(), o, g);
        } else {
            assert(images[images.len() - 1].0 != o);
            lemma_image_place(images.drop_last(), o, g - 1);
        }
    }
}

/// The entry of the `k`-th image.
fn image_json(
    meshes: &Vec<MeshData>,
    owners: &Vec<usize>,
    images: &Vec<(usize, usize)>,
    k: usize,
) -> (r: Json)
    requires
        k < owners@.len(),
        6 * meshes@.len() <= usize::MAX,
        images@.len() <= meshes@.len(),
        owners@ == gltf::texture_owners(mesh::mesh_views(meshes@), meshes@.len()),
        images@ == gltf::with_all_images(mesh::mesh_views(meshes@)).1,
        forall|n: int|
            0 <= n < images@.len() ==> (#[trigger] images@[n]).0 < meshes@.len()
                && gltf::embedded(meshes@[images@[n].0 as int]@),
    ensures
        r@ == gltf::image_doc(mesh::mesh_views(meshes@), k as int),
{
    let ghost ms = mesh::mesh_views(meshes@);
    proof {
        lemma_owners_first(ms, meshes@.len());
    }
    let owner: usize = owners[k];
    let m: &MeshData = &meshes[owner];
    proof {
        assert(ms[owner as int] == m@);
    }
    let mut n: usize = 0;
    while n < images.len() && images[n].0 != owner
        invariant
            n <= images@.len(),
            forall|j: int| 0 <= j < n ==> (#[trigger] images@[j]).0 != owner,
        decreases images@.len() - n,
    {
        n = n + 1;
    }
    proof {
        lemma_image_place(images@, owner, n as int);
    }
    if n < images.len() {
        let o: Json = json::object();
        let o: Json = json::with(o, "bufferView", Json::Uint((5 * meshes.len() + n) as u64));
        let mime: &str = match &m.texture_mime {
            Some(t) => t.as_str(),
            None => "",
        };
        json::with(o, "mimeType", json::string(mime))
    } else {
        let uri: &str = match &m.texture_uri {
            Some(t) => t.as_str(),
            None => "",
        };
        json::with(json::object(), "uri", json::string(uri))
    }
}

/// The entries of the images.
fn images_json(
    meshes: &Vec<MeshData>,
    owners: &Vec<usize>,
    images: &Vec<(usize, usize)>,
) -> (r: Json)
    requires
        6 * meshes@.len() <= usize::MAX,
        images@.len() <= meshes@.len(),
        owners@ == gltf::texture_owners(mesh::mesh_views(meshes@), meshes@.len()),
        images@ == gltf::with_all_images(mesh::mesh_views(meshes@)).1,
        forall|n: int|
            0 <= n < images@.len() ==> (#[trigger] images@[n]).0 < meshes@.len()
                && gltf::embedded(meshes@[images@[n].0 as int]@),
    ensures
        r@ == Doc::Arr(gltf::image_docs(mesh::mesh_views(meshes@))),
{
    let ghost ms = mesh::mesh_views(meshes@);
    let mut items: Vec<Json> = Vec::new();
    let mut k: usize = 0;
    while k < owners.len()
        invariant
            k <= owners@.len(),
            ms == mesh::mesh_views(meshes@),
            6 * meshes@.len() <= usize::MAX,
            images@.len() <= meshes@.len(),
            owners@ == gltf::texture_owners(ms, meshes@.len()),
            images@ == gltf::with_all_images(ms).1,
            forall|n: int|
                0 <= n < images@.len() ==> (#[trigger] images@[n]).0 < meshes@.len()
                    && gltf::embedded(meshes@[images@[n].0 as int]@),
            items@.len() == k,
            forall|j: int| 0 <= j < k ==> (#[trigger] items@[j])@ == gltf::image_doc(ms, j),
        decreases owners@.len() - k,
    {
        items.push(image_json(meshes, owners, images, k));
        k = k + 1;
    }
    proof {
        assert(json::docs(items@) =~= gltf::image_docs(ms));
    }
    json::array(items)
}

/// The embedded textures belong to owners.
pub proof fn lemma_images(ms: Seq<MeshView>, data: Seq<u8>, owners: Seq<usize>, n: nat)
    requires
        n <= owners.len(),
        forall|k: int| 0 <= k < owners.len() ==> (#[trigger] owners[k]) < ms.len(),
    ensures
        gltf::with_images(ms, data, owners, n).1.len() <= n,
        forall|k: int|
            0 <= k < gltf::with_images(ms, data, owners, n).1.len() ==> (
            #[trigger] gltf::with_images(ms, data, owners, n).1[k]).0 < ms.len() && gltf::embedded(
                ms[gltf::with_images(ms, data, owners, n).1[k].0 as int],
            ),
    decreases n,
{
    if n > 0 {
        lemma_images(ms, data, owners, (n - 1) as nat);
        assert(owners[n - 1] < ms.len());
    }
}

/// The document of a tile of these meshes, and its binary data.
pub fn write_gltf(meshes: &Vec<MeshData>) -> (r: (Json, Vec<u8>))
    requires
        6 * meshes@.len() <= usize::MAX,
    ensures
        r.0@ == gltf::gltf_doc(mesh::mesh_views(meshes@)),
        r.1@ == gltf::binary(mesh::mesh_views(meshes@)),
{
    let ghost ms = mesh::mesh_views(meshes@);
    let owners: Vec<usize> = texture_owner_list(meshes);
    let (materials, material_of): (Vec<usize>, Vec<usize>) = material_lists(meshes);
    let (geometry, layout): (Vec<u8>, Layout) = write_geometry(meshes);
    let mut data: Vec<u8> = geometry;
    proof {
        lemma_owners_first(ms, meshes@.len());
        lemma_images(ms, data@, owners@, owners@.len());
    }
    let images: Vec<(usize, usize)> = write_images(meshes, &owners, &mut data);
    proof {
        assert forall|n: int| 0 <= n < images@.len() implies (#[trigger] images@[n]).0
            < meshes@.len() && gltf::embedded(meshes@[images@[n].0 as int]@) by {
            assert(ms[images@[n].0 as int] == meshes@[images@[n].0 as int]@);
        }
        assert forall|n: int| 0 <= n < images@.len() implies (#[trigger] images@[n]).0
            < meshes@.len() && meshes@[images@[n].0 as int].texture_bytes is Some by {
            assert(gltf::embedded(meshes@[images@[n].0 as int]@));
        }
    }
    bytes::pad_to(&mut data, 0, 4);
    let asset: Json = json::object();
    let asset: Json = json::with(asset, "version", json::string("2.0"));
    let asset: Json = json::with(asset, "generator", json::string("_3dtile 0.1.0"));
    let buffer: Json = json::with(json::object(), "byteLength", Json::Uint(data.len() as u64));
    let o: Json = json::object();
    let o: Json = json::with(o, "asset", asset);
    let o: Json = json::with(o, "scene", Json::Uint(0));
    let o: Json = json::with(o, "scenes", json::array_of_one(scene_json(meshes.len())));
    let o: Json = json::with(o, "nodes", nodes_json(meshes));
    let o: Json = json::with(o, "meshes", meshes_json(meshes, &material_of));
    let o: Json = json::with(o, "materials", materials_json(meshes, &owners, &materials));
    let o: Json = json::with(o, "textures", textures_json(owners.len()));
    let o: Json = json::with(o, "images", images_json(meshes, &owners, &images));
    let o: Json = json::with(o, "samplers", json::array_of_one(sampler_json()));
    let o: Json = json::with(o, "accessors", accessors_json(meshes));
    let o: Json = json::with(o, "bufferViews", views_json(meshes, &layout, &images));
    let o: Json = json::with(o, "buffers", json::array_of_one(buffer));
    (o, data)
}

} // verus!
