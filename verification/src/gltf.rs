//! The glTF document of a tile and the binary data that it describes.
//!
//! Each mesh has five runs of bytes: positions, normals, texture coordinates, the
//! components of the vertices, and the indices. The encoded textures follow.

use crate::bytes;
use crate::float::{F32, F64, HALF64, ONE64};
use crate::json;
use crate::json::Doc;
use crate::merge;
use crate::mesh;
use crate::mesh::MeshView;
use crate::text;
use vstd::prelude::*;

verus! {

/// The components of the vertices as 32-bit floating-point words: zeros where the
/// mesh does not give one for each vertex.
pub open spec fn batch_words(m: MeshView) -> Seq<u32> {
    Seq::new(
        m.positions.len(),
        |i: int|
            if m.batch_ids.len() == m.positions.len() {
                F32::from_uint(m.batch_ids[i] as u64).bits
            } else {
                0
            },
    )
}

/// The words of attribute `a` of a mesh: 0 positions, 1 normals, 2 texture
/// coordinates, 3 components, 4 indices.
pub open spec fn attribute_words(m: MeshView, a: int) -> Seq<u32> {
    if a == 0 {
        bytes::words3(m.positions)
    } else if a == 1 {
        bytes::words3(m.normals)
    } else if a == 2 {
        bytes::words2(m.uvs)
    } else if a == 3 {
        batch_words(m)
    } else {
        merge::drawn(m)
    }
}

/// The bytes of the first `a` attributes of a mesh.
pub open spec fn attributes(m: MeshView, a: nat) -> Seq<u8>
    decreases a,
{
    if a == 0 {
        Seq::empty()
    } else {
        attributes(m, (a - 1) as nat) + bytes::words_bytes(attribute_words(m, a - 1))
    }
}

/// The bytes of the first `n` meshes.
pub open spec fn geometry(ms: Seq<MeshView>, n: nat) -> Seq<u8>
    decreases n,
{
    if n == 0 {
        Seq::empty()
    } else {
        geometry(ms, (n - 1) as nat) + attributes(ms[n - 1], 5)
    }
}

/// Where attribute `a` of mesh `i` begins.
pub open spec fn attribute_offset(ms: Seq<MeshView>, i: int, a: int) -> nat {
    geometry(ms, i as nat).len() + attributes(ms[i], a as nat).len()
}

/// The bytes of attribute `a` of mesh `i`.
pub open spec fn attribute_len(ms: Seq<MeshView>, i: int, a: int) -> nat {
    4 * attribute_words(ms[i], a).len()
}

/// Whether a mesh before `i` has the texture of mesh `i`.
pub open spec fn texture_seen(ms: Seq<MeshView>, i: int) -> bool {
    exists|j: int| 0 <= j < i && (#[trigger] ms[j]).texture_uri == ms[i].texture_uri
}

/// Those of the first `n` meshes with a texture that no earlier mesh has.
pub open spec fn texture_owners(ms: Seq<MeshView>, n: nat) -> Seq<usize>
    decreases n,
{
    if n == 0 {
        Seq::empty()
    } else if ms[n - 1].texture_uri is None || texture_seen(ms, n - 1) {
        texture_owners(ms, (n - 1) as nat)
    } else {
        texture_owners(ms, (n - 1) as nat).push((n - 1) as usize)
    }
}

/// Whether two meshes are of one material: the same texture and the same factors.
pub open spec fn same_material(a: MeshView, b: MeshView) -> bool {
    a.texture_uri == b.texture_uri && a.metallic_factor.same(b.metallic_factor)
        && a.roughness_factor.same(b.roughness_factor)
}

/// The first of the materials `owners` that mesh `i` is of; their number where there
/// is none.
pub open spec fn material_place(ms: Seq<MeshView>, owners: Seq<usize>, i: int) -> nat
    decreases owners.len(),
{
    if owners.len() == 0 {
        0
    } else {
        let rest = material_place(ms, owners.drop_last(), i);
        if rest < owners.len() - 1 || same_material(ms[owners.last() as int], ms[i]) {
            rest
        } else {
            owners.len()
        }
    }
}

/// The materials of the first `n` meshes, each by the first mesh that is of it.
pub open spec fn material_owners(ms: Seq<MeshView>, n: nat) -> Seq<usize>
    decreases n,
{
    if n == 0 {
        Seq::empty()
    } else {
        let rest = material_owners(ms, (n - 1) as nat);
        if material_place(ms, rest, n - 1) < rest.len() {
            rest
        } else {
            rest.push((n - 1) as usize)
        }
    }
}

/// The material of mesh `i`.
pub open spec fn material_of(ms: Seq<MeshView>, i: int) -> nat {
    material_place(ms, material_owners(ms, i as nat), i)
}

/// Whether the texture of a mesh is embedded.
pub open spec fn embedded(m: MeshView) -> bool {
    m.texture_uri is Some && m.texture_bytes is Some && m.texture_mime is Some
}

/// The data with the embedded textures of the first `n` of `owners` behind it, each
/// at a multiple of four, and the owners and offsets of these textures.
pub open spec fn with_images(
    ms: Seq<MeshView>,
    data: Seq<u8>,
    owners: Seq<usize>,
    n: nat,
) -> (Seq<u8>, Seq<(usize, usize)>)
    decreases n,
{
    if n == 0 {
        (data, Seq::empty())
    } else {
        let before = with_images(ms, data, owners, (n - 1) as nat);
        let m = ms[owners[n - 1] as int];
        if embedded(m) {
            let at = bytes::padded(before.0, 0, 4);
            (at + m.texture_bytes->0, before.1.push((owners[n - 1], at.len() as usize)))
        } else {
            before
        }
    }
}

/// The data and its embedded textures.
pub open spec fn with_all_images(ms: Seq<MeshView>) -> (Seq<u8>, Seq<(usize, usize)>) {
    let owners = texture_owners(ms, ms.len());
    with_images(ms, geometry(ms, ms.len()), owners, owners.len())
}

/// The binary data of a tile.
pub open spec fn binary(ms: Seq<MeshView>) -> Seq<u8> {
    bytes::padded(with_all_images(ms).0, 0, 4)
}

/// The first of `images` that mesh `o` owns; their number where there is none.
pub open spec fn image_place(images: Seq<(usize, usize)>, o: usize) -> nat
    decreases images.len(),
{
    if images.len() == 0 {
        0
    } else {
        let rest = image_place(images.drop_last(), o);
        if rest < images.len() - 1 || images.last().0 == o {
            rest
        } else {
            images.len()
        }
    }
}

/// The first of `owners` with the texture `uri`; their number where there is none.
pub open spec fn owner_place(
    ms: Seq<MeshView>,
    owners: Seq<usize>,
    uri: Option<Seq<char>>,
) -> nat
    decreases owners.len(),
{
    if owners.len() == 0 {
        0
    } else {
        let rest = owner_place(ms, owners.drop_last(), uri);
        if rest < owners.len() - 1 || ms[owners.last() as int].texture_uri == uri {
            rest
        } else {
            owners.len()
        }
    }
}

/// The number of the texture `uri` in the document's lists of textures and images.
pub open spec fn texture_number(ms: Seq<MeshView>, uri: Option<Seq<char>>) -> nat {
    owner_place(ms, texture_owners(ms, ms.len()), uri)
}

/// The entry of the `k`-th image.
pub open spec fn image_doc(ms: Seq<MeshView>, k: int) -> Doc {
    let o = texture_owners(ms, ms.len())[k];
    let m = ms[o as int];
    let images = with_all_images(ms).1;
    if image_place(images, o) < images.len() {
        Doc::object()
            .with("bufferView"@, Doc::Uint(5 * ms.len() + image_place(images, o)))
            .with("mimeType"@, Doc::Str(m.texture_mime->0))
    } else {
        Doc::object().with("uri"@, Doc::Str(m.texture_uri->0))
    }
}

/// The entry of a texture that shows image `k`.
pub open spec fn texture_doc(k: nat) -> Doc {
    Doc::object().with("sampler"@, Doc::Uint(0)).with("source"@, Doc::Uint(k))
}

/// The sampler that all textures share: linear, with mipmaps, repeating.
pub open spec fn sampler_doc() -> Doc {
    Doc::object()
        .with("magFilter"@, Doc::Uint(9729))
        .with("minFilter"@, Doc::Uint(9987))
        .with("wrapS"@, Doc::Uint(10497))
        .with("wrapT"@, Doc::Uint(10497))
}

/// White, without translucency.
pub open spec fn white_doc() -> Doc {
    json::float_docs(Seq::new(4, |i: int| F64 { bits: ONE64 }))
}

/// The surface of the material of `m`.
pub open spec fn surface_doc(ms: Seq<MeshView>, m: MeshView) -> Doc {
    let plain = Doc::object()
        .with("metallicFactor"@, Doc::Float(m.metallic_factor.widen()))
        .with("roughnessFactor"@, Doc::Float(m.roughness_factor.widen()));
    if m.texture_uri is Some {
        plain.with(
            "baseColorTexture"@,
            Doc::object().with("index"@, Doc::Uint(texture_number(ms, m.texture_uri))),
        )
    } else {
        plain.with("baseColorFactor"@, white_doc())
    }
}

/// Whether the texture of `m` has translucent parts, as the first mesh with this
/// texture says.
pub open spec fn translucent(ms: Seq<MeshView>, m: MeshView) -> bool {
    let o = texture_owners(ms, ms.len())[texture_number(ms, m.texture_uri) as int];
    m.texture_uri is Some && ms[o as int].texture_has_alpha
}

/// The name of the `k`-th material, which `m` is of.
pub open spec fn material_name(m: MeshView, k: nat) -> Seq<char> {
    (match m.texture_uri {
        Some(uri) => uri,
        None => "default"@,
    }) + "_m"@ + text::decimal(k)
}

/// The entry of the `k`-th material. One with a translucent texture is cut off at
/// one half and seen from both sides.
pub open spec fn material_doc(ms: Seq<MeshView>, k: int) -> Doc {
    let m = ms[material_owners(ms, ms.len())[k] as int];
    let plain = Doc::object()
        .with("name"@, Doc::Str(material_name(m, k as nat)))
        .with("pbrMetallicRoughness"@, surface_doc(ms, m));
    if translucent(ms, m) {
        plain
            .with("alphaMode"@, Doc::Str("MASK"@))
            .with("alphaCutoff"@, Doc::Float(F64 { bits: HALF64 }))
            .with("doubleSided"@, Doc::Bool(true))
    } else {
        plain
    }
}

/// The entry of the run of bytes of attribute `a` of mesh `i`.
pub open spec fn view_doc(ms: Seq<MeshView>, i: int, a: int) -> Doc {
    let target: nat = if a == 4 {
        34963
    } else {
        34962
    };
    Doc::object()
        .with("buffer"@, Doc::Uint(0))
        .with("byteOffset"@, Doc::Uint(attribute_offset(ms, i, a)))
        .with("byteLength"@, Doc::Uint(attribute_len(ms, i, a)))
        .with("target"@, Doc::Uint(target))
}

/// The entry of the run of bytes of the `k`-th embedded texture.
pub open spec fn image_view_doc(ms: Seq<MeshView>, k: int) -> Doc {
    let image = with_all_images(ms).1[k];
    Doc::object()
        .with("buffer"@, Doc::Uint(0))
        .with("byteOffset"@, Doc::Uint(image.1 as nat))
        .with("byteLength"@, Doc::Uint((ms[image.0 as int].texture_bytes->0).len()))
}

/// The shape of the values of attribute `a`.
pub open spec fn shape(a: int) -> Seq<char> {
    if a == 0 || a == 1 {
        "VEC3"@
    } else if a == 2 {
        "VEC2"@
    } else {
        "SCALAR"@
    }
}

/// The low corner of the box around the positions.
pub open spec fn low_doc(m: MeshView) -> Doc {
    json::float_docs(Seq::new(3, |k: int| mesh::lowest(m.positions, k).widen()))
}

/// The high corner of the box around the positions.
pub open spec fn high_doc(m: MeshView) -> Doc {
    json::float_docs(Seq::new(3, |k: int| mesh::highest(m.positions, k).widen()))
}

/// The entry of attribute `a` of mesh `i`. The components are floating-point numbers
/// as all attributes are; the indices are integers.
pub open spec fn accessor_doc(ms: Seq<MeshView>, i: int, a: int) -> Doc {
    let component: nat = if a == 4 {
        5125
    } else {
        5126
    };
    let count = if a == 4 {
        ms[i].indices.len()
    } else {
        ms[i].positions.len()
    };
    let plain = Doc::object()
        .with("bufferView"@, Doc::Uint((5 * i + a) as nat))
        .with("componentType"@, Doc::Uint(component))
        .with("count"@, Doc::Uint(count))
        .with("type"@, Doc::Str(shape(a)));
    if a == 0 {
        plain.with("min"@, low_doc(ms[i])).with("max"@, high_doc(ms[i]))
    } else {
        plain
    }
}

/// The one primitive of mesh `i`: triangles.
pub open spec fn primitive_doc(ms: Seq<MeshView>, i: int) -> Doc {
    let base = 5 * i;
    Doc::object()
        .with(
            "attributes"@,
            Doc::object()
                .with("POSITION"@, Doc::Uint(base as nat))
                .with("NORMAL"@, Doc::Uint((base + 1) as nat))
                .with("TEXCOORD_0"@, Doc::Uint((base + 2) as nat))
                .with("_BATCHID"@, Doc::Uint((base + 3) as nat)),
        )
        .with("indices"@, Doc::Uint((base + 4) as nat))
        .with("material"@, Doc::Uint(material_of(ms, i)))
        .with("mode"@, Doc::Uint(4))
}

/// The entry of mesh `i`.
pub open spec fn mesh_doc(ms: Seq<MeshView>, i: int) -> Doc {
    Doc::object()
        .with("name"@, Doc::Str(ms[i].name))
        .with("primitives"@, Doc::Arr(seq![primitive_doc(ms, i)]))
}

/// The entry of node `i`, which shows mesh `i`.
pub open spec fn node_doc(ms: Seq<MeshView>, i: int) -> Doc {
    Doc::object().with("mesh"@, Doc::Uint(i as nat)).with("name"@, Doc::Str(ms[i].name))
}

/// The scene, which shows all nodes.
pub open spec fn scene_doc(n: nat) -> Doc {
    Doc::object().with("nodes"@, Doc::Arr(Seq::new(n, |i: int| Doc::Uint(i as nat))))
}

/// The entries of the nodes.
pub open spec fn node_docs(ms: Seq<MeshView>) -> Seq<Doc> {
    Seq::new(ms.len(), |i: int| node_doc(ms, i))
}

/// The entries of the meshes.
pub open spec fn mesh_docs(ms: Seq<MeshView>) -> Seq<Doc> {
    Seq::new(ms.len(), |i: int| mesh_doc(ms, i))
}

/// The entries of the materials.
pub open spec fn material_docs(ms: Seq<MeshView>) -> Seq<Doc> {
    Seq::new(material_owners(ms, ms.len()).len(), |k: int| material_doc(ms, k))
}

/// The entries of the images, one for each texture.
pub open spec fn image_docs(ms: Seq<MeshView>) -> Seq<Doc> {
    Seq::new(texture_owners(ms, ms.len()).len(), |k: int| image_doc(ms, k))
}

/// The entries of the textures, one for each image.
pub open spec fn texture_docs(ms: Seq<MeshView>) -> Seq<Doc> {
    Seq::new(texture_owners(ms, ms.len()).len(), |k: int| texture_doc(k as nat))
}

/// The entries of the attributes, five for each mesh.
pub open spec fn accessor_docs(ms: Seq<MeshView>) -> Seq<Doc> {
    Seq::new(5 * ms.len(), |j: int| accessor_doc(ms, j / 5, j % 5))
}

/// The runs of bytes: five for each mesh, then one for each embedded texture.
pub open spec fn view_docs(ms: Seq<MeshView>) -> Seq<Doc> {
    Seq::new(5 * ms.len(), |j: int| view_doc(ms, j / 5, j % 5)) + Seq::new(
        with_all_images(ms).1.len(),
        |k: int| image_view_doc(ms, k),
    )
}

/// What the document says of itself.
pub open spec fn asset_doc() -> Doc {
    Doc::object().with("version"@, Doc::Str("2.0"@)).with(
        "generator"@,
        Doc::Str("_3dtile 0.1.0"@),
    )
}

/// The binary data, which is all one buffer.
pub open spec fn buffer_doc(ms: Seq<MeshView>) -> Doc {
    Doc::object().with("byteLength"@, Doc::Uint(binary(ms).len()))
}

/// The document of a tile.
pub open spec fn gltf_doc(ms: Seq<MeshView>) -> Doc {
    Doc::object()
        .with("asset"@, asset_doc())
        .with("scene"@, Doc::Uint(0))
        .with("scenes"@, Doc::Arr(seq![scene_doc(ms.len())]))
        .with("nodes"@, Doc::Arr(node_docs(ms)))
        .with("meshes"@, Doc::Arr(mesh_docs(ms)))
        .with("materials"@, Doc::Arr(material_docs(ms)))
        .with("textures"@, Doc::Arr(texture_docs(ms)))
        .with("images"@, Doc::Arr(image_docs(ms)))
        .with("samplers"@, Doc::Arr(seq![sampler_doc()]))
        .with("accessors"@, Doc::Arr(accessor_docs(ms)))
        .with("bufferViews"@, Doc::Arr(view_docs(ms)))
        .with("buffers"@, Doc::Arr(seq![buffer_doc(ms)]))
}

} // verus!
