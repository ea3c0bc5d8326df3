//! Batched 3D models: a binary glTF with the table of the components that its
//! vertices belong to.

use crate::bytes;
use crate::glb;
use crate::glb::BuildError;
use crate::json;
use crate::json::{Doc, Json};
use crate::mesh;
use crate::mesh::TileGeometry;
use crate::text;
use std::collections::HashMap;
use vstd::prelude::*;
use vstd::utf8::*;

verus! {

/// The hash of `b`: from a fixed start, for each byte the exclusive or with it and a
/// multiplication by the prime 16777619, in 32 bits.
pub open spec fn hash(b: Seq<u8>) -> u32
    decreases b.len(),
{
    if b.len() == 0 {
        0x811c_9dc5
    } else {
        (((hash(b.drop_last()) ^ (b.last() as u32)) * 0x0100_0193) % 0x1_0000_0000) as u32
    }
}

/// The text that a component is hashed by: its name and its number in the model.
pub open spec fn identity(name: Seq<char>, gid: nat) -> Seq<char> {
    name + "#g"@ + text::decimal(gid)
}

/// The identifier of a component: the hash of its name and number, the hash with the
/// number added, and zeros.
pub open spec fn component_id(name: Seq<char>, gid: nat) -> Seq<char> {
    let h = hash(encode_utf8(identity(name, gid))) as nat;
    text::hex(h, 8) + text::hex((h + gid % 0x1_0000_0000) % 0x1_0000_0000, 8) + text::hex(0, 8)
        + text::hex(0, 8)
}

/// The hash of `b`.
fn hash_bytes(b: &[u8]) -> (r: u32)
    ensures
        r == hash(b@),
{
    let mut h: u32 = 0x811c_9dc5;
    let mut i: usize = 0;
    proof {
        assert(b@.take(0) =~= Seq::empty());
    }
    while i < b.len()
        invariant
            i <= b@.len(),
            h == hash(b@.take(i as int)),
        decreases b@.len() - i,
    {
        proof {
            assert(b@.take(i + 1).drop_last() =~= b@.take(i as int));
        }
        let x: u32 = h ^ (b[i] as u32);
        proof {
            assert(x * 0x0100_0193 <= 0xffff_ffff * 0x0100_0193) by (nonlinear_arith)
                requires
                    x <= 0xffff_ffff,
            ;
        }
        h = ((x as u64 * 0x0100_0193) % 0x1_0000_0000) as u32;
        i = i + 1;
    }
    proof {
        assert(b@.take(i as int) =~= b@);
    }
    h
}

/// The identifier of a component, the same in every tile and in the scene tree.
pub fn make_component_id(name: &str, gid: usize) -> (r: String)
    ensures
        r@ == component_id(name@, gid as nat),
{
    let mut source: String = name.to_owned();
    source.append("#g");
    text::append_decimal(&mut source, gid as u64);
    let h: u32 = hash_bytes(source.as_str().as_bytes());
    let sum: u64 = (h as u64 + gid as u64 % 0x1_0000_0000) % 0x1_0000_0000;
    let mut r: String = String::new();
    text::append_hex(&mut r, h as u64, 8);
    text::append_hex(&mut r, sum, 8);
    text::append_hex(&mut r, 0, 8);
    text::append_hex(&mut r, 0, 8);
    proof {
        assert(source@ =~= identity(name@, gid as nat));
        assert(r@ =~= component_id(name@, gid as nat));
    }
    r
}

/// The number of rows of the tables: one for each component, at least one.
pub open spec fn row_count(names: nat) -> nat {
    if names == 0 {
        1
    } else {
        names
    }
}

/// The feature table: the number of components.
pub open spec fn feature_doc(names: nat) -> Doc {
    Doc::object().with("BATCH_LENGTH"@, Doc::Uint(row_count(names)))
}

/// The number of component `i` in the model; where it is not given, `i` itself.
pub open spec fn gid_of(gids: Seq<usize>, i: int) -> nat {
    if i < gids.len() {
        gids[i] as nat
    } else {
        i as nat
    }
}

/// The identifiers of the components.
pub open spec fn id_texts(names: Seq<Seq<char>>, gids: Seq<usize>) -> Seq<Seq<char>> {
    Seq::new(names.len(), |i: int| component_id(names[i], gid_of(gids, i)))
}

/// The batch table: for each component its identifier and its name.
pub open spec fn batch_doc(names: Seq<Seq<char>>, gids: Seq<usize>) -> Doc {
    Doc::object()
        .with(
            "_pack_props_"@,
            json::string_docs(Seq::new(row_count(names.len()), |i: int| "null"@)),
        )
        .with("id"@, json::string_docs(id_texts(names, gids)))
        .with("name"@, json::string_docs(names))
}

/// The bytes `b3dm`.
pub open spec fn magic() -> Seq<u8> {
    seq![0x62u8, 0x33, 0x64, 0x6d]
}

/// The file: magic, version, length, the lengths of the two tables and of their
/// binary parts, which there are none of, the tables, each filled with spaces to a
/// multiple of eight, and the model.
pub open spec fn b3dm_bytes(features: Seq<u8>, batches: Seq<u8>, model: Seq<u8>) -> Seq<u8> {
    let f = bytes::padded(features, 0x20, 8);
    let b = bytes::padded(batches, 0x20, 8);
    magic() + bytes::le32(1) + bytes::le32(28 + f.len() + b.len() + model.len()) + bytes::le32(
        f.len(),
    ) + bytes::le32(0) + bytes::le32(b.len()) + bytes::le32(0) + f + b + model
}

/// The file of two tables and a model.
pub fn frame_b3dm(features: &[u8], batches: &[u8], model: &Vec<u8>) -> (r: Vec<u8>)
    ensures
        r@ == b3dm_bytes(features@, batches@, model@),
{
    let mut f: Vec<u8> = Vec::new();
    glb::append_bytes(&mut f, features);
    let mut b: Vec<u8> = Vec::new();
    glb::append_bytes(&mut b, batches);
    proof {
        assert(f@ =~= features@);
        assert(b@ =~= batches@);
    }
    bytes::pad_to(&mut f, 0x20, 8);
    bytes::pad_to(&mut b, 0x20, 8);
    let mut out: Vec<u8> = Vec::new();
    glb::append_tag(&mut out, 0x62, 0x33, 0x64, 0x6d);
    bytes::append_le32(&mut out, 1);
    bytes::append_le32(
        &mut out,
        28 + f.len() as u128 + b.len() as u128 + model.len() as u128,
    );
    bytes::append_le32(&mut out, f.len() as u128);
    bytes::append_le32(&mut out, 0);
    bytes::append_le32(&mut out, b.len() as u128);
    bytes::append_le32(&mut out, 0);
    mesh::append_copies(&mut out, &f);
    mesh::append_copies(&mut out, &b);
    mesh::append_copies(&mut out, model);
    proof {
        assert(out@ =~= b3dm_bytes(features@, batches@, model@));
    }
    out
}

/// The feature table.
pub fn feature_json(names: usize) -> (r: Json)
    ensures
        r@ == feature_doc(names as nat),
{
    let n: usize = if names == 0 {
        1
    } else {
        names
    };
    json::with(json::object(), "BATCH_LENGTH", Json::Uint(n as u64))
}

/// The batch table.
pub fn batch_json(names: &Vec<String>, gids: &Vec<usize>) -> (r: Json)
    ensures
        r@ == batch_doc(json::texts(names@), gids@),
{
    let ghost all = json::texts(names@);
    let mut ids: Vec<String> = Vec::new();
    let mut i: usize = 0;
    while i < names.len()
        invariant
            i <= names@.len(),
            all == json::texts(names@),
            ids@.len() == i,
            forall|k: int|
                0 <= k < i ==> (#[trigger] ids@[k])@ == component_id(all[k], gid_of(gids@, k)),
        decreases names@.len() - i,
    {
        let gid: usize = if i < gids.len() {
            gids[i]
        } else {
            i
        };
        ids.push(make_component_id(names[i].as_str(), gid));
        i = i + 1;
    }
    let n: usize = if names.len() == 0 {
        1
    } else {
        names.len()
    };
    let mut packs: Vec<String> = Vec::new();
    let mut k: usize = 0;
    while k < n
        invariant
            k <= n,
            packs@.len() == k,
            forall|j: int| 0 <= j < k ==> (#[trigger] packs@[j])@ == "null"@,
        decreases n - k,
    {
        packs.push("null".to_owned());
        k = k + 1;
    }
    proof {
        assert(json::texts(packs@) =~= Seq::new(row_count(all.len()), |j: int| "null"@));
        assert(json::texts(ids@) =~= id_texts(all, gids@));
    }
    let o: Json = json::object();
    let o: Json = json::with(o, "_pack_props_", json::strings(&packs));
    let o: Json = json::with(o, "id", json::strings(&ids));
    json::with(o, "name", json::strings(names))
}

/// The file of a tile.
pub open spec fn tile_b3dm(
    geometry: TileGeometry,
    numerals: Map<u64, serde_json::Value>,
) -> Seq<u8> {
    let names = json::texts(geometry.batch_names@);
    b3dm_bytes(
        encode_utf8(json::json_text(json::tree_of(feature_doc(names.len()), numerals))),
        encode_utf8(
            json::json_text(json::tree_of(batch_doc(names, geometry.batch_gids@), numerals)),
        ),
        glb::tile_glb(geometry.views(), numerals),
    )
}

/// The tables have no fractions.
proof fn lemma_tables(
    names: Seq<Seq<char>>,
    gids: Seq<usize>,
    numerals: Map<u64, serde_json::Value>,
)
    ensures
        json::has_numerals(feature_doc(names.len()), numerals),
        json::has_numerals(batch_doc(names, gids), numerals),
{
    let f = feature_doc(names.len());
    assert forall|i: int| 0 <= i < f->Obj_0.len() implies json::has_numerals(
        (#[trigger] f->Obj_0[i]).1,
        numerals,
    ) by {}
    let b = batch_doc(names, gids);
    assert forall|i: int| 0 <= i < b->Obj_0.len() implies json::has_numerals(
        (#[trigger] b->Obj_0[i]).1,
        numerals,
    ) by {
        let d = b->Obj_0[i].1;
        assert(d is Arr);
        assert forall|j: int| 0 <= j < d->Arr_0.len() implies json::has_numerals(
            #[trigger] d->Arr_0[j],
            numerals,
        ) by {
            assert(d->Arr_0[j] is Str);
        }
    }
}

/// The batched 3D model of a tile. `numerals` holds, by their patterns, the numerals
/// of the fractions in the model's document.
pub fn build_b3dm(
    geometry: &TileGeometry,
    numerals: &HashMap<u64, serde_json::Value>,
) -> (r: Result<Vec<u8>, BuildError>)
    requires
        6 * geometry.meshes@.len() <= usize::MAX,
    ensures
        glb::blank(geometry.views()) ==> r == Err::<Vec<u8>, BuildError>(BuildError::Empty),
        !glb::blank(geometry.views()) && !json::has_numerals(
            crate::gltf::gltf_doc(geometry.views()),
            numerals@,
        ) ==> r == Err::<Vec<u8>, BuildError>(
            BuildError::Json(json::JsonError::MissingNumeral),
        ),
        !glb::blank(geometry.views()) && json::has_numerals(
            crate::gltf::gltf_doc(geometry.views()),
            numerals@,
        ) ==> (r matches Ok(b) && b@ == tile_b3dm(*geometry, numerals@)),
{
    let model: Vec<u8> = match glb::build_glb(geometry, numerals) {
        Ok(m) => m,
        Err(e) => {
            return Err(e);
        },
    };
    proof {
        lemma_tables(json::texts(geometry.batch_names@), geometry.batch_gids@, numerals@);
    }
    let features: String = match json::to_text(
        &feature_json(geometry.batch_names.len()),
        numerals,
    ) {
        Ok(s) => s,
        Err(e) => {
            return Err(BuildError::Json(e));
        },
    };
    let batches: String = match json::to_text(
        &batch_json(&geometry.batch_names, &geometry.batch_gids),
        numerals,
    ) {
        Ok(s) => s,
        Err(e) => {
            return Err(BuildError::Json(e));
        },
    };
    Ok(frame_b3dm(features.as_str().as_bytes(), batches.as_str().as_bytes(), &model))
}

/// A file of fewer than four gigabytes tells where its parts are: its length and the
/// lengths of the two tables, which are multiples of eight. The tables begin behind the
/// header of 28 bytes, and the model behind the tables.
pub proof fn law_b3dm_reads_back(features: Seq<u8>, batches: Seq<u8>, model: Seq<u8>)
    requires
        b3dm_bytes(features, batches, model).len() < 0x1_0000_0000,
    ensures
        b3dm_bytes(features, batches, model).take(4) == magic(),
        bytes::read32(b3dm_bytes(features, batches, model), 4) == 1,
        bytes::read32(b3dm_bytes(features, batches, model), 8) == b3dm_bytes(
            features,
            batches,
            model,
        ).len(),
        bytes::read32(b3dm_bytes(features, batches, model), 16) == 0,
        bytes::read32(b3dm_bytes(features, batches, model), 24) == 0,
        ({
            let s = b3dm_bytes(features, batches, model);
            let n = bytes::read32(s, 12) as int;
            let m = bytes::read32(s, 20) as int;
            let i = features.len() as int;
            let j = batches.len() as int;
            &&& n % 8 == 0
            &&& m % 8 == 0
            &&& i <= n < i + 8
            &&& j <= m < j + 8
            &&& 28 + n + m + model.len() == s.len()
            &&& s.subrange(28, 28 + i) == features
            &&& s.subrange(28 + n, 28 + n + j) == batches
            &&& s.subrange(28 + n + m, s.len() as int) == model
        }),
{
    broadcast use bytes::lemma_le32_len;

    let s = b3dm_bytes(features, batches, model);
    let f = bytes::padded(features, 0x20, 8);
    let b = bytes::padded(batches, 0x20, 8);
    bytes::law_padded(features, 0x20, 8);
    bytes::law_padded(batches, 0x20, 8);
    let n = f.len() as int;
    let m = b.len() as int;
    let i = features.len() as int;
    let j = batches.len() as int;
    let total = 28 + f.len() + b.len() + model.len();
    assert(magic().len() == 4);
    let s1 = magic() + bytes::le32(1);
    let s2 = s1 + bytes::le32(total);
    let s3 = s2 + bytes::le32(f.len());
    let s4 = s3 + bytes::le32(0);
    let s5 = s4 + bytes::le32(b.len());
    let s6 = s5 + bytes::le32(0);
    let s7 = s6 + f;
    let s8 = s7 + b;
    assert(s == s8 + model);
    assert forall|p: int, q: int| 0 <= p <= q <= 28 implies #[trigger] s.subrange(p, q)
        == s6.subrange(p, q) by {
        bytes::lemma_in_first(s8, model, p, q);
        bytes::lemma_in_first(s7, b, p, q);
        bytes::lemma_in_first(s6, f, p, q);
    }
    assert(s.take(4) =~= s.subrange(0, 4));
    assert(s.subrange(0, 4) == magic()) by {
        bytes::lemma_in_first(s5, bytes::le32(0), 0, 4);
        bytes::lemma_in_first(s4, bytes::le32(b.len()), 0, 4);
        bytes::lemma_in_first(s3, bytes::le32(0), 0, 4);
        bytes::lemma_in_first(s2, bytes::le32(f.len()), 0, 4);
        bytes::lemma_in_first(s1, bytes::le32(total), 0, 4);
        bytes::lemma_in_first(magic(), bytes::le32(1), 0, 4);
        assert(magic().subrange(0, 4) =~= magic());
    }
    assert(s.subrange(4, 8) == bytes::le32(1)) by {
        bytes::lemma_in_first(s5, bytes::le32(0), 4, 8);
        bytes::lemma_in_first(s4, bytes::le32(b.len()), 4, 8);
        bytes::lemma_in_first(s3, bytes::le32(0), 4, 8);
        bytes::lemma_in_first(s2, bytes::le32(f.len()), 4, 8);
        bytes::lemma_in_first(s1, bytes::le32(total), 4, 8);
        bytes::lemma_second(magic(), bytes::le32(1));
    }
    assert(s.subrange(8, 12) == bytes::le32(total)) by {
        bytes::lemma_in_first(s5, bytes::le32(0), 8, 12);
        bytes::lemma_in_first(s4, bytes::le32(b.len()), 8, 12);
        bytes::lemma_in_first(s3, bytes::le32(0), 8, 12);
        bytes::lemma_in_first(s2, bytes::le32(f.len()), 8, 12);
        bytes::lemma_second(s1, bytes::le32(total));
    }
    assert(s.subrange(12, 16) == bytes::le32(f.len())) by {
        bytes::lemma_in_first(s5, bytes::le32(0), 12, 16);
        bytes::lemma_in_first(s4, bytes::le32(b.len()), 12, 16);
        bytes::lemma_in_first(s3, bytes::le32(0), 12, 16);
        bytes::lemma_second(s2, bytes::le32(f.len()));
    }
    assert(s.subrange(16, 20) == bytes::le32(0)) by {
        bytes::lemma_in_first(s5, bytes::le32(0), 16, 20);
        bytes::lemma_in_first(s4, bytes::le32(b.len()), 16, 20);
        bytes::lemma_second(s3, bytes::le32(0));
    }
    assert(s.subrange(20, 24) == bytes::le32(b.len())) by {
        bytes::lemma_in_first(s5, bytes::le32(0), 20, 24);
        bytes::lemma_second(s4, bytes::le32(b.len()));
    }
    assert(s.subrange(24, 28) == bytes::le32(0)) by {
        bytes::lemma_second(s5, bytes::le32(0));
    }
    bytes::law_le32_read(1, s, 4);
    bytes::law_le32_read(total, s, 8);
    bytes::law_le32_read(f.len(), s, 12);
    bytes::law_le32_read(0, s, 16);
    bytes::law_le32_read(b.len(), s, 20);
    bytes::law_le32_read(0, s, 24);
    assert(s.subrange(28, 28 + n) == f) by {
        bytes::lemma_in_first(s8, model, 28, 28 + n);
        bytes::lemma_in_first(s7, b, 28, 28 + n);
        bytes::lemma_second(s6, f);
    }
    assert(s.subrange(28, 28 + i) =~= s.subrange(28, 28 + n).take(i));
    assert(s.subrange(28 + n, 28 + n + m) == b) by {
        bytes::lemma_in_first(s8, model, 28 + n, 28 + n + m);
        bytes::lemma_second(s7, b);
    }
    assert(s.subrange(28 + n, 28 + n + j) =~= s.subrange(28 + n, 28 + n + m).take(j));
    bytes::lemma_second(s8, model);
}

} // verus!
