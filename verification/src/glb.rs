//! Binary glTF: the document and its data in one file.

use crate::bytes;
use crate::gltf;
use crate::gltf_writer;
use crate::json;
use crate::json::{Json, JsonError};
use crate::mesh;
use crate::mesh::{MeshView, TileGeometry};
use std::collections::HashMap;
use vstd::prelude::*;
use vstd::utf8::*;

verus! {

/// The bytes `glTF`.
pub open spec fn magic() -> Seq<u8> {
    seq![0x67u8, 0x6c, 0x54, 0x46]
}

/// The bytes `JSON`.
pub open spec fn json_tag() -> Seq<u8> {
    seq![0x4au8, 0x53, 0x4f, 0x4e]
}

/// The bytes `BIN` and zero.
pub open spec fn bin_tag() -> Seq<u8> {
    seq![0x42u8, 0x49, 0x4e, 0]
}

/// A chunk: its length, its tag and its content.
pub open spec fn chunk(tag: Seq<u8>, content: Seq<u8>) -> Seq<u8> {
    bytes::le32(content.len()) + tag + content
}

/// The file: magic, version, length, and the two chunks. The document is filled with
/// spaces to a multiple of four.
pub open spec fn glb_bytes(document: Seq<u8>, data: Seq<u8>) -> Seq<u8> {
    let text = bytes::padded(document, 0x20, 4);
    magic() + bytes::le32(2) + bytes::le32(28 + text.len() + data.len()) + chunk(json_tag(), text)
        + chunk(bin_tag(), data)
}

/// Why a tile was not built.
#[derive(Clone, Copy, Debug, PartialEq, Eq, Structural)]
pub enum BuildError {
    /// The tile has no vertex or no triangle.
    Empty,
    /// A document could not be written.
    Json(JsonError),
}

/// Appends the elements of a slice.
pub fn append_bytes(out: &mut Vec<u8>, src: &[u8])
    ensures
        final(out)@ == old(out)@ + src@,
{
    let ghost start = out@;
    let mut i: usize = 0;
    while i < src.len()
        invariant
            i <= src@.len(),
            out@ == start + src@.take(i as int),
        decreases src@.len() - i,
    {
        out.push(src[i]);
        i = i + 1;
        proof {
            assert(out@ =~= start + src@.take(i as int));
        }
    }
    proof {
        assert(src@.take(i as int) =~= src@);
    }
}

/// Appends four bytes.
pub fn append_tag(out: &mut Vec<u8>, a: u8, b: u8, c: u8, d: u8)
    ensures
        final(out)@ == old(out)@ + seq![a, b, c, d],
{
    out.push(a);
    out.push(b);
    out.push(c);
    out.push(d);
    proof {
        assert(out@ =~= old(out)@ + seq![a, b, c, d]);
    }
}

/// The file of a document and its data.
pub fn frame_glb(document: &[u8], data: &Vec<u8>) -> (r: Vec<u8>)
    ensures
        r@ == glb_bytes(document@, data@),
{
    let mut text: Vec<u8> = Vec::new();
    append_bytes(&mut text, document);
    proof {
        assert(text@ =~= document@);
    }
    bytes::pad_to(&mut text, 0x20, 4);
    let mut out: Vec<u8> = Vec::new();
    append_tag(&mut out, 0x67, 0x6c, 0x54, 0x46);
    bytes::append_le32(&mut out, 2);
    bytes::append_le32(&mut out, 28 + text.len() as u128 + data.len() as u128);
    bytes::append_le32(&mut out, text.len() as u128);
    append_tag(&mut out, 0x4a, 0x53, 0x4f, 0x4e);
    mesh::append_copies(&mut out, &text);
    bytes::append_le32(&mut out, data.len() as u128);
    append_tag(&mut out, 0x42, 0x49, 0x4e, 0);
    mesh::append_copies(&mut out, data);
    proof {
        assert(out@ =~= glb_bytes(document@, data@));
    }
    out
}

/// Whether a tile of these meshes has nothing to show.
pub open spec fn blank(ms: Seq<MeshView>) -> bool {
    mesh::vertex_count(ms) == 0 || mesh::triangle_count(ms) == 0
}

/// Whether a tile has nothing to show.
pub fn is_blank(geometry: &TileGeometry) -> (r: bool)
    ensures
        r == blank(geometry.views()),
{
    let ghost ms = geometry.views();
    let mut vertices: bool = false;
    let mut triangles: bool = false;
    let mut i: usize = 0;
    while i < geometry.meshes.len()
        invariant
            i <= geometry.meshes@.len(),
            ms == geometry.views(),
            vertices == (mesh::vertex_count(ms.take(i as int)) > 0),
            triangles == (mesh::triangle_count(ms.take(i as int)) > 0),
        decreases geometry.meshes@.len() - i,
    {
        proof {
            assert(ms.take(i + 1).drop_last() =~= ms.take(i as int));
            assert(ms.take(i + 1).last() == geometry.meshes@[i as int]@);
        }
        if geometry.meshes[i].positions.len() > 0 {
            vertices = true;
        }
        if geometry.meshes[i].indices.len() >= 3 {
            triangles = true;
        }
        i = i + 1;
    }
    proof {
        assert(ms.take(i as int) =~= ms);
    }
    !vertices || !triangles
}

/// The file of a tile.
pub open spec fn tile_glb(ms: Seq<MeshView>, numerals: Map<u64, serde_json::Value>) -> Seq<u8> {
    glb_bytes(
        encode_utf8(json::json_text(json::tree_of(gltf::gltf_doc(ms), numerals))),
        gltf::binary(ms),
    )
}

/// The binary glTF of a tile. `numerals` holds, by their patterns, the numerals of the
/// fractions in the document.
pub fn build_glb(geometry: &TileGeometry, numerals: &HashMap<u64, serde_json::Value>) -> (r: Result<
    Vec<u8>,
    BuildError,
>)
    requires
        6 * geometry.meshes@.len() <= usize::MAX,
    ensures
        blank(geometry.views()) ==> r == Err::<Vec<u8>, BuildError>(BuildError::Empty),
        !blank(geometry.views()) && !json::has_numerals(
            gltf::gltf_doc(geometry.views()),
            numerals@,
        ) ==> r == Err::<Vec<u8>, BuildError>(BuildError::Json(JsonError::MissingNumeral)),
        !blank(geometry.views()) && json::has_numerals(
            gltf::gltf_doc(geometry.views()),
            numerals@,
        ) ==> (r matches Ok(b) && b@ == tile_glb(geometry.views(), numerals@)),
{
    if is_blank(geometry) {
        return Err(BuildError::Empty);
    }
    let (document, data): (Json, Vec<u8>) = gltf_writer::write_gltf(&geometry.meshes);
    match json::to_text(&document, numerals) {
        Ok(s) => Ok(frame_glb(s.as_str().as_bytes(), &data)),
        Err(e) => Err(BuildError::Json(e)),
    }
}

/// A file of fewer than four gigabytes tells where its parts are: its length, the
/// length of the document's chunk and, behind that, the length of the data. Both
/// chunks begin at multiples of four, and hold the document and the data.
pub proof fn law_glb_reads_back(document: Seq<u8>, data: Seq<u8>)
    requires
        glb_bytes(document, data).len() < 0x1_0000_0000,
    ensures
        glb_bytes(document, data).take(4) == magic(),
        bytes::read32(glb_bytes(document, data), 4) == 2,
        bytes::read32(glb_bytes(document, data), 8) == glb_bytes(document, data).len(),
        ({
            let b = glb_bytes(document, data);
            let n = bytes::read32(b, 12) as int;
            let d = document.len() as int;
            &&& n % 4 == 0
            &&& d <= n < d + 4
            &&& 28 + n + data.len() == b.len()
            &&& b.subrange(16, 20) == json_tag()
            &&& b.subrange(20, 20 + d) == document
            &&& forall|i: int| 20 + d <= i < 20 + n ==> #[trigger] b[i] == 0x20
            &&& bytes::read32(b, 20 + n) == data.len()
            &&& b.subrange(24 + n, 28 + n) == bin_tag()
            &&& b.subrange(28 + n, b.len() as int) == data
        }),
{
    broadcast use bytes::lemma_le32_len;

    let b = glb_bytes(document, data);
    let text = bytes::padded(document, 0x20, 4);
    bytes::law_padded(document, 0x20, 4);
    let n = text.len() as int;
    let d = document.len() as int;
    let s1 = magic() + bytes::le32(2);
    let s2 = s1 + bytes::le32(28 + text.len() + data.len());
    let c1 = bytes::le32(text.len()) + json_tag();
    let s3 = s2 + (c1 + text);
    let c2 = bytes::le32(data.len()) + bin_tag();
    assert(b == s3 + (c2 + data));
    assert(magic().len() == 4 && json_tag().len() == 4 && bin_tag().len() == 4);
    assert(b.subrange(0, 4) == magic()) by {
        bytes::lemma_in_first(s3, c2 + data, 0, 4);
        bytes::lemma_in_first(s2, c1 + text, 0, 4);
        bytes::lemma_in_first(s1, bytes::le32(28 + text.len() + data.len()), 0, 4);
        bytes::lemma_in_first(magic(), bytes::le32(2), 0, 4);
        assert(magic().subrange(0, 4) =~= magic());
    }
    assert(b.take(4) =~= b.subrange(0, 4));
    assert(b.subrange(4, 8) == bytes::le32(2)) by {
        bytes::lemma_in_first(s3, c2 + data, 4, 8);
        bytes::lemma_in_first(s2, c1 + text, 4, 8);
        bytes::lemma_in_first(s1, bytes::le32(28 + text.len() + data.len()), 4, 8);
        bytes::lemma_second(magic(), bytes::le32(2));
    }
    bytes::law_le32_read(2, b, 4);
    assert(b.subrange(8, 12) == bytes::le32(28 + text.len() + data.len())) by {
        bytes::lemma_in_first(s3, c2 + data, 8, 12);
        bytes::lemma_in_first(s2, c1 + text, 8, 12);
        bytes::lemma_second(s1, bytes::le32(28 + text.len() + data.len()));
    }
    bytes::law_le32_read(28 + text.len() + data.len(), b, 8);
    lemma_chunk(s2, bytes::le32(text.len()), json_tag(), text);
    bytes::lemma_in_first(s3, c2 + data, 12, 16);
    bytes::lemma_in_first(s3, c2 + data, 16, 20);
    bytes::lemma_in_first(s3, c2 + data, 20, 20 + n);
    bytes::law_le32_read(text.len(), b, 12);
    lemma_chunk(s3, bytes::le32(data.len()), bin_tag(), data);
    bytes::law_le32_read(data.len(), b, 20 + n);
    assert(b.subrange(20, 20 + d) == document) by {
        assert(b.subrange(20, 20 + d) =~= b.subrange(20, 20 + n).take(d));
    }
    assert forall|i: int| 20 + d <= i < 20 + n implies #[trigger] b[i] == 0x20 by {
        assert(b.subrange(20, 20 + n)[i - 20] == text[i - 20]);
    }
}

/// A chunk behind `s`.
proof fn lemma_chunk(s: Seq<u8>, len: Seq<u8>, tag: Seq<u8>, content: Seq<u8>)
    requires
        len.len() == 4,
        tag.len() == 4,
    ensures
        (s + (len + tag + content)).subrange(s.len() as int, s.len() as int + 4) == len,
        (s + (len + tag + content)).subrange(s.len() as int + 4, s.len() as int + 8) == tag,
        (s + (len + tag + content)).subrange(s.len() as int + 8, s.len() as int + 8 + content.len()) == content,
{
    let all = s + (len + tag + content);
    assert(all.subrange(s.len() as int, s.len() as int + 4) =~= len);
    assert(all.subrange(s.len() as int + 4, s.len() as int + 8) =~= tag);
    assert(all.subrange(s.len() as int + 8, s.len() as int + 8 + content.len()) =~= content);
}

} // verus!
