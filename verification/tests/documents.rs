use std::collections::HashMap;
use tile3d::b3dm::{batch_json, build_b3dm, feature_json, frame_b3dm, make_component_id};
use tile3d::bytes::{append_le32, append_words, flat2, flat3, pad_to};
use tile3d::float::{F32, F64};
use tile3d::glb::{build_glb, frame_glb, is_blank, BuildError};
use tile3d::gltf_writer::write_gltf;
use tile3d::json::{
    array, array_of_one, collect_fractions, floats, object, string, strings, to_pretty, to_text,
    with, Json, JsonError,
};
use tile3d::mesh::{MeshData, TileGeometry};
use tile3d::text::{append_decimal, append_hex, numbered};

fn d(x: f64) -> F64 {
    F64 { bits: x.to_bits() }
}

fn s(x: f32) -> F32 {
    F32 { bits: x.to_bits() }
}

fn v3(x: f32, y: f32, z: f32) -> [F32; 3] {
    [s(x), s(y), s(z)]
}

/// The numerals of all fractions of a document.
fn numerals(j: &Json) -> HashMap<u64, serde_json::Value> {
    let mut patterns: Vec<u64> = Vec::new();
    collect_fractions(j, &mut patterns);
    patterns.into_iter().map(|p| (p, serde_json::Value::from(f64::from_bits(p)))).collect()
}

fn text(j: &Json) -> String {
    to_text(j, &numerals(j)).unwrap()
}

fn mesh(name: &str, texture: Option<&str>) -> MeshData {
    MeshData {
        positions: vec![v3(0.0, 0.0, 0.0), v3(1.5, 0.0, 0.0), v3(0.0, 2.0, -1.0)],
        normals: vec![v3(0.0, 1.0, 0.0); 3],
        uvs: vec![[s(0.0), s(0.0)], [s(1.0), s(0.0)], [s(0.0), s(1.0)]],
        indices: vec![0, 1, 2],
        name: name.to_string(),
        flip_winding: false,
        texture_uri: texture.map(|t| t.to_string()),
        texture_bytes: texture.map(|t| t.as_bytes().to_vec()),
        texture_mime: texture.map(|_| "image/jpeg".to_string()),
        texture_has_alpha: false,
        metallic_factor: s(0.0),
        roughness_factor: s(0.45),
        feature_gid: 0,
        batch_ids: vec![0, 1, 2],
    }
}

fn tile(meshes: Vec<MeshData>) -> TileGeometry {
    TileGeometry {
        meshes,
        batch_names: vec!["pump".to_string(), "tank".to_string(), "\u{9605}".to_string()],
        batch_gids: vec![4, 17, 2000],
    }
}

fn number(b: &[u8], at: usize) -> usize {
    u32::from_le_bytes([b[at], b[at + 1], b[at + 2], b[at + 3]]) as usize
}

#[test]
fn integers_become_digits() {
    let mut t = String::new();
    for n in [0, 7, 10, 4294967296, u64::MAX] {
        append_decimal(&mut t, n);
        t.push(' ');
    }
    assert_eq!(t, "0 7 10 4294967296 18446744073709551615 ");
    let mut h = String::new();
    append_hex(&mut h, 0x811c9dc5, 8);
    append_hex(&mut h, 0xabc, 8);
    append_hex(&mut h, 0x1_2345_6789, 4);
    assert_eq!(h, "811c9dc500000abc6789");
    assert_eq!(numbered("a", 12, "b"), "a12b");
}

#[test]
fn documents_are_written() {
    let o = with(object(), "b", Json::Uint(3));
    let o = with(o, "a", array(vec![Json::Null, Json::Bool(true), Json::Float(d(0.45))]));
    let o = with(o, "c", string("q\"\n\u{e4}"));
    let o = with(o, "f", floats(&vec![d(1.0), d(-2.5e-7), d(f64::NAN)]));
    let o = with(o, "s", strings(&vec!["x".to_string(), "y".to_string()]));
    let o = with(o, "n", array_of_one(object()));
    // What comes later takes the place of what has the same key.
    let o = with(o, "b", Json::Uint(u64::MAX));
    assert_eq!(
        text(&o),
        "{\"a\":[null,true,0.45],\"b\":18446744073709551615,\"c\":\"q\\\"\\n\u{e4}\",\"f\":[1.0,-2.5e-7,null],\"n\":[{}],\"s\":[\"x\",\"y\"]}"
    );
    let p = with(object(), "k", array(vec![Json::Uint(1), Json::Uint(2)]));
    assert_eq!(to_pretty(&p, &HashMap::new()).unwrap(), "{\n  \"k\": [\n    1,\n    2\n  ]\n}");
}

#[test]
fn a_fraction_needs_its_numeral() {
    let o = array(vec![with(object(), "x", Json::Float(d(0.5)))]);
    assert_eq!(to_text(&o, &HashMap::new()), Err(JsonError::MissingNumeral));
    assert_eq!(to_pretty(&o, &HashMap::new()), Err(JsonError::MissingNumeral));
    let mut patterns: Vec<u64> = vec![9];
    collect_fractions(&o, &mut patterns);
    assert_eq!(patterns, vec![9, 0.5_f64.to_bits()]);
    // What the table says is written.
    let mut other: HashMap<u64, serde_json::Value> = HashMap::new();
    other.insert(0.5_f64.to_bits(), serde_json::Value::from("half"));
    assert_eq!(to_text(&o, &other).unwrap(), "[{\"x\":\"half\"}]");
}

#[test]
fn words_are_little_endian() {
    let mut b: Vec<u8> = vec![1];
    append_le32(&mut b, 0x01020304);
    append_le32(&mut b, 0x5_0000_0001);
    append_words(&mut b, &vec![0xff00]);
    assert_eq!(b, vec![1, 4, 3, 2, 1, 1, 0, 0, 0, 0, 0xff, 0, 0]);
    pad_to(&mut b, 9, 4);
    assert_eq!(b.len(), 16);
    assert_eq!(&b[13..], &[9, 9, 9]);
    pad_to(&mut b, 9, 4);
    assert_eq!(b.len(), 16);
    assert_eq!(flat3(&vec![v3(1.0, 2.0, 3.0)]), vec![0x3f800000, 0x40000000, 0x40400000]);
    assert_eq!(flat2(&vec![[s(1.0), s(2.0)]]), vec![0x3f800000, 0x40000000]);
}

#[test]
fn a_glb_file_has_two_chunks() {
    let b = frame_glb(b"{\"a\":1}", &vec![1, 2, 3, 4]);
    assert_eq!(&b[0..4], b"glTF");
    assert_eq!(number(&b, 4), 2);
    assert_eq!(number(&b, 8), b.len());
    assert_eq!(number(&b, 12), 8);
    assert_eq!(&b[16..20], b"JSON");
    assert_eq!(&b[20..28], b"{\"a\":1} ");
    assert_eq!(number(&b, 28), 4);
    assert_eq!(&b[32..36], b"BIN\0");
    assert_eq!(&b[36..], &[1, 2, 3, 4]);
}

#[test]
fn a_b3dm_file_has_two_tables_and_a_model() {
    let b = frame_b3dm(b"{}", b"{\"id\":[]}", &vec![5; 12]);
    assert_eq!(&b[0..4], b"b3dm");
    assert_eq!(number(&b, 4), 1);
    assert_eq!(number(&b, 8), b.len());
    assert_eq!(number(&b, 12), 8);
    assert_eq!(number(&b, 16), 0);
    assert_eq!(number(&b, 20), 16);
    assert_eq!(number(&b, 24), 0);
    assert_eq!(&b[28..36], b"{}      ");
    assert_eq!(&b[36..52], b"{\"id\":[]}       ");
    assert_eq!(&b[52..], &[5; 12]);
}

#[test]
fn components_have_identifiers() {
    let want = |name: &str, gid: usize| -> String {
        let mut h: u32 = 0x811c9dc5;
        for b in format!("{}#g{}", name, gid).bytes() {
            h ^= b as u32;
            h = h.wrapping_mul(0x01000193);
        }
        format!("{:08x}{:08x}{:08x}{:08x}", h, h.wrapping_add(gid as u32), 0u32, 0u32)
    };
    for (name, gid) in [("pump", 4), ("", 0), ("\u{9605}\u{95e8}", 2216), ("x", usize::MAX)] {
        assert_eq!(make_component_id(name, gid), want(name, gid));
    }
    assert_eq!(make_component_id("root", 0).len(), 32);
}

#[test]
fn the_tables_list_the_components() {
    assert_eq!(text(&feature_json(3)), "{\"BATCH_LENGTH\":3}");
    assert_eq!(text(&feature_json(0)), "{\"BATCH_LENGTH\":1}");
    let j = batch_json(&vec!["a".to_string(), "b".to_string()], &vec![9]);
    let v: serde_json::Value = serde_json::from_str(&text(&j)).unwrap();
    assert_eq!(v["name"][1], "b");
    assert_eq!(v["id"][0], make_component_id("a", 9));
    // One that is not given its number has that of its row.
    assert_eq!(v["id"][1], make_component_id("b", 1));
    assert_eq!(v["_pack_props_"].as_array().unwrap().len(), 2);
    let none = text(&batch_json(&vec![], &vec![]));
    assert_eq!(none, "{\"_pack_props_\":[\"null\"],\"id\":[],\"name\":[]}");
}

#[test]
fn blank_tiles_are_refused() {
    let g = tile(vec![]);
    assert!(is_blank(&g));
    assert_eq!(build_glb(&g, &HashMap::new()).unwrap_err(), BuildError::Empty);
    assert_eq!(build_b3dm(&g, &HashMap::new()).unwrap_err(), BuildError::Empty);
    let mut m = mesh("m", None);
    m.indices = vec![0, 1];
    assert!(is_blank(&tile(vec![m])));
    let full = tile(vec![mesh("m", None)]);
    assert!(!is_blank(&full));
    assert_eq!(
        build_glb(&full, &HashMap::new()).unwrap_err(),
        BuildError::Json(JsonError::MissingNumeral)
    );
    assert_eq!(
        build_b3dm(&full, &HashMap::new()).unwrap_err(),
        BuildError::Json(JsonError::MissingNumeral)
    );
}

/// The document and the data of a binary glTF file.
fn open(b: &[u8]) -> (serde_json::Value, Vec<u8>) {
    assert_eq!(&b[0..4], b"glTF");
    assert_eq!(number(b, 8), b.len());
    let n = number(b, 12);
    let doc: serde_json::Value =
        serde_json::from_str(std::str::from_utf8(&b[20..20 + n]).unwrap()).unwrap();
    let m = number(b, 20 + n);
    assert_eq!(28 + n + m, b.len());
    (doc, b[28 + n..].to_vec())
}

fn uint(v: &serde_json::Value) -> usize {
    v.as_u64().unwrap() as usize
}

/// The floating-point numbers that an accessor reads.
fn read_floats(doc: &serde_json::Value, data: &[u8], accessor: usize) -> Vec<f32> {
    let a = &doc["accessors"][accessor];
    assert_eq!(uint(&a["componentType"]), 5126);
    let view = &doc["bufferViews"][uint(&a["bufferView"])];
    let (at, len) = (uint(&view["byteOffset"]), uint(&view["byteLength"]));
    data[at..at + len].chunks(4).map(|c| f32::from_le_bytes([c[0], c[1], c[2], c[3]])).collect()
}

#[test]
fn a_tile_can_be_read_back() {
    let mut turned = mesh("turned", Some("wall"));
    turned.flip_winding = true;
    turned.texture_has_alpha = true;
    turned.batch_ids = vec![];
    let g = tile(vec![mesh("plain", None), turned, mesh("also", Some("wall"))]);
    let table = numerals(&write_gltf(&g.meshes).0);
    let (doc, data) = open(&build_glb(&g, &table).unwrap());

    assert_eq!(doc["asset"]["version"], "2.0");
    assert_eq!(doc["nodes"].as_array().unwrap().len(), 3);
    assert_eq!(doc["meshes"].as_array().unwrap().len(), 3);
    assert_eq!(uint(&doc["buffers"][0]["byteLength"]), data.len());
    assert_eq!(doc["samplers"].as_array().unwrap().len(), 1);
    assert_eq!(uint(&doc["samplers"][0]["minFilter"]), 9987);

    for i in 0..3 {
        assert_eq!(uint(&doc["nodes"][i]["mesh"]), i);
        assert_eq!(uint(&doc["scenes"][0]["nodes"][i]), i);
        let p = &doc["meshes"][i]["primitives"][0];
        let at = &p["attributes"];
        let positions = read_floats(&doc, &data, uint(&at["POSITION"]));
        assert_eq!(positions, vec![0.0, 0.0, 0.0, 1.5, 0.0, 0.0, 0.0, 2.0, -1.0]);
        assert_eq!(read_floats(&doc, &data, uint(&at["NORMAL"])).len(), 9);
        assert_eq!(
            read_floats(&doc, &data, uint(&at["TEXCOORD_0"])),
            vec![0.0, 0.0, 1.0, 0.0, 0.0, 1.0]
        );
        let ids = read_floats(&doc, &data, uint(&at["_BATCHID"]));
        assert_eq!(ids, if i == 1 { vec![0.0; 3] } else { vec![0.0, 1.0, 2.0] });
        let a = &doc["accessors"][uint(&p["indices"])];
        assert_eq!(uint(&a["componentType"]), 5125);
        let batch_view = &doc["accessors"][uint(&at["_BATCHID"])]["bufferView"];
        assert_ne!(&a["bufferView"], batch_view);
        let view = &doc["bufferViews"][uint(&a["bufferView"])];
        let start = uint(&view["byteOffset"]);
        let drawn: Vec<usize> = (0..3).map(|k| number(&data, start + 4 * k)).collect();
        assert_eq!(drawn, if i == 1 { vec![0, 2, 1] } else { vec![0, 1, 2] });
    }
    let first = &doc["accessors"][0];
    assert_eq!(first["min"], serde_json::Value::from(vec![0.0, 0.0, -1.0]));
    assert_eq!(first["max"], serde_json::Value::from(vec![1.5, 2.0, 0.0]));

    // One material without a texture, and one for the two meshes that share one.
    let materials = doc["materials"].as_array().unwrap();
    assert_eq!(materials.len(), 2);
    assert!(materials[0]["pbrMetallicRoughness"]["baseColorTexture"].is_null());
    let m = &materials[uint(&doc["meshes"][2]["primitives"][0]["material"])];
    let texture = &doc["textures"][uint(&m["pbrMetallicRoughness"]["baseColorTexture"]["index"])];
    assert_eq!(uint(&texture["sampler"]), 0);
    let image = &doc["images"][uint(&texture["source"])];
    assert_eq!(image["mimeType"], "image/jpeg");
    let view = &doc["bufferViews"][uint(&image["bufferView"])];
    let (at, len) = (uint(&view["byteOffset"]), uint(&view["byteLength"]));
    assert_eq!(at % 4, 0);
    assert_eq!(&data[at..at + len], b"wall");
    assert_eq!(m["alphaMode"], "MASK");
    assert_eq!(m["doubleSided"], true);
    assert!(materials[0]["alphaMode"].is_null());
    let rough = m["pbrMetallicRoughness"]["roughnessFactor"].as_f64().unwrap();
    assert_eq!(rough, 0.45_f32 as f64);
}

#[test]
fn each_texture_has_one_image() {
    let g = tile(vec![mesh("plain", None), mesh("a", Some("t.png")), mesh("b", Some("t.png"))]);
    let (doc, _) = open(&build_glb(&g, &numerals(&write_gltf(&g.meshes).0)).unwrap());
    assert_eq!(doc["images"].as_array().unwrap().len(), 1);
    assert_eq!(doc["textures"].as_array().unwrap().len(), 1);
    assert_eq!(uint(&doc["textures"][0]["source"]), 0);
    let g = tile(vec![mesh("a", Some("s.png")), mesh("plain", None), mesh("b", Some("t.png"))]);
    let (doc, _) = open(&build_glb(&g, &numerals(&write_gltf(&g.meshes).0)).unwrap());
    assert_eq!(doc["images"].as_array().unwrap().len(), 2);
    let m = &doc["materials"][uint(&doc["meshes"][2]["primitives"][0]["material"])];
    let t = uint(&m["pbrMetallicRoughness"]["baseColorTexture"]["index"]);
    assert_eq!(uint(&doc["textures"][t]["source"]), 1);
    assert!(doc["images"].as_array().unwrap().iter().all(|i| i["bufferView"].is_u64()));
}

#[test]
fn the_runs_of_bytes_do_not_overlap() {
    let g = tile(vec![
        mesh("a", Some("s.png")),
        mesh("plain", None),
        mesh("b", Some("t.png")),
        mesh("c", Some("s.png")),
    ]);
    let (doc, data) = open(&build_glb(&g, &numerals(&write_gltf(&g.meshes).0)).unwrap());
    let views = doc["bufferViews"].as_array().unwrap();
    assert_eq!(views.len(), 4 * 5 + 2);
    let mut end = 0;
    for v in views {
        assert!(end <= uint(&v["byteOffset"]));
        end = uint(&v["byteOffset"]) + uint(&v["byteLength"]);
    }
    assert!(end <= data.len());
}

#[test]
fn a_texture_that_is_not_embedded_is_named() {
    let mut m = mesh("m", Some("wall.jpg"));
    m.texture_bytes = None;
    let g = tile(vec![m]);
    let (doc, _) = open(&build_glb(&g, &numerals(&write_gltf(&g.meshes).0)).unwrap());
    assert_eq!(doc["images"][0]["uri"], "wall.jpg");
    assert!(doc["images"][0]["bufferView"].is_null());
}

#[test]
fn a_batched_model_can_be_read_back() {
    let g = tile(vec![mesh("m", Some("t"))]);
    let table = numerals(&write_gltf(&g.meshes).0);
    let b = build_b3dm(&g, &table).unwrap();
    assert_eq!(&b[0..4], b"b3dm");
    assert_eq!(number(&b, 8), b.len());
    let (f, t) = (number(&b, 12), number(&b, 20));
    let features: serde_json::Value =
        serde_json::from_str(std::str::from_utf8(&b[28..28 + f]).unwrap()).unwrap();
    let batches: serde_json::Value =
        serde_json::from_str(std::str::from_utf8(&b[28 + f..28 + f + t]).unwrap()).unwrap();
    assert_eq!(uint(&features["BATCH_LENGTH"]), 3);
    assert!(features["RTC_CENTER"].is_null());
    assert_eq!(batches["name"][2], "\u{9605}");
    assert_eq!(batches["id"][1], make_component_id("tank", 17));
    assert_eq!((28 + f + t) % 4, 0);
    let (doc, data) = open(&b[28 + f + t..]);
    let ids = read_floats(&doc, &data, 3);
    // Every vertex leads to a row of the table.
    for id in ids {
        assert!((id as usize) < 3);
    }
}
