use std::collections::HashMap;
use tile3d::b3dm::make_component_id;
use tile3d::boxes::{
    aabb_minmax_to_box12, aabb_minmax_to_box12_padded, aabb_to_box12, extent, narrow_cell, nothing,
    unite, widen_bounds, Bounds,
};
use tile3d::float::{F32, F64};
use tile3d::json::{collect_fractions, object, string, to_text, with, Json};
use tile3d::octree::{Aabb, OctreeNode};
use tile3d::scenetree::{
    box_sphere, build_scenetree, enu_offset_to_ecef, name_component, nodes_of, wgs84_ecef, Angle,
    Frame, SceneMesh, Stand,
};
use tile3d::tileset::{
    build_tileset, build_tileset_hierarchical, file_name, node_error, with_location, Location,
    NodeTiles,
};

fn d(x: f64) -> F64 {
    F64 { bits: x.to_bits() }
}

fn n(x: F64) -> f64 {
    f64::from_bits(x.bits)
}

fn s(x: f32) -> F32 {
    F32 { bits: x.to_bits() }
}

fn d3(x: f64, y: f64, z: f64) -> [F64; 3] {
    [d(x), d(y), d(z)]
}

fn v3(x: f32, y: f32, z: f32) -> [F32; 3] {
    [s(x), s(y), s(z)]
}

fn bounds(lo: [f32; 3], hi: [f32; 3]) -> Bounds {
    Bounds { min: v3(lo[0], lo[1], lo[2]), max: v3(hi[0], hi[1], hi[2]) }
}

fn plain(v: &Vec<F32>) -> Vec<f32> {
    v.iter().map(|x| f32::from_bits(x.bits)).collect()
}

fn value(j: &Json) -> serde_json::Value {
    let mut patterns: Vec<u64> = Vec::new();
    collect_fractions(j, &mut patterns);
    let table: HashMap<u64, serde_json::Value> =
        patterns.into_iter().map(|p| (p, serde_json::Value::from(f64::from_bits(p)))).collect();
    serde_json::from_str(&to_text(j, &table).unwrap()).unwrap()
}

fn numbers(v: &serde_json::Value) -> Vec<f64> {
    v.as_array().unwrap().iter().map(|x| x.as_f64().unwrap()).collect()
}

#[test]
fn a_bounding_volume_stands_upright() {
    let b = bounds([300.0, -1.0, 90.0], [308.5, 1.5, 104.0]);
    assert_eq!(
        plain(&aabb_minmax_to_box12(b)),
        vec![304.25, -97.0, 0.25, 4.25, 0.0, 0.0, 0.0, 7.0, 0.0, 0.0, 0.0, 1.25]
    );
    let cell = Aabb { min: d3(300.0, -1.0, 90.0), max: d3(308.5, 1.5, 104.0) };
    assert_eq!(plain(&aabb_to_box12(&cell)), plain(&aabb_minmax_to_box12(b)));
    assert_eq!(narrow_cell(&cell).min, b.min);
}

#[test]
fn a_margin_is_half_of_the_half_and_a_metre() {
    let b = bounds([0.0, 0.0, 0.0], [8.0, 4.0, 0.0]);
    let w = widen_bounds(b);
    assert_eq!(w.min, v3(-3.0, -2.0, -1.0));
    assert_eq!(w.max, v3(11.0, 6.0, 1.0));
    assert_eq!(
        plain(&aabb_minmax_to_box12_padded(b)),
        plain(&aabb_minmax_to_box12(bounds([-3.0, -2.0, -1.0], [11.0, 6.0, 1.0])))
    );
}

#[test]
fn a_margin_never_shrinks_a_box() {
    for (lo, hi) in [(0.0_f32, 0.0), (-1.0e30, 1.0e30), (16777216.0, 16777218.0), (-3.0e38, 3.0e38)] {
        let b = bounds([lo; 3], [hi; 3]);
        let w = widen_bounds(b);
        assert!(w.min[0].le(b.min[0]));
        assert!(b.max[0].le(w.max[0]));
    }
}

#[test]
fn boxes_are_united() {
    let a = bounds([0.0, 1.0, 2.0], [3.0, 4.0, 5.0]);
    let b = bounds([-1.0, 2.0, 2.0], [2.0, 9.0, 5.0]);
    let u = unite(&a, &b);
    assert_eq!(u.min, v3(-1.0, 1.0, 2.0));
    assert_eq!(u.max, v3(3.0, 9.0, 5.0));
    let same = unite(&nothing(), &a);
    assert_eq!((same.min, same.max), (a.min, a.max));
    assert_eq!(extent(u), s(8.0));
}

#[test]
fn files_have_names() {
    assert_eq!(file_name(0, 3, 12), "NoLod_12.b3dm");
    assert_eq!(file_name(2, 3, 12), "L3_12.b3dm");
}

#[test]
fn a_single_layer_hangs_under_the_root() {
    let cells = vec![
        Aabb { min: d3(0.0, 0.0, 0.0), max: d3(1.0, 1.0, 1.0) },
        Aabb { min: d3(-4.0, 0.0, 0.0), max: d3(-3.0, 1.0, 1.0) },
    ];
    let given = vec![Some(bounds([0.0, 0.0, 0.0], [2.0, 6.0, 4.0])), None];
    let v = value(&build_tileset(&cells, &given));
    assert_eq!(v["asset"]["generatetool"], "RustFBX2Tiles");
    assert_eq!(v["asset"]["version"], "1.0");
    assert_eq!(v["geometricError"].as_f64(), Some(6.0));
    assert_eq!(v["refine"], "REPLACE");
    let root = &v["root"];
    assert_eq!(root["geometricError"].as_f64(), Some(6.0));
    // The root has no margin, and holds both tiles.
    assert_eq!(
        numbers(&root["boundingVolume"]["box"]),
        vec![-1.0, -2.0, 3.0, 3.0, 0.0, 0.0, 0.0, 2.0, 0.0, 0.0, 0.0, 3.0]
    );
    let children = root["children"].as_array().unwrap();
    assert_eq!(children.len(), 2);
    assert_eq!(children[0]["content"]["uri"], "NoLod_0.b3dm");
    assert_eq!(children[1]["content"]["uri"], "NoLod_1.b3dm");
    assert_eq!(children[0]["geometricError"].as_u64(), Some(0));
    assert_eq!(
        numbers(&children[1]["boundingVolume"]["box"]),
        numbers(&value(&tile3d::json::floats(
            &aabb_minmax_to_box12_padded(bounds([-4.0, 0.0, 0.0], [-3.0, 1.0, 1.0]))
                .iter()
                .map(|x| x.widen())
                .collect()
        )))
    );
}

fn node(depth: u32, children: Vec<Box<OctreeNode>>) -> OctreeNode {
    OctreeNode {
        bounds: Aabb { min: d3(0.0, 0.0, 0.0), max: d3(16.0, 8.0, 4.0) },
        mesh_ids: Vec::new(),
        children,
        depth,
    }
}

#[test]
fn an_error_is_an_eighth_of_the_cell() {
    assert_eq!(n(node_error(&node(0, vec![]))), 0.0);
    assert_eq!(n(node_error(&node(0, vec![Box::new(node(1, vec![]))]))), 2.0);
}

#[test]
fn levels_are_nested() {
    let tree = node(0, vec![Box::new(node(1, vec![])), Box::new(node(1, vec![])), Box::new(node(1, vec![]))]);
    let tiles = NodeTiles {
        bounds: vec![
            Some(bounds([1.0, 1.0, 1.0], [2.0, 2.0, 2.0])),
            Some(bounds([0.0, 0.0, 0.0], [3.0, 1.0, 1.0])),
            None,
            Some(bounds([5.0, 5.0, 5.0], [6.0, 9.0, 6.0])),
        ],
        files: vec![Some("L0_0.b3dm".to_string()), Some("L1_1.b3dm".to_string()), None, Some("L1_2.b3dm".to_string())],
    };
    let v = value(&build_tileset_hierarchical(&tree, &tiles).unwrap());
    assert_eq!(v["geometricError"].as_f64(), Some(9.0));
    let root = &v["root"];
    assert_eq!(root["geometricError"].as_f64(), Some(2.0));
    assert_eq!(root["content"]["uri"], "L0_0.b3dm");
    let children = root["children"].as_array().unwrap();
    assert_eq!(children.len(), 2);
    assert_eq!(children[0]["content"]["uri"], "L1_1.b3dm");
    assert_eq!(children[1]["content"]["uri"], "L1_2.b3dm");
    assert_eq!(children[1]["geometricError"].as_f64(), Some(0.0));
    assert!(children[1]["children"].is_null());
    // The root's own geometry is smaller than that of its children; its box is not.
    let want = aabb_minmax_to_box12_padded(bounds([0.0, 0.0, 0.0], [6.0, 9.0, 6.0]));
    assert_eq!(
        numbers(&root["boundingVolume"]["box"]),
        plain(&want).iter().map(|x| *x as f64).collect::<Vec<f64>>()
    );
}

#[test]
fn a_tree_without_tiles_has_no_tileset() {
    let tiles = NodeTiles { bounds: vec![], files: vec![] };
    assert!(build_tileset_hierarchical(&node(0, vec![]), &tiles).is_none());
    // Bounds alone make no tile.
    let tiles = NodeTiles { bounds: vec![Some(bounds([0.0; 3], [1.0; 3]))], files: vec![None] };
    assert!(build_tileset_hierarchical(&node(0, vec![]), &tiles).is_none());
    // A tile below makes one.
    let tree = node(0, vec![Box::new(node(1, vec![]))]);
    let tiles = NodeTiles {
        bounds: vec![None, Some(bounds([0.0; 3], [1.0; 3]))],
        files: vec![None, Some("L1_0.b3dm".to_string())],
    };
    let v = value(&build_tileset_hierarchical(&tree, &tiles).unwrap());
    assert!(v["root"]["content"].is_null());
    assert_eq!(v["root"]["children"][0]["content"]["uri"], "L1_0.b3dm");
}

#[test]
fn a_location_is_added() {
    let l = Location { longitude: d(110.5), latitude: d(21.25), heading: d(-178.0), pitch: d(0.0), roll: d(1.0) };
    let o = with(object(), "asset", with(object(), "version", string("1.0")));
    let v = value(&with_location(with(o, "x", Json::Uint(1)), &l));
    assert_eq!(v["asset"]["version"], "1.0");
    assert_eq!(v["asset"]["location"]["longitude"].as_f64(), Some(110.5));
    assert_eq!(v["asset"]["location"]["heading"].as_f64(), Some(-178.0));
    assert_eq!(v["asset"]["location"]["roll"].as_f64(), Some(1.0));
    assert_eq!(v["x"].as_u64(), Some(1));
    let v = value(&with_location(object(), &l));
    assert_eq!(v["asset"]["location"]["latitude"].as_f64(), Some(21.25));
    let v = value(&with_location(with(object(), "asset", Json::Uint(3)), &l));
    assert_eq!(v["asset"]["location"]["pitch"].as_f64(), Some(0.0));
}

fn angle(degrees: f64) -> Angle {
    let (sin, cos) = degrees.to_radians().sin_cos();
    Angle { sin: d(sin), cos: d(cos) }
}

#[test]
fn points_lie_on_the_ellipsoid() {
    for (lon, lat, h) in [(0.0_f64, 0.0_f64, 0.0), (116.397428, 39.90923, 0.0), (110.4, -21.2, 35.5)] {
        let r = wgs84_ecef(angle(lon), angle(lat), d(h));
        let (e2, a) = (6.69437999014e-3_f64, 6378137.0_f64);
        let ((sl, cl), (sp, cp)) = (lon.to_radians().sin_cos(), lat.to_radians().sin_cos());
        let m = a / (1.0 - e2 * sp * sp).sqrt();
        assert_eq!(n(r[0]), (m + h) * cp * cl);
        assert_eq!(n(r[1]), (m + h) * cp * sl);
        assert_eq!(n(r[2]), (m * (1.0 - e2) + h) * sp);
    }
    assert_eq!(n(wgs84_ecef(angle(0.0), angle(0.0), d(0.0))[0]), 6378137.0);
}

#[test]
fn offsets_follow_the_compass() {
    let (lon, lat) = (30.0_f64, 50.0_f64);
    let r = enu_offset_to_ecef(angle(lon), angle(lat), d(3.0), d(-4.0), d(5.5));
    let ((sl, cl), (sp, cp)) = (lon.to_radians().sin_cos(), lat.to_radians().sin_cos());
    let (e, m, u) = (3.0, -4.0, 5.5);
    assert_eq!(n(r[0]), e * -sl + m * -sp * cl + u * cp * cl);
    assert_eq!(n(r[1]), e * cl + m * -sp * sl + u * cp * sl);
    assert_eq!(n(r[2]), m * cp + u * sp);
}

#[test]
fn a_sphere_is_around_the_box() {
    let stand = Stand { longitude: angle(0.0), latitude: angle(0.0), heading: angle(0.0) };
    let b = Aabb { min: d3(0.0, 2.0, -3.0), max: d3(2.0, 5.0, 3.0) };
    let r = box_sphere(&b, &stand);
    // At the zero meridian east is y, north is z and up is x.
    assert_eq!(n(r[0]), 6378137.0);
    assert_eq!(n(r[1]), 1.0);
    assert_eq!(n(r[2]), 3.5);
    assert_eq!(n(r[3]), 3.5);
    let dot = Aabb { min: d3(1.0, 1.0, 1.0), max: d3(1.0, 1.0, 1.0) };
    assert_eq!(n(box_sphere(&dot, &stand)[3]), 0.01);
}

#[test]
fn components_have_names() {
    assert_eq!(name_component("mesh", "node", 7), "mesh");
    assert_eq!(name_component("", "node", 7), "node");
    assert_eq!(name_component("", "", 7), "mesh_7");
}

#[test]
fn the_last_node_places_and_the_first_named_one_names() {
    let meshes = vec![Some(1), None, Some(1), Some(0), Some(1), Some(9)];
    let names: Vec<String> =
        ["", "group", "pump", "", "tank", "far"].iter().map(|x| x.to_string()).collect();
    assert_eq!(
        nodes_of(&meshes, &names, 3),
        vec![(Some(3), None), (Some(4), Some(2)), (None, None)]
    );
    assert!(nodes_of(&meshes, &names, 0).is_empty());
}

#[test]
fn a_node_has_an_entry_where_a_tile_is_below() {
    // Root, first child with two leaves, second child with one.
    let tree = node(
        0,
        vec![
            Box::new(node(1, vec![Box::new(node(2, vec![])), Box::new(node(2, vec![]))])),
            Box::new(node(1, vec![Box::new(node(2, vec![]))])),
        ],
    );
    for with_tile in 0..6_usize {
        let given = |i: usize| i == with_tile;
        let tiles = NodeTiles {
            // Bounds everywhere, but a file for one node only.
            bounds: (0..6).map(|_| Some(bounds([0.0; 3], [1.0; 3]))).collect(),
            files: (0..6).map(|i| if given(i) { Some(format!("L_{}.b3dm", i)) } else { None }).collect(),
        };
        let v = value(&build_tileset_hierarchical(&tree, &tiles).unwrap());
        // The numbers of the nodes on the way to the tile.
        let way: Vec<usize> = match with_tile {
            0 => vec![0],
            1 => vec![0, 1],
            2 => vec![0, 1, 2],
            3 => vec![0, 1, 3],
            4 => vec![0, 4],
            _ => vec![0, 4, 5],
        };
        let mut entry = &v["root"];
        for _ in 1..way.len() {
            assert!(entry["content"].is_null());
            assert_eq!(entry["children"].as_array().unwrap().len(), 1);
            entry = &entry["children"][0];
        }
        assert_eq!(entry["content"]["uri"], format!("L_{}.b3dm", with_tile));
        assert!(entry["children"].is_null());
    }
}

#[test]
fn the_scene_tree_lists_the_components() {
    let meshes = vec![
        SceneMesh { name: "tank".to_string(), positions: vec![d3(0.0, 0.0, 0.0), d3(200.0, 0.0, 0.0)] },
        SceneMesh { name: "empty".to_string(), positions: vec![] },
        SceneMesh { name: "pump".to_string(), positions: vec![d3(0.0, 400.0, 0.0)] },
    ];
    let frame = Frame { scale: d(0.01), off: d3(1.0, 0.0, 0.0) };
    let stand = Stand { longitude: angle(0.0), latitude: angle(0.0), heading: angle(0.0) };
    let v = value(&build_scenetree(&meshes, &frame, &stand));
    let root = &v["scenes"][0];
    assert_eq!(root["name"], "root");
    assert_eq!(root["type"], "node");
    assert_eq!(root["id"], make_component_id("root", 0));
    assert_eq!(numbers(&root["sphere"])[3], (4.0_f64 + 16.0).sqrt() / 2.0);
    let children = root["children"].as_array().unwrap();
    assert_eq!(children.len(), 2);
    assert_eq!(children[0]["id"], make_component_id("tank", 0));
    assert_eq!(children[0]["type"], "element");
    assert_eq!(numbers(&children[0]["sphere"]), vec![6378137.0, 0.0, 0.0, 1.0]);
    // The identifier is that of the place among all meshes.
    assert_eq!(children[1]["id"], make_component_id("pump", 2));
    assert_eq!(children[1]["name"], "pump");
    assert_eq!(numbers(&children[1]["sphere"])[3], 0.01);
}
