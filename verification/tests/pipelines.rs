use std::collections::HashMap;
use tile3d::boxes::Bounds;
use tile3d::float::{F32, F64};
use tile3d::json::{collect_fractions, to_text, Json};
use tile3d::octree::{Aabb, OctreeBuilder, OctreeNode};
use tile3d::pipeline::{finish_tileset, plan_jobs};

fn d(x: f64) -> F64 {
    F64 { bits: x.to_bits() }
}

fn point(x: f64, y: f64, z: f64) -> [F64; 3] {
    [d(x), d(y), d(z)]
}

fn bounds(lo: f32, hi: f32) -> Option<Bounds> {
    let at = |x: f32| [F32 { bits: x.to_bits() }; 3];
    Some(Bounds { min: at(lo), max: at(hi) })
}

fn value(j: &Json) -> serde_json::Value {
    let mut patterns: Vec<u64> = Vec::new();
    collect_fractions(j, &mut patterns);
    let table: HashMap<u64, serde_json::Value> =
        patterns.into_iter().map(|p| (p, serde_json::Value::from(f64::from_bits(p)))).collect();
    serde_json::from_str(&to_text(j, &table).unwrap()).unwrap()
}

/// Four meshes, two of them in one octant; the last is light.
fn tree() -> (OctreeNode, Vec<u64>) {
    let centers = vec![
        point(0.2, 0.2, 0.2),
        point(0.8, 0.8, 0.8),
        point(1.5, 0.5, 0.5),
        point(0.5, 1.5, 1.5),
    ];
    let tris = vec![300000, 200000, 250000, 100];
    let builder = OctreeBuilder {
        max_depth: 6,
        max_meshes_per_leaf: 200,
        min_extent: d(0.5),
        max_triangles_per_tile: 317460,
    };
    let cell = Aabb { min: point(0.0, 0.0, 0.0), max: point(2.0, 2.0, 2.0) };
    (builder.build(cell, &centers, &tris), tris)
}

#[test]
fn a_single_layer_has_a_job_for_each_living_tile() {
    let (tree, tris) = tree();
    let jobs = plan_jobs(&tree, &tris, 0, d(20.0));
    let seen: Vec<(usize, Vec<usize>)> = jobs.iter().map(|j| (j.number, j.ids.clone())).collect();
    // The light leaf, the last one, has gone to the nearest with room.
    assert_eq!(seen, vec![(0, vec![0]), (1, vec![1, 3]), (2, vec![2])]);
    assert!(jobs.iter().all(|j| j.keep_ratio.bits == 0 && j.node.is_leaf()));
    // With less room nothing is merged.
    assert_eq!(plan_jobs(&tree, &tris, 0, d(1.0)).len(), 4);
}

#[test]
fn levels_have_a_job_for_each_filled_node() {
    let (tree, tris) = tree();
    let jobs = plan_jobs(&tree, &tris, 1, d(20.0));
    let seen: Vec<(usize, u32, Vec<usize>)> =
        jobs.iter().map(|j| (j.number, j.node.depth, j.ids.clone())).collect();
    assert_eq!(
        seen,
        vec![
            (0, 0, vec![0, 1, 2, 3]),
            (1, 1, vec![0, 1]),
            (2, 2, vec![0]),
            (9, 2, vec![1]),
            (10, 1, vec![2]),
            (15, 1, vec![3]),
        ]
    );
    let kept: Vec<f32> = jobs.iter().map(|j| f32::from_bits(j.keep_ratio.bits)).collect();
    assert_eq!(kept, vec![0.35, 0.35, 0.0, 0.0, 0.0, 0.0]);
    let kept: Vec<f32> = plan_jobs(&tree, &tris, 2, d(20.0))
        .iter()
        .map(|j| f32::from_bits(j.keep_ratio.bits))
        .collect();
    assert_eq!(kept, vec![0.35 / 4.0, 0.35, 0.0, 0.0, 0.0, 0.0]);
}

#[test]
fn a_single_layer_is_finished() {
    let (tree, tris) = tree();
    let jobs = plan_jobs(&tree, &tris, 0, d(20.0));
    let v = value(&finish_tileset(&tree, &jobs, &vec![bounds(0.0, 4.0), None, bounds(1.0, 2.0)], 0).unwrap());
    let children = v["root"]["children"].as_array().unwrap();
    assert_eq!(children.len(), 3);
    assert_eq!(children[2]["content"]["uri"], "NoLod_2.b3dm");
    assert_eq!(v["geometricError"].as_f64(), Some(4.0));
    // A tile that was not written has the box of its cell, with the margin.
    assert_eq!(children[1]["boundingVolume"]["box"][3].as_f64(), Some(0.25 + 0.125 + 1.0));
}

/// Whether the volumes of all children lie within that of their parent, up to rounding,
/// and no geometric error grows.
fn check_nested(tile: &serde_json::Value) {
    let number = |t: &serde_json::Value, i: usize| t["boundingVolume"]["box"][i].as_f64().unwrap();
    if let Some(children) = tile["children"].as_array() {
        for c in children {
            for a in 0..3 {
                let end = |t, s: f64| number(t, a) + s * number(t, 3 + 4 * a);
                assert!(end(tile, -1.0) <= end(c, -1.0) + 1e-5);
                assert!(end(c, 1.0) <= end(tile, 1.0) + 1e-5);
            }
            let error = |t: &serde_json::Value| t["geometricError"].as_f64().unwrap();
            assert!(error(c) <= error(tile));
            check_nested(c);
        }
    }
}

#[test]
fn levels_are_finished() {
    let (tree, tris) = tree();
    let jobs = plan_jobs(&tree, &tris, 1, d(20.0));
    let written = vec![bounds(0.0, 2.0), None, bounds(0.0, 1.0), None, bounds(1.0, 2.0), bounds(0.0, 3.0)];
    let v = value(&finish_tileset(&tree, &jobs, &written, 1).unwrap());
    let root = &v["root"];
    assert_eq!(root["content"]["uri"], "L0_0.b3dm");
    let children = root["children"].as_array().unwrap();
    assert_eq!(children.len(), 3);
    // The first child was not written, but one of its own was.
    assert!(children[0]["content"].is_null());
    assert_eq!(children[0]["children"].as_array().unwrap().len(), 1);
    assert_eq!(children[0]["children"][0]["content"]["uri"], "L2_2.b3dm");
    assert_eq!(children[1]["content"]["uri"], "L1_4.b3dm");
    assert_eq!(children[2]["content"]["uri"], "L1_5.b3dm");
    check_nested(root);
    let nothing = vec![None, None, None, None, None, None];
    assert!(finish_tileset(&tree, &jobs, &nothing, 1).is_none());
}
