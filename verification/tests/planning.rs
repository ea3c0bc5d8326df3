use tile3d::float::F64;
use tile3d::octree::{Aabb, OctreeBuilder, OctreeNode};
use tile3d::tiles::{
    distance, filled_leaves, living_tiles, merge_small_tiles, plan_tiles, seed_tiles,
    triangle_budget, TileSet, SMALL_TILE_TRIANGLES,
};

fn d(x: f64) -> F64 {
    F64 { bits: x.to_bits() }
}

fn point(x: f64, y: f64, z: f64) -> [F64; 3] {
    [d(x), d(y), d(z)]
}

fn leaf(x: f64, ids: Vec<usize>) -> OctreeNode {
    OctreeNode {
        bounds: Aabb { min: point(x - 1.0, 0.0, 0.0), max: point(x + 1.0, 1.0, 1.0) },
        mesh_ids: ids,
        children: Vec::new(),
        depth: 1,
    }
}

#[test]
fn megabytes_become_triangles() {
    for mb in [20.0_f64, 10.0, 2.0, 0.5, 0.0, -3.0, 1.0e-9] {
        assert_eq!(triangle_budget(d(mb)), (mb * 1_000_000.0 / 63.0).max(1.0) as u64);
    }
    assert_eq!(triangle_budget(d(20.0)), 317460);
    assert_eq!(triangle_budget(d(f64::NAN)), 1);
    assert_eq!(triangle_budget(d(f64::INFINITY)), u64::MAX);
    assert_eq!(SMALL_TILE_TRIANGLES, (2.0_f64 * 1_000_000.0 / 63.0) as u64);
}

#[test]
fn distances_are_squared() {
    let r = distance(point(1.0, 2.0, 3.0), point(4.0, 6.0, 3.0));
    assert_eq!(f64::from_bits(r.bits), 25.0);
}

#[test]
fn only_filled_leaves_become_tiles() {
    let centers = vec![point(0.5, 0.5, 0.5), point(1.5, 1.5, 1.5)];
    let tris = vec![50, 60];
    let builder = OctreeBuilder {
        max_depth: 3,
        max_meshes_per_leaf: 1,
        min_extent: d(0.5),
        max_triangles_per_tile: 60,
    };
    let cell = Aabb { min: point(0.0, 0.0, 0.0), max: point(2.0, 2.0, 2.0) };
    let tree = builder.build(cell, &centers, &tris);
    let leaves = filled_leaves(&tree);
    assert_eq!(leaves.len(), 2);
    assert_eq!(leaves[0].mesh_ids, vec![0]);
    assert_eq!(leaves[1].mesh_ids, vec![1]);
    let tiles = seed_tiles(&leaves, &tris);
    assert_eq!(tiles.tris, vec![50, 60]);
    assert_eq!(tiles.dead, vec![false, false]);
    assert_eq!(tiles.ids, vec![vec![0], vec![1]]);
    assert_eq!(tiles.centers[1], point(1.5, 1.5, 1.5));
}

#[test]
fn a_small_tile_joins_the_nearest_with_room() {
    let nodes = vec![
        leaf(0.0, vec![4]),
        leaf(10.0, vec![1]),
        leaf(3.0, vec![3, 9]),
        leaf(4.0, vec![0]),
    ];
    let refs: Vec<&OctreeNode> = nodes.iter().collect();
    //            0      1       2  3       4     5  6  7  8  9
    let tris = vec![90000, 200000, 0, 20000, 40000, 0, 0, 0, 0, 5000];
    let tiles = plan_tiles(&refs, &tris, 100000);
    // The third is small. The fourth is nearest, but full; the first is next.
    assert_eq!(tiles.dead, vec![false, false, true, false]);
    assert_eq!(tiles.ids[0], vec![3, 4, 9]);
    assert_eq!(tiles.tris[0], 65000);
    assert_eq!(living_tiles(&tiles), vec![0, 1, 3]);
}

#[test]
fn the_smallest_tile_goes_first() {
    let nodes = vec![leaf(0.0, vec![0]), leaf(1.0, vec![1]), leaf(50.0, vec![2])];
    let refs: Vec<&OctreeNode> = nodes.iter().collect();
    let tiles = plan_tiles(&refs, &[40000, 20000, 10000], 55000);
    // The last joins the first, which has no room left for the second then.
    assert_eq!(tiles.dead, vec![false, false, true]);
    assert_eq!(tiles.ids[0], vec![0, 2]);
    assert_eq!(tiles.tris[0], 50000);
}

#[test]
fn a_merged_tile_is_not_merged_again() {
    let nodes = vec![leaf(0.0, vec![0]), leaf(1.0, vec![1]), leaf(2.0, vec![2])];
    let refs: Vec<&OctreeNode> = nodes.iter().collect();
    let tiles = plan_tiles(&refs, &[10, 20, 40000], 100000);
    assert_eq!(living_tiles(&tiles), vec![2]);
    assert_eq!(tiles.ids[2], vec![0, 1, 2]);
    assert_eq!(tiles.tris[2], 40030);
}

#[test]
fn small_tiles_do_not_join_small_ones() {
    let nodes = vec![leaf(0.0, vec![0]), leaf(1.0, vec![1]), leaf(90.0, vec![2])];
    let refs: Vec<&OctreeNode> = nodes.iter().collect();
    assert_eq!(living_tiles(&plan_tiles(&refs, &[1, 1, 31745], 100000)), vec![0, 1, 2]);
    // Just large enough, though far away.
    let tiles = plan_tiles(&refs, &[1, 1, 31746], 100000);
    assert_eq!(living_tiles(&tiles), vec![2]);
    assert_eq!(tiles.ids[2], vec![0, 1, 2]);
}

#[test]
fn merging_keeps_every_mesh() {
    let nodes: Vec<OctreeNode> = (0..12).map(|i| leaf((i * i) as f64, vec![i])).collect();
    let refs: Vec<&OctreeNode> = nodes.iter().collect();
    let tris: Vec<u64> = (0..12).map(|i| 1000 + 4000 * ((i * 7) % 12)).collect();
    let total: u64 = tris.iter().sum();
    for limit in [1000, 20000, 60000, 1000000] {
        let tiles = plan_tiles(&refs, &tris, limit);
        let mut ids: Vec<usize> = Vec::new();
        let mut sum = 0;
        for i in living_tiles(&tiles) {
            ids.extend_from_slice(&tiles.ids[i]);
            sum += tiles.tris[i];
            assert!(tiles.tris[i] <= limit || tiles.ids[i].len() == 1);
        }
        ids.sort();
        assert_eq!(ids, (0..12).collect::<Vec<usize>>());
        assert_eq!(sum, total);
    }
}

#[test]
fn small_tiles_may_come_in_any_order() {
    let mut tiles = TileSet {
        centers: vec![point(0.0, 0.0, 0.0), point(1.0, 0.0, 0.0), point(3.0, 0.0, 0.0)],
        ids: vec![vec![2], vec![1], vec![0]],
        tris: vec![5, 40000, 7],
        dead: vec![false, false, false],
    };
    merge_small_tiles(&mut tiles, &vec![2, 0], 50000);
    assert_eq!(tiles.dead, vec![true, false, true]);
    assert_eq!(tiles.ids[1], vec![0, 1, 2]);
    assert_eq!(tiles.tris[1], 40012);
}
