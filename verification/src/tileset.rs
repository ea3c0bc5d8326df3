//! The documents that tell which tiles there are and where: of one layer of tiles, and
//! of levels of detail.

use crate::boxes;
use crate::boxes::Bounds;
use crate::float::{F32, F64};
use crate::json;
use crate::json::{Doc, Json};
use crate::lod;
use crate::octree::{Aabb, OctreeNode};
use crate::text;
use vstd::prelude::*;

verus! {

/// Pattern of eight, in 64 bits.
pub const EIGHT: u64 = 0x4020_0000_0000_0000;

/// What numbers in 32 bits say in a document.
pub open spec fn wide_docs(xs: Seq<F32>) -> Doc {
    json::float_docs(Seq::new(xs.len(), |i: int| xs[i].widen()))
}

/// The array of numbers in 32 bits.
fn wide_json(xs: &Vec<F32>) -> (r: Json)
    ensures
        r@ == wide_docs(xs@),
{
    let mut wide: Vec<F64> = Vec::new();
    let mut i: usize = 0;
    while i < xs.len()
        invariant
            i <= xs@.len(),
            wide@ == Seq::new(i as nat, |k: int| xs@[k].widen()),
        decreases xs@.len() - i,
    {
        wide.push(xs[i].widen());
        i = i + 1;
        proof {
            assert(wide@ =~= Seq::new(i as nat, |k: int| xs@[k].widen()));
        }
    }
    json::floats(&wide)
}

/// A bounding volume.
pub open spec fn volume_doc(box12: Seq<F32>) -> Doc {
    Doc::object().with("box"@, wide_docs(box12))
}

fn volume_json(box12: &Vec<F32>) -> (r: Json)
    ensures
        r@ == volume_doc(box12@),
{
    json::with(json::object(), "box", wide_json(box12))
}

/// What a tileset says of itself.
pub open spec fn asset_doc() -> Doc {
    Doc::object().with("generatetool"@, Doc::Str("RustFBX2Tiles"@)).with(
        "version"@,
        Doc::Str("1.0"@),
    )
}

fn asset_json() -> (r: Json)
    ensures
        r@ == asset_doc(),
{
    let o: Json = json::object();
    let o: Json = json::with(o, "generatetool", json::string("RustFBX2Tiles"));
    json::with(o, "version", json::string("1.0"))
}

/// The name of the file of the `i`-th tile of a single layer.
pub open spec fn single_file(i: nat) -> Seq<char> {
    "NoLod_"@ + text::decimal(i) + ".b3dm"@
}

/// The name of the file of the `i`-th tile of levels of detail, which is of depth
/// `depth`.
pub open spec fn level_file(depth: nat, i: nat) -> Seq<char> {
    "L"@ + text::decimal(depth) + "_"@ + text::decimal(i) + ".b3dm"@
}

/// The name of the file of the `i`-th tile, of depth `depth`: with no level below the
/// finest the tiles are of a single layer.
pub fn file_name(lod: u32, depth: u32, i: usize) -> (r: String)
    ensures
        r@ == if lod == 0 {
            single_file(i as nat)
        } else {
            level_file(depth as nat, i as nat)
        },
{
    if lod == 0 {
        text::numbered("NoLod_", i as u64, ".b3dm")
    } else {
        let mut r: String = text::numbered("L", depth as u64, "_");
        text::append_decimal(&mut r, i as u64);
        r.append(".b3dm");
        proof {
            assert(r@ =~= level_file(depth as nat, i as nat));
        }
        r
    }
}

/// The bounds of the `i`-th tile: those of its geometry, or where there are none those
/// of its cell.
pub open spec fn tile_bounds(cells: Seq<Aabb>, given: Seq<Option<Bounds>>, i: int) -> Bounds {
    if i < given.len() && given[i] is Some {
        given[i]->0
    } else {
        boxes::cell_bounds(cells[i])
    }
}

/// The bounds of the first `n` tiles together.
pub open spec fn joint_bounds(cells: Seq<Aabb>, given: Seq<Option<Bounds>>, n: nat) -> Bounds
    decreases n,
{
    if n == 0 {
        boxes::nothing()
    } else {
        boxes::united(
            joint_bounds(cells, given, (n - 1) as nat),
            tile_bounds(cells, given, n - 1),
        )
    }
}

/// The entry of the `i`-th tile of a single layer.
pub open spec fn single_doc(cells: Seq<Aabb>, given: Seq<Option<Bounds>>, i: int) -> Doc {
    Doc::object()
        .with(
            "boundingVolume"@,
            volume_doc(boxes::box12(boxes::widened(tile_bounds(cells, given, i)))),
        )
        .with("geometricError"@, Doc::Uint(0))
        .with("refine"@, Doc::Str("REPLACE"@))
        .with("content"@, Doc::object().with("uri"@, Doc::Str(single_file(i as nat))))
}

/// The entries of the tiles of a single layer.
pub open spec fn single_docs(cells: Seq<Aabb>, given: Seq<Option<Bounds>>) -> Seq<Doc> {
    Seq::new(cells.len(), |i: int| single_doc(cells, given, i))
}

/// The document of a single layer of tiles: they all stand under a root that holds
/// them.
pub open spec fn tileset_doc(cells: Seq<Aabb>, given: Seq<Option<Bounds>>) -> Doc {
    let all = joint_bounds(cells, given, cells.len());
    let extent = Doc::Float(boxes::extent(all).widen());
    Doc::object()
        .with("asset"@, asset_doc())
        .with("geometricError"@, extent)
        .with("refine"@, Doc::Str("REPLACE"@))
        .with(
            "root"@,
            Doc::object()
                .with("boundingVolume"@, volume_doc(boxes::box12(all)))
                .with("geometricError"@, extent)
                .with("refine"@, Doc::Str("REPLACE"@))
                .with("children"@, Doc::Arr(single_docs(cells, given))),
        )
}

/// The document of a single layer of tiles: `cells` are the octree cells of the tiles,
/// and `given` the bounds of their geometry as far as they are known.
pub fn build_tileset(cells: &Vec<Aabb>, given: &Vec<Option<Bounds>>) -> (r: Json)
    ensures
        r@ == tileset_doc(cells@, given@),
{
    let mut children: Vec<Json> = Vec::new();
    let mut all: Bounds = boxes::nothing();
    let mut i: usize = 0;
    while i < cells.len()
        invariant
            i <= cells@.len(),
            all == joint_bounds(cells@, given@, i as nat),
            children@.len() == i,
            forall|k: int|
                0 <= k < i ==> (#[trigger] children@[k])@ == single_doc(cells@, given@, k),
        decreases cells@.len() - i,
    {
        let b: Bounds = if i < given.len() {
            match &given[i] {
                Some(b) => *b,
                None => boxes::narrow_cell(&cells[i]),
            }
        } else {
            boxes::narrow_cell(&cells[i])
        };
        proof {
            assert(b == tile_bounds(cells@, given@, i as int));
        }
        all = boxes::unite(&all, &b);
        let box12: Vec<F32> = boxes::aabb_minmax_to_box12_padded(b);
        let uri: String = text::numbered("NoLod_", i as u64, ".b3dm");
        let o: Json = json::object();
        let o: Json = json::with(o, "boundingVolume", volume_json(&box12));
        let o: Json = json::with(o, "geometricError", Json::Uint(0));
        let o: Json = json::with(o, "refine", json::string("REPLACE"));
        let o: Json = json::with(o, "content", json::with(json::object(), "uri", Json::Str(uri)));
        children.push(o);
        i = i + 1;
    }
    proof {
        assert(json::docs(children@) =~= single_docs(cells@, given@));
    }
    let root_box: Vec<F32> = boxes::aabb_minmax_to_box12(all);
    let extent: F64 = boxes::extent(all).widen();
    let root: Json = json::object();
    let root: Json = json::with(root, "boundingVolume", volume_json(&root_box));
    let root: Json = json::with(root, "geometricError", Json::Float(extent));
    let root: Json = json::with(root, "refine", json::string("REPLACE"));
    let root: Json = json::with(root, "children", json::array(children));
    let o: Json = json::object();
    let o: Json = json::with(o, "asset", asset_json());
    let o: Json = json::with(o, "geometricError", Json::Float(extent));
    let o: Json = json::with(o, "refine", json::string("REPLACE"));
    json::with(o, "root", root)
}

/// The bounds and the file of a node's own tile, by the number of the node.
pub struct NodeTiles {
    pub bounds: Vec<Option<Bounds>>,
    pub files: Vec<Option<String>>,
}

impl NodeTiles {
    /// The bounds of the tile of node `number`.
    pub open spec fn bounds_of(self, number: int) -> Option<Bounds> {
        if number < self.bounds@.len() {
            self.bounds@[number]
        } else {
            None
        }
    }

    /// The file of the tile of node `number`.
    pub open spec fn file_of(self, number: int) -> Option<Seq<char>> {
        if number < self.files@.len() {
            match self.files@[number] {
                Some(s) => Some(s@),
                None => None,
            }
        } else {
            None
        }
    }
}

/// What a subtree adds to the tileset.
pub struct Branch {
    /// The entry of its root and the bounds of all its tiles, where it has an entry.
    pub entry: Option<(Doc, Bounds)>,
    /// The bounds of all tiles so far.
    pub reach: Bounds,
}

/// The entries of the children so far, the bounds of their tiles, and the bounds of all
/// tiles so far.
pub struct Branches {
    pub entries: Seq<Doc>,
    pub bounds: Bounds,
    pub reach: Bounds,
}

/// The geometric error of a node: none for a leaf, otherwise an eighth of its extent.
pub open spec fn spec_node_error(node: &OctreeNode) -> F64 {
    if node.is_leaf() {
        F64 { bits: 0 }
    } else {
        node.bounds.max_extent().over(F64 { bits: EIGHT })
    }
}

/// The geometric error of a node: none for a leaf, otherwise an eighth of its extent.
#[verifier::when_used_as_spec(spec_node_error)]
pub fn node_error(node: &OctreeNode) -> (r: F64)
    ensures
        r == spec_node_error(node),
{
    if node.is_leaf() {
        F64 { bits: 0 }
    } else {
        node.bounds.max_extent().over(F64 { bits: EIGHT })
    }
}

/// The bounds of a node: those of its own tile grown to hold those of its children.
pub open spec fn node_bounds(own: Option<Bounds>, children: Branches) -> Option<Bounds> {
    match own {
        Some(b) => Some(
            if children.entries.len() > 0 {
                boxes::united(b, children.bounds)
            } else {
                b
            },
        ),
        None => if children.entries.len() > 0 {
            Some(children.bounds)
        } else {
            None
        },
    }
}

/// The entry of a node.
pub open spec fn node_doc(
    node: &OctreeNode,
    bounds: Bounds,
    file: Option<Seq<char>>,
    children: Seq<Doc>,
) -> Doc {
    let plain = Doc::object()
        .with("boundingVolume"@, volume_doc(boxes::box12(boxes::widened(bounds))))
        .with("geometricError"@, Doc::Float(node_error(node)))
        .with("refine"@, Doc::Str("REPLACE"@));
    let filled = match file {
        Some(f) => plain.with("content"@, Doc::object().with("uri"@, Doc::Str(f))),
        None => plain,
    };
    if children.len() > 0 {
        filled.with("children"@, Doc::Arr(children))
    } else {
        filled
    }
}

/// What the subtree of `node`, which has the number `number`, adds to the tileset. A
/// node without bounds, or with neither a tile nor a child's entry, has no entry.
pub open spec fn branch(
    node: &OctreeNode,
    number: int,
    tiles: NodeTiles,
    reach: Bounds,
) -> Branch
    decreases node, node.children@.len() + 1,
{
    let below = branches(node, number, tiles, reach, node.children@.len());
    match node_bounds(tiles.bounds_of(number), below) {
        None => Branch { entry: None, reach: below.reach },
        Some(b) => Branch {
            entry: if below.entries.len() == 0 && tiles.file_of(number) is None {
                None
            } else {
                Some((node_doc(node, b, tiles.file_of(number), below.entries), b))
            },
            reach: boxes::united(below.reach, b),
        },
    }
}

/// What the subtrees of the first `n` children add to the tileset.
pub open spec fn branches(
    node: &OctreeNode,
    number: int,
    tiles: NodeTiles,
    reach: Bounds,
    n: nat,
) -> Branches
    decreases node, n,
{
    if n == 0 || n > node.children@.len() {
        Branches { entries: Seq::empty(), bounds: boxes::nothing(), reach }
    } else {
        let before = branches(node, number, tiles, reach, (n - 1) as nat);
        let next = branch(
            &*node.children@[n - 1],
            number + 1 + node.nodes_below((n - 1) as nat).len(),
            tiles,
            before.reach,
        );
        match next.entry {
            None => Branches { reach: next.reach, ..before },
            Some((doc, b)) => Branches {
                entries: before.entries.push(doc),
                bounds: boxes::united(before.bounds, b),
                reach: next.reach,
            },
        }
    }
}

/// The document of levels of detail, where the root has an entry.
pub open spec fn levels_doc(root: &OctreeNode, tiles: NodeTiles) -> Option<Doc> {
    let b = branch(root, 0, tiles, boxes::nothing());
    match b.entry {
        None => None,
        Some((doc, _)) => Some(
            Doc::object()
                .with("asset"@, asset_doc())
                .with("geometricError"@, Doc::Float(boxes::extent(b.reach).widen()))
                .with("refine"@, Doc::Str("REPLACE"@))
                .with("root"@, doc),
        ),
    }
}

/// Adds the subtree of `node` to the tileset; `reach` are the bounds of all tiles so
/// far.
fn add_branch(node: &OctreeNode, number: usize, tiles: &NodeTiles, reach: &mut Bounds) -> (r: Option<
    (Json, Bounds),
>)
    requires
        number + node.nodes().len() <= usize::MAX,
    ensures
        *final(reach) == branch(node, number as int, *tiles, *old(reach)).reach,
        match r {
            None => branch(node, number as int, *tiles, *old(reach)).entry is None,
            Some(e) => branch(node, number as int, *tiles, *old(reach)).entry == Some((e.0@, e.1)),
        },
    decreases node,
{
    let ghost start = *reach;
    let mut children: Vec<Json> = Vec::new();
    let mut bounds: Bounds = boxes::nothing();
    let mut next: usize = number + 1;
    let mut i: usize = 0;
    proof {
        assert(json::docs(children@) =~= Seq::empty());
    }
    while i < node.children.len()
        invariant
            i <= node.children@.len(),
            number + node.nodes().len() <= usize::MAX,
            next == number + 1 + node.nodes_below(i as nat).len(),
            json::docs(children@) == branches(node, number as int, *tiles, start, i as nat).entries,
            bounds == branches(node, number as int, *tiles, start, i as nat).bounds,
            *reach == branches(node, number as int, *tiles, start, i as nat).reach,
        decreases node.children@.len() - i,
    {
        proof {
            node.lemma_below_grows((i + 1) as nat, node.children@.len());
        }
        let ghost before = json::docs(children@);
        match add_branch(&node.children[i], next, tiles, reach) {
            Some((child, b)) => {
                bounds = boxes::unite(&bounds, &b);
                children.push(child);
                proof {
                    assert(json::docs(children@) =~= before.push(child@));
                }
            },
            None => {},
        }
        next = next + lod::node_count(&node.children[i]);
        i = i + 1;
    }
    let ghost below = branches(node, number as int, *tiles, start, node.children@.len());
    let own: Option<Bounds> = if number < tiles.bounds.len() {
        tiles.bounds[number]
    } else {
        None
    };
    proof {
        assert(own == tiles.bounds_of(number as int));
        assert(below.entries.len() == children@.len());
    }
    let b: Bounds = match own {
        Some(g) => if children.len() > 0 {
            boxes::unite(&g, &bounds)
        } else {
            g
        },
        None => if children.len() > 0 {
            bounds
        } else {
            return None;
        },
    };
    *reach = boxes::unite(reach, &b);
    let file: Option<&String> = if number < tiles.files.len() {
        tiles.files[number].as_ref()
    } else {
        None
    };
    if children.len() == 0 && file.is_none() {
        return None;
    }
    let box12: Vec<F32> = boxes::aabb_minmax_to_box12_padded(b);
    let o: Json = json::object();
    let o: Json = json::with(o, "boundingVolume", volume_json(&box12));
    let o: Json = json::with(o, "geometricError", Json::Float(node_error(node)));
    let o: Json = json::with(o, "refine", json::string("REPLACE"));
    let o: Json = match file {
        Some(f) => json::with(
            o,
            "content",
            json::with(json::object(), "uri", Json::Str(f.clone())),
        ),
        None => o,
    };
    let o: Json = if children.len() > 0 {
        json::with(o, "children", json::array(children))
    } else {
        o
    };
    Some((o, b))
}

/// The document of levels of detail: each node of the octree with a tile, or with one
/// below it, has an entry within that of its parent. `None` where the root has none.
pub fn build_tileset_hierarchical(root: &OctreeNode, tiles: &NodeTiles) -> (r: Option<Json>)
    requires
        root.nodes().len() <= usize::MAX,
    ensures
        match r {
            None => levels_doc(root, *tiles) is None,
            Some(j) => levels_doc(root, *tiles) == Some(j@),
        },
{
    let mut reach: Bounds = boxes::nothing();
    match add_branch(root, 0, tiles, &mut reach) {
        None => None,
        Some((doc, _)) => {
            let o: Json = json::object();
            let o: Json = json::with(o, "asset", asset_json());
            let o: Json = json::with(
                o,
                "geometricError",
                Json::Float(boxes::extent(reach).widen()),
            );
            let o: Json = json::with(o, "refine", json::string("REPLACE"));
            Some(json::with(o, "root", doc))
        },
    }
}

/// Where a model stands and how it is turned, in degrees.
pub struct Location {
    pub longitude: F64,
    pub latitude: F64,
    pub heading: F64,
    pub pitch: F64,
    pub roll: F64,
}

/// What a document says of a location.
pub open spec fn location_doc(l: Location) -> Doc {
    Doc::object()
        .with("longitude"@, Doc::Float(l.longitude))
        .with("latitude"@, Doc::Float(l.latitude))
        .with("heading"@, Doc::Float(l.heading))
        .with("pitch"@, Doc::Float(l.pitch))
        .with("roll"@, Doc::Float(l.roll))
}

fn location_json(l: &Location) -> (r: Json)
    ensures
        r@ == location_doc(*l),
{
    let o: Json = json::object();
    let o: Json = json::with(o, "longitude", Json::Float(l.longitude));
    let o: Json = json::with(o, "latitude", Json::Float(l.latitude));
    let o: Json = json::with(o, "heading", Json::Float(l.heading));
    let o: Json = json::with(o, "pitch", Json::Float(l.pitch));
    json::with(o, "roll", Json::Float(l.roll))
}

/// The number of entries up to the last one with the key `key`; zero where there is
/// none.
pub open spec fn last_entry(entries: Seq<(Seq<char>, Doc)>, key: Seq<char>) -> nat
    decreases entries.len(),
{
    if entries.len() == 0 || entries.last().0 == key {
        entries.len()
    } else {
        last_entry(entries.drop_last(), key)
    }
}

/// The entry `asset` with a location: added to it where it is an object, and
/// otherwise in its place.
pub open spec fn located_asset(asset: Doc, l: Location) -> Doc {
    if asset is Obj {
        asset.with("location"@, location_doc(l))
    } else {
        Doc::object().with("location"@, location_doc(l))
    }
}

/// The tileset with a location in its entry `asset`, which is added where there is
/// none.
pub open spec fn located(tileset: Doc, l: Location) -> Doc {
    let entries = tileset->Obj_0;
    let at = last_entry(entries, "asset"@);
    if at == 0 {
        tileset.with("asset"@, located_asset(Doc::Null, l))
    } else {
        Doc::Obj(entries.update(at - 1, ("asset"@, located_asset(entries[at - 1].1, l))))
    }
}

proof fn lemma_last_entry(entries: Seq<(Seq<char>, Doc)>, key: Seq<char>, n: int)
    requires
        0 <= n <= entries.len(),
        forall|i: int| n <= i < entries.len() ==> (#[trigger] entries[i]).0 != key,
        n > 0 ==> entries[n - 1].0 == key,
    ensures
        last_entry(entries, key) == n,
    decreases entries.len(),
{
    if entries.len() > 0 && n < entries.len() {
        assert(entries[entries.len() - 1].0 != key);
        lemma_last_entry(entries.drop_last(), key, n);
    }
}

/// The tileset with a location in its entry `asset`.
pub fn with_location(tileset: Json, l: &Location) -> (r: Json)
    requires
        tileset@ is Obj,
    ensures
        r@ == located(tileset@, *l),
{
    let ghost whole = tileset@;
    match tileset {
        Json::Obj(entries) => {
            let mut entries: Vec<(String, Json)> = entries;
            let ghost docs = whole->Obj_0;
            let key: String = "asset".to_owned();
            let mut n: usize = entries.len();
            proof {
                assert(docs.len() == entries@.len());
                assert forall|i: int| 0 <= i < docs.len() implies #[trigger] docs[i] == (
                    entries@[i].0@,
                    entries@[i].1@,
                ) by {}
            }
            while n > 0 && entries[n - 1].0 != key
                invariant
                    n <= entries@.len(),
                    docs.len() == entries@.len(),
                    key@ == "asset"@,
                    forall|i: int|
                        0 <= i < docs.len() ==> #[trigger] docs[i] == (entries@[i].0@, entries@[i].1@),
                    forall|i: int| n <= i < docs.len() ==> (#[trigger] docs[i]).0 != "asset"@,
                ensures
                    n <= entries@.len(),
                    forall|i: int| n <= i < docs.len() ==> (#[trigger] docs[i]).0 != "asset"@,
                    n > 0 ==> docs[n - 1].0 == "asset"@,
                decreases n,
            {
                proof {
                    assert(docs[n - 1] == (entries@[n - 1].0@, entries@[n - 1].1@));
                }
                n = n - 1;
            }
            proof {
                lemma_last_entry(docs, "asset"@, n as int);
            }
            let location: Json = location_json(l);
            if n == 0 {
                let asset: Json = json::with(json::object(), "location", location);
                json::with(Json::Obj(entries), "asset", asset)
            } else {
                let (_, old_asset): (String, Json) = entries.remove(n - 1);
                proof {
                    assert(docs[n - 1].1 == old_asset@);
                }
                let asset: Json = match old_asset {
                    Json::Obj(inner) => json::with(Json::Obj(inner), "location", location),
                    _ => json::with(json::object(), "location", location),
                };
                entries.insert(n - 1, (key, asset));
                let r: Json = Json::Obj(entries);
                proof {
                    assert(r@->Obj_0 =~= located(whole, *l)->Obj_0);
                }
                r
            }
        },
        other => other,
    }
}

/// Whether all given bounds are numbers.
pub open spec fn tile_numbers(tiles: NodeTiles) -> bool {
    forall|n: int|
        0 <= n < tiles.bounds@.len() && (#[trigger] tiles.bounds@[n]) is Some ==> boxes::numbers(
            tiles.bounds@[n]->0,
        )
}

/// The bounds of the subtrees are numbers where those of the tiles are.
proof fn lemma_branch_numbers(node: &OctreeNode, number: int, tiles: NodeTiles, reach: Bounds)
    requires
        number >= 0,
        tile_numbers(tiles),
    ensures
        branch(node, number, tiles, reach).entry matches Some(e) ==> boxes::numbers(e.1),
    decreases node, node.children@.len() + 1,
{
    let n = node.children@.len();
    lemma_branches_numbers(node, number, tiles, reach, n);
    let below = branches(node, number, tiles, reach, n);
    let own = tiles.bounds_of(number);
    if own is Some {
        assert(tiles.bounds@[number] is Some);
        boxes::law_united_covers(own->0, below.bounds);
    }
}

proof fn lemma_branches_numbers(
    node: &OctreeNode,
    number: int,
    tiles: NodeTiles,
    reach: Bounds,
    n: nat,
)
    requires
        number >= 0,
        tile_numbers(tiles),
        n <= node.children@.len(),
    ensures
        boxes::numbers(branches(node, number, tiles, reach, n).bounds),
    decreases node, n,
{
    if n > 0 {
        let before = branches(node, number, tiles, reach, (n - 1) as nat);
        lemma_branches_numbers(node, number, tiles, reach, (n - 1) as nat);
        let at = number + 1 + node.nodes_below((n - 1) as nat).len();
        lemma_branch_numbers(&*node.children@[n - 1], at, tiles, before.reach);
        let next = branch(&*node.children@[n - 1], at, tiles, before.reach);
        if next.entry is Some {
            boxes::law_united_covers(before.bounds, (next.entry->0).1);
        }
    }
}

/// What child `i` of a node adds to the tileset.
pub open spec fn child_branch(
    node: &OctreeNode,
    number: int,
    tiles: NodeTiles,
    reach: Bounds,
    i: nat,
) -> Branch {
    branch(
        &*node.children@[i as int],
        number + 1 + node.nodes_below(i).len(),
        tiles,
        branches(node, number, tiles, reach, i).reach,
    )
}

proof fn lemma_child_covered(
    node: &OctreeNode,
    number: int,
    tiles: NodeTiles,
    reach: Bounds,
    i: nat,
    n: nat,
)
    requires
        number >= 0,
        tile_numbers(tiles),
        i < n <= node.children@.len(),
        child_branch(node, number, tiles, reach, i).entry is Some,
    ensures
        branches(node, number, tiles, reach, n).entries.len() > 0,
        boxes::covers(
            branches(node, number, tiles, reach, n).bounds,
            (child_branch(node, number, tiles, reach, i).entry->0).1,
        ),
    decreases n,
{
    let before = branches(node, number, tiles, reach, (n - 1) as nat);
    lemma_branches_numbers(node, number, tiles, reach, (n - 1) as nat);
    let next = child_branch(node, number, tiles, reach, (n - 1) as nat);
    lemma_branch_numbers(
        &*node.children@[n - 1],
        number + 1 + node.nodes_below((n - 1) as nat).len(),
        tiles,
        before.reach,
    );
    if next.entry is Some {
        boxes::law_united_covers(before.bounds, (next.entry->0).1);
    }
    if i < n - 1 {
        lemma_child_covered(node, number, tiles, reach, i, (n - 1) as nat);
        if next.entry is Some {
            boxes::law_covers_transitive(
                branches(node, number, tiles, reach, n).bounds,
                before.bounds,
                (child_branch(node, number, tiles, reach, i).entry->0).1,
            );
        }
    }
}

/// The bounds of a node reach at least as far as those of each of its children that
/// has an entry, and as those of its own tile: a node that is out of sight has nothing
/// below it in sight.
pub proof fn law_parent_covers_child(
    node: &OctreeNode,
    number: int,
    tiles: NodeTiles,
    reach: Bounds,
    i: nat,
)
    requires
        number >= 0,
        tile_numbers(tiles),
        i < node.children@.len(),
        child_branch(node, number, tiles, reach, i).entry is Some,
    ensures
        branch(node, number, tiles, reach).entry is Some,
        boxes::covers(
            (branch(node, number, tiles, reach).entry->0).1,
            (child_branch(node, number, tiles, reach, i).entry->0).1,
        ),
        tiles.bounds_of(number) matches Some(own) ==> boxes::covers(
            (branch(node, number, tiles, reach).entry->0).1,
            own,
        ),
{
    let n = node.children@.len();
    lemma_child_covered(node, number, tiles, reach, i, n);
    lemma_branches_numbers(node, number, tiles, reach, n);
    let below = branches(node, number, tiles, reach, n);
    let own = tiles.bounds_of(number);
    if own is Some {
        assert(tiles.bounds@[number] is Some);
        boxes::law_united_covers(own->0, below.bounds);
        boxes::law_covers_transitive(
            (branch(node, number, tiles, reach).entry->0).1,
            below.bounds,
            (child_branch(node, number, tiles, reach, i).entry->0).1,
        );
    }
}

/// The root of a single layer reaches at least as far as each of its tiles.
pub proof fn law_root_covers_tiles(
    cells: Seq<Aabb>,
    given: Seq<Option<Bounds>>,
    i: int,
    n: nat,
)
    requires
        0 <= i < n <= cells.len(),
        forall|k: int| 0 <= k < n ==> boxes::numbers(#[trigger] tile_bounds(cells, given, k)),
    ensures
        boxes::numbers(joint_bounds(cells, given, n)),
        boxes::covers(joint_bounds(cells, given, n), tile_bounds(cells, given, i)),
    decreases n,
{
    let last = tile_bounds(cells, given, n - 1);
    let before = joint_bounds(cells, given, (n - 1) as nat);
    if n > 1 {
        law_root_covers_tiles(
            cells,
            given,
            if i < n - 1 {
                i
            } else {
                0
            },
            (n - 1) as nat,
        );
    } else {
        assert(joint_bounds(cells, given, 0) == boxes::nothing());
    }
    boxes::law_united_covers(before, last);
    if i < n - 1 {
        boxes::law_covers_transitive(
            joint_bounds(cells, given, n),
            before,
            tile_bounds(cells, given, i),
        );
    }
}

proof fn lemma_last_found(entries: Seq<(Seq<char>, Doc)>, key: Seq<char>)
    ensures
        last_entry(entries, key) <= entries.len(),
        last_entry(entries, key) > 0 ==> entries[last_entry(entries, key) - 1].0 == key,
        forall|i: int|
            last_entry(entries, key) <= i < entries.len() ==> (#[trigger] entries[i]).0 != key,
    decreases entries.len(),
{
    if entries.len() > 0 && entries.last().0 != key {
        let rest = entries.drop_last();
        lemma_last_found(rest, key);
        assert forall|i: int| last_entry(entries, key) <= i < entries.len() implies (
        #[trigger] entries[i]).0 != key by {
            if i < rest.len() {
                assert(rest[i] == entries[i]);
            }
        }
    }
}

/// A location that was put into a tileset is found in its entry `asset`; all other
/// entries are as they were.
pub proof fn law_location_found(tileset: Doc, l: Location)
    requires
        tileset is Obj,
    ensures
        ({
            let before = tileset->Obj_0;
            let after = located(tileset, l)->Obj_0;
            let at = last_entry(after, "asset"@);
            &&& 0 < at <= after.len()
            &&& after[at - 1].1 is Obj
            &&& after[at - 1].1->Obj_0.last() == ("location"@, location_doc(l))
            &&& forall|i: int| 0 <= i < before.len() && i != at - 1 ==> #[trigger] after[i] == before[i]
            &&& after.len() <= before.len() + 1
        }),
{
    let before = tileset->Obj_0;
    let after = located(tileset, l)->Obj_0;
    lemma_last_found(before, "asset"@);
    let at = last_entry(before, "asset"@);
    if at == 0 {
        lemma_last_entry(after, "asset"@, after.len() as int);
    } else {
        lemma_last_entry(after, "asset"@, at as int);
    }
}

/// Whether the node with the number `number` has a tile: bounds and a file.
pub open spec fn has_tile(tiles: NodeTiles, number: int) -> bool {
    tiles.bounds_of(number) is Some && tiles.file_of(number) is Some
}

/// Whether the subtree of `node`, which has the number `number`, has a tile.
pub open spec fn live(node: &OctreeNode, number: int, tiles: NodeTiles) -> bool {
    exists|k: int| 0 <= k < node.nodes().len() && #[trigger] has_tile(tiles, number + k)
}

/// Whether the subtrees of the first `n` children have a tile.
pub open spec fn live_below(node: &OctreeNode, number: int, tiles: NodeTiles, n: nat) -> bool {
    exists|k: int|
        0 <= k < node.nodes_below(n).len() && #[trigger] has_tile(tiles, number + 1 + k)
}

/// Exactly the nodes with a tile in their subtree have an entry. It names a file where the
/// node has one, and has children where one of their subtrees has a tile.
pub proof fn law_entries_where_live(
    node: &OctreeNode,
    number: int,
    tiles: NodeTiles,
    reach: Bounds,
)
    ensures
        ({
            let b = branch(node, number, tiles, reach);
            let below = branches(node, number, tiles, reach, node.children@.len());
            &&& b.entry is Some <==> live(node, number, tiles)
            &&& b.entry matches Some(e) ==> e.0 == node_doc(
                node,
                e.1,
                tiles.file_of(number),
                below.entries,
            )
            &&& below.entries.len() > 0 <==> live_below(
                node,
                number,
                tiles,
                node.children@.len(),
            )
        }),
    decreases node, node.children@.len() + 1,
{
    let n = node.children@.len();
    lemma_entries_below(node, number, tiles, reach, n);
    assert(node.nodes() =~= seq![*node] + node.nodes_below(n));
    if live(node, number, tiles) {
        let k = choose|k: int| 0 <= k < node.nodes().len() && #[trigger] has_tile(tiles, number + k);
        if k > 0 {
            assert(has_tile(tiles, number + 1 + (k - 1)));
        }
    }
    if live_below(node, number, tiles, n) {
        let k = choose|k: int|
            0 <= k < node.nodes_below(n).len() && #[trigger] has_tile(tiles, number + 1 + k);
        assert(has_tile(tiles, number + (k + 1)));
    }
    if has_tile(tiles, number) {
        assert(has_tile(tiles, number + 0));
    }
}

proof fn lemma_entries_below(
    node: &OctreeNode,
    number: int,
    tiles: NodeTiles,
    reach: Bounds,
    n: nat,
)
    requires
        n <= node.children@.len(),
    ensures
        branches(node, number, tiles, reach, n).entries.len() > 0 <==> live_below(
            node,
            number,
            tiles,
            n,
        ),
    decreases node, n,
{
    if n > 0 {
        let m = (n - 1) as nat;
        let child = &*node.children@[n - 1];
        let before = branches(node, number, tiles, reach, m);
        let len = node.nodes_below(m).len();
        let at = number + 1 + len;
        lemma_entries_below(node, number, tiles, reach, m);
        law_entries_where_live(child, at, tiles, before.reach);
        if live_below(node, number, tiles, n) {
            let k = choose|k: int|
                0 <= k < node.nodes_below(n).len() && #[trigger] has_tile(tiles, number + 1 + k);
            if k >= len {
                assert(has_tile(tiles, at + (k - len)));
            }
        }
        if live_below(node, number, tiles, m) {
            let k = choose|k: int| 0 <= k < len && #[trigger] has_tile(tiles, number + 1 + k);
            assert(has_tile(tiles, number + 1 + k));
        }
        if live(child, at, tiles) {
            let k = choose|k: int| 0 <= k < child.nodes().len() && #[trigger] has_tile(tiles, at + k);
            assert(has_tile(tiles, number + 1 + (len + k)));
        }
    }
}

/// Which of the first `n` children have a tile in their subtree, in order.
pub open spec fn live_children(
    node: &OctreeNode,
    number: int,
    tiles: NodeTiles,
    n: nat,
) -> Seq<nat>
    decreases n,
{
    if n == 0 {
        Seq::empty()
    } else {
        let before = live_children(node, number, tiles, (n - 1) as nat);
        let at = number + 1 + node.nodes_below((n - 1) as nat).len();
        if live(&*node.children@[n - 1], at, tiles) {
            before.push((n - 1) as nat)
        } else {
            before
        }
    }
}

/// The entries below a node are those of the children with a tile in their subtree, each
/// once and in their order.
pub proof fn law_entries_in_order(
    node: &OctreeNode,
    number: int,
    tiles: NodeTiles,
    reach: Bounds,
    n: nat,
)
    requires
        n <= node.children@.len(),
    ensures
        ({
            let entries = branches(node, number, tiles, reach, n).entries;
            let children = live_children(node, number, tiles, n);
            &&& entries.len() == children.len()
            &&& forall|j: int|
                0 <= j < children.len() ==> {
                    let e = child_branch(node, number, tiles, reach, #[trigger] children[j]).entry;
                    children[j] < n && e is Some && entries[j] == (e->0).0
                }
            &&& forall|j: int, k: int|
                0 <= j < k < children.len() ==> #[trigger] children[j] < #[trigger] children[k]
        }),
    decreases n,
{
    if n > 0 {
        let m = (n - 1) as nat;
        law_entries_in_order(node, number, tiles, reach, m);
        law_entries_where_live(
            &*node.children@[n - 1],
            number + 1 + node.nodes_below(m).len(),
            tiles,
            branches(node, number, tiles, reach, m).reach,
        );
    }
}

/// There is no document of levels of detail exactly where no node has a tile.
pub proof fn law_document_where_live(root: &OctreeNode, tiles: NodeTiles)
    ensures
        levels_doc(root, tiles) is Some <==> live(root, 0, tiles),
{
    law_entries_where_live(root, 0, tiles, boxes::nothing());
}

} // verus!
