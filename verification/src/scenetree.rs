//! The tree of the components of a model, each with a sphere around it on the earth.

use crate::b3dm;
use crate::float::{F64, INF64, NEG_INF64, ONE64, TWO64};
use crate::json;
use crate::json::{Doc, Json};
use crate::octree::Aabb;
use crate::text;
use vstd::prelude::*;

verus! {

/// Pattern of the semi-major axis of the WGS 84 ellipsoid, 6378137.
pub const SEMI_MAJOR: u64 = 0x4158_54a6_4000_0000;

/// Pattern of the square of its first eccentricity, 0.00669437999014.
pub const ECCENTRICITY: u64 = 0x3f7b_6b90_f1fe_8f02;

/// Pattern of the least radius of a sphere, 0.01.
pub const LEAST_RADIUS: u64 = 0x3f84_7ae1_47ae_147b;

/// The sine and the cosine of an angle.
#[derive(Clone, Copy, Debug)]
pub struct Angle {
    pub sin: F64,
    pub cos: F64,
}

/// Where a model stands and which way it faces.
#[derive(Clone, Copy, Debug)]
pub struct Stand {
    pub longitude: Angle,
    pub latitude: Angle,
    pub heading: Angle,
}

/// The radius of curvature of the ellipsoid across the meridian.
pub open spec fn curvature(lat: Angle) -> F64 {
    F64 { bits: SEMI_MAJOR }.over(
        F64 { bits: ONE64 }.minus(F64 { bits: ECCENTRICITY }.times(lat.sin).times(lat.sin)).root(),
    )
}

/// The point of height `h` over the ellipsoid, in coordinates fixed to the earth.
pub open spec fn spec_ecef(lon: Angle, lat: Angle, h: F64) -> [F64; 3] {
    let n = curvature(lat);
    [
        n.plus(h).times(lat.cos).times(lon.cos),
        n.plus(h).times(lat.cos).times(lon.sin),
        n.times(F64 { bits: ONE64 }.minus(F64 { bits: ECCENTRICITY })).plus(h).times(lat.sin),
    ]
}

/// The point of height `h` over the ellipsoid, in coordinates fixed to the earth.
pub fn wgs84_ecef(lon: Angle, lat: Angle, h: F64) -> (r: [F64; 3])
    ensures
        r == spec_ecef(lon, lat, h),
{
    let e2 = F64 { bits: ECCENTRICITY };
    let one = F64 { bits: ONE64 };
    let n: F64 = F64 { bits: SEMI_MAJOR }.over(
        one.minus(e2.times(lat.sin).times(lat.sin)).root(),
    );
    let r: [F64; 3] = [
        n.plus(h).times(lat.cos).times(lon.cos),
        n.plus(h).times(lat.cos).times(lon.sin),
        n.times(one.minus(e2)).plus(h).times(lat.sin),
    ];
    proof {
        assert(r =~= spec_ecef(lon, lat, h));
    }
    r
}

/// An offset to the east, the north and upwards, in coordinates fixed to the earth.
pub open spec fn spec_offset(lon: Angle, lat: Angle, e: F64, n: F64, u: F64) -> [F64; 3] {
    [
        e.times(lon.sin.negate()).plus(n.times(lat.sin.negate()).times(lon.cos)).plus(
            u.times(lat.cos).times(lon.cos),
        ),
        e.times(lon.cos).plus(n.times(lat.sin.negate()).times(lon.sin)).plus(
            u.times(lat.cos).times(lon.sin),
        ),
        n.times(lat.cos).plus(u.times(lat.sin)),
    ]
}

/// An offset to the east, the north and upwards, in coordinates fixed to the earth.
pub fn enu_offset_to_ecef(lon: Angle, lat: Angle, e: F64, n: F64, u: F64) -> (r: [F64; 3])
    ensures
        r == spec_offset(lon, lat, e, n, u),
{
    let r: [F64; 3] = [
        e.times(lon.sin.negate()).plus(n.times(lat.sin.negate()).times(lon.cos)).plus(
            u.times(lat.cos).times(lon.cos),
        ),
        e.times(lon.cos).plus(n.times(lat.sin.negate()).times(lon.sin)).plus(
            u.times(lat.cos).times(lon.sin),
        ),
        n.times(lat.cos).plus(u.times(lat.sin)),
    ];
    proof {
        assert(r =~= spec_offset(lon, lat, e, n, u));
    }
    r
}

/// A mesh of the scene.
#[derive(Debug)]
pub struct SceneMesh {
    /// The name of its component.
    pub name: String,
    /// Its vertices in the coordinates of the scene.
    pub positions: Vec<[F64; 3]>,
}

/// How the scene becomes the model: scaled, and then moved.
#[derive(Clone, Copy, Debug)]
pub struct Frame {
    pub scale: F64,
    pub off: [F64; 3],
}

/// The point `p` of the scene in the model.
pub open spec fn framed(p: [F64; 3], f: Frame) -> [F64; 3] {
    [
        p[0].times(f.scale).minus(f.off[0]),
        p[1].times(f.scale).minus(f.off[1]),
        p[2].times(f.scale).minus(f.off[2]),
    ]
}

/// The point `p` of the scene in the model.
pub fn frame_point(p: [F64; 3], f: &Frame) -> (r: [F64; 3])
    ensures
        r == framed(p, *f),
{
    let r: [F64; 3] = [
        p[0].times(f.scale).minus(f.off[0]),
        p[1].times(f.scale).minus(f.off[1]),
        p[2].times(f.scale).minus(f.off[2]),
    ];
    proof {
        assert(r =~= framed(p, *f));
    }
    r
}

/// The box that holds nothing.
pub open spec fn empty_box() -> Aabb {
    let lo = F64 { bits: INF64 };
    let hi = F64 { bits: NEG_INF64 };
    Aabb { min: [lo, lo, lo], max: [hi, hi, hi] }
}

fn no_box() -> (r: Aabb)
    ensures
        r == empty_box(),
{
    let r: Aabb = Aabb::empty();
    proof {
        assert(r.min =~= empty_box().min);
        assert(r.max =~= empty_box().max);
    }
    r
}

/// The box `a` grown to reach down to `lo` and up to `hi`.
pub open spec fn reaching(a: Aabb, lo: [F64; 3], hi: [F64; 3]) -> Aabb {
    Aabb {
        min: [a.min[0].min(lo[0]), a.min[1].min(lo[1]), a.min[2].min(lo[2])],
        max: [a.max[0].max(hi[0]), a.max[1].max(hi[1]), a.max[2].max(hi[2])],
    }
}

fn reach(a: &Aabb, lo: &[F64; 3], hi: &[F64; 3]) -> (r: Aabb)
    ensures
        r == reaching(*a, *lo, *hi),
{
    let r = Aabb {
        min: [a.min[0].min(lo[0]), a.min[1].min(lo[1]), a.min[2].min(lo[2])],
        max: [a.max[0].max(hi[0]), a.max[1].max(hi[1]), a.max[2].max(hi[2])],
    };
    proof {
        assert(r.min =~= reaching(*a, *lo, *hi).min);
        assert(r.max =~= reaching(*a, *lo, *hi).max);
    }
    r
}

/// The box around the first `n` of the points, in the model.
pub open spec fn spread(points: Seq<[F64; 3]>, f: Frame, n: nat) -> Aabb
    decreases n,
{
    if n == 0 {
        empty_box()
    } else {
        let p = framed(points[n - 1], f);
        reaching(spread(points, f, (n - 1) as nat), p, p)
    }
}

/// The midpoint of a box along axis `k`.
pub open spec fn mid(a: Aabb, k: int) -> F64 {
    a.min[k].plus(a.max[k]).over(F64 { bits: TWO64 })
}

/// The square of the extent of a box along axis `k`.
pub open spec fn squared(a: Aabb, k: int) -> F64 {
    a.max[k].minus(a.min[k]).times(a.max[k].minus(a.min[k]))
}

/// Half the diagonal of a box.
pub open spec fn radius(a: Aabb) -> F64 {
    squared(a, 0).plus(squared(a, 1)).plus(squared(a, 2)).root().over(F64 { bits: TWO64 })
}

/// How far to the east the midpoint of a box lies.
pub open spec fn east(a: Aabb, h: Angle) -> F64 {
    mid(a, 0).times(h.cos).plus(mid(a, 1).times(h.sin))
}

/// How far to the north the midpoint of a box lies.
pub open spec fn north(a: Aabb, h: Angle) -> F64 {
    mid(a, 0).negate().times(h.sin).plus(mid(a, 1).times(h.cos))
}

/// The sphere around a box: its midpoint on the earth, and its radius.
pub open spec fn sphere(a: Aabb, s: Stand) -> Seq<F64> {
    let anchor = spec_ecef(s.longitude, s.latitude, F64 { bits: 0 });
    let off = spec_offset(
        s.longitude,
        s.latitude,
        east(a, s.heading),
        north(a, s.heading),
        mid(a, 2),
    );
    seq![
        anchor[0].plus(off[0]),
        anchor[1].plus(off[1]),
        anchor[2].plus(off[2]),
        radius(a).max(F64 { bits: LEAST_RADIUS }),
    ]
}

/// No sphere is smaller than a centimetre.
pub proof fn law_sphere_seen(a: Aabb, s: Stand)
    ensures
        sphere(a, s).len() == 4,
        (F64 { bits: LEAST_RADIUS }).le(sphere(a, s)[3]),
{
    reveal(F64::rank);
    let least = F64 { bits: LEAST_RADIUS };
    assert(!least.nan() && least.le(least));
}

/// The sphere around a box.
pub fn box_sphere(a: &Aabb, s: &Stand) -> (r: Vec<F64>)
    ensures
        r@ == sphere(*a, *s),
{
    let two = F64 { bits: TWO64 };
    let cx: F64 = a.min[0].plus(a.max[0]).over(two);
    let cy: F64 = a.min[1].plus(a.max[1]).over(two);
    let cz: F64 = a.min[2].plus(a.max[2]).over(two);
    let dx: F64 = a.max[0].minus(a.min[0]);
    let dy: F64 = a.max[1].minus(a.min[1]);
    let dz: F64 = a.max[2].minus(a.min[2]);
    let radius: F64 = dx.times(dx).plus(dy.times(dy)).plus(dz.times(dz)).root().over(two);
    let h: Angle = s.heading;
    let e: F64 = cx.times(h.cos).plus(cy.times(h.sin));
    let n: F64 = cx.negate().times(h.sin).plus(cy.times(h.cos));
    let anchor: [F64; 3] = wgs84_ecef(s.longitude, s.latitude, F64 { bits: 0 });
    let off: [F64; 3] = enu_offset_to_ecef(s.longitude, s.latitude, e, n, cz);
    let mut r: Vec<F64> = Vec::new();
    r.push(anchor[0].plus(off[0]));
    r.push(anchor[1].plus(off[1]));
    r.push(anchor[2].plus(off[2]));
    r.push(radius.max(F64 { bits: LEAST_RADIUS }));
    proof {
        assert(r@ =~= sphere(*a, *s));
    }
    r
}

/// The name of a component: that of its mesh, or of its node, or one made of its
/// number.
pub open spec fn component_name(mesh: Seq<char>, node: Seq<char>, gid: nat) -> Seq<char> {
    if mesh.len() > 0 {
        mesh
    } else if node.len() > 0 {
        node
    } else {
        "mesh_"@ + text::decimal(gid)
    }
}

/// The name of a component: that of its mesh, or of its node, or one made of its
/// number.
pub fn name_component(mesh: &str, node: &str, gid: usize) -> (r: String)
    ensures
        r@ == component_name(mesh@, node@, gid as nat),
{
    if mesh.unicode_len() > 0 {
        mesh.to_owned()
    } else if node.unicode_len() > 0 {
        node.to_owned()
    } else {
        let mut r: String = "mesh_".to_owned();
        text::append_decimal(&mut r, gid as u64);
        r
    }
}

/// The box around a mesh.
pub open spec fn mesh_box(m: SceneMesh, f: Frame) -> Aabb {
    spread(m.positions@, f, m.positions@.len())
}

/// The entry of the component `gid`.
pub open spec fn element_doc(m: SceneMesh, gid: nat, f: Frame, s: Stand) -> Doc {
    Doc::object()
        .with("id"@, Doc::Str(b3dm::component_id(m.name@, gid)))
        .with("name"@, Doc::Str(m.name@))
        .with("sphere"@, json::float_docs(sphere(mesh_box(m, f), s)))
        .with("type"@, Doc::Str("element"@))
}

/// The entries of the first `n` components, and the box around them; a mesh without
/// vertices is left out.
pub open spec fn elements(
    meshes: Seq<SceneMesh>,
    f: Frame,
    s: Stand,
    n: nat,
) -> (Seq<Doc>, Aabb)
    decreases n,
{
    if n == 0 {
        (Seq::empty(), empty_box())
    } else {
        let before = elements(meshes, f, s, (n - 1) as nat);
        let b = mesh_box(meshes[n - 1], f);
        if b.min[0].finite() {
            (
                before.0.push(element_doc(meshes[n - 1], (n - 1) as nat, f, s)),
                reaching(before.1, b.min, b.max),
            )
        } else {
            before
        }
    }
}

/// The document of the scene tree: a root with all components.
pub open spec fn scene_doc(meshes: Seq<SceneMesh>, f: Frame, s: Stand) -> Doc {
    let e = elements(meshes, f, s, meshes.len());
    let root = Doc::object()
        .with("id"@, Doc::Str(b3dm::component_id("root"@, 0)))
        .with("name"@, Doc::Str("root"@))
        .with("type"@, Doc::Str("node"@))
        .with("sphere"@, json::float_docs(sphere(e.1, s)))
        .with("children"@, Doc::Arr(e.0));
    Doc::object().with("scenes"@, Doc::Arr(seq![root]))
}

/// The box around a mesh.
fn measure(m: &SceneMesh, f: &Frame) -> (r: Aabb)
    ensures
        r == mesh_box(*m, *f),
{
    let mut b: Aabb = no_box();
    let mut i: usize = 0;
    while i < m.positions.len()
        invariant
            i <= m.positions@.len(),
            b == spread(m.positions@, *f, i as nat),
        decreases m.positions@.len() - i,
    {
        let p: [F64; 3] = frame_point(m.positions[i], f);
        b = reach(&b, &p, &p);
        i = i + 1;
    }
    b
}

/// The document of the scene tree. Each component has the identifier that it has in
/// the tiles.
pub fn build_scenetree(meshes: &Vec<SceneMesh>, f: &Frame, s: &Stand) -> (r: Json)
    ensures
        r@ == scene_doc(meshes@, *f, *s),
{
    let mut children: Vec<Json> = Vec::new();
    let mut all: Aabb = no_box();
    let mut gid: usize = 0;
    proof {
        assert(json::docs(children@) =~= Seq::empty());
    }
    while gid < meshes.len()
        invariant
            gid <= meshes@.len(),
            json::docs(children@) == elements(meshes@, *f, *s, gid as nat).0,
            all == elements(meshes@, *f, *s, gid as nat).1,
        decreases meshes@.len() - gid,
    {
        let m: &SceneMesh = &meshes[gid];
        let ghost before = json::docs(children@);
        let b: Aabb = measure(m, f);
        if b.min[0].is_finite() {
            all = reach(&all, &b.min, &b.max);
            let o: Json = json::object();
            let o: Json = json::with(
                o,
                "id",
                Json::Str(b3dm::make_component_id(m.name.as_str(), gid)),
            );
            let o: Json = json::with(o, "name", json::string(m.name.as_str()));
            let o: Json = json::with(o, "sphere", json::floats(&box_sphere(&b, s)));
            let o: Json = json::with(o, "type", json::string("element"));
            children.push(o);
            proof {
                assert(json::docs(children@) =~= before.push(
                    element_doc(*m, gid as nat, *f, *s),
                ));
            }
        }
        gid = gid + 1;
    }
    let root: Json = json::object();
    let root: Json = json::with(root, "id", Json::Str(b3dm::make_component_id("root", 0)));
    let root: Json = json::with(root, "name", json::string("root"));
    let root: Json = json::with(root, "type", json::string("node"));
    let root: Json = json::with(root, "sphere", json::floats(&box_sphere(&all, s)));
    let root: Json = json::with(root, "children", json::array(children));
    json::with(json::object(), "scenes", json::array_of_one(root))
}

/// Whether `r` is the last node of mesh `m`, where `meshes` holds the mesh of each node.
pub open spec fn is_last_node(meshes: Seq<Option<usize>>, m: usize, r: Option<usize>) -> bool {
    match r {
        Some(n) => n < meshes.len() && meshes[n as int] == Some(m) && forall|k: int|
            n < k < meshes.len() ==> #[trigger] meshes[k] != Some(m),
        None => forall|k: int| 0 <= k < meshes.len() ==> #[trigger] meshes[k] != Some(m),
    }
}

/// Whether node `n` is of mesh `m` and has a name.
pub open spec fn is_named(meshes: Seq<Option<usize>>, names: Seq<String>, m: usize, n: int) -> bool {
    meshes[n] == Some(m) && names[n]@.len() > 0
}

/// Whether `r` is the first node of mesh `m` that has a name.
pub open spec fn is_first_named(
    meshes: Seq<Option<usize>>,
    names: Seq<String>,
    m: usize,
    r: Option<usize>,
) -> bool {
    match r {
        Some(n) => n < meshes.len() && is_named(meshes, names, m, n as int) && forall|k: int|
            0 <= k < n ==> !#[trigger] is_named(meshes, names, m, k),
        None => forall|k: int|
            0 <= k < meshes.len() ==> !#[trigger] is_named(meshes, names, m, k),
    }
}

/// The nodes that tell of each of `count` meshes: the last one, which places the mesh, and
/// the first one with a name, which names it where it has none of its own. `meshes` holds
/// the mesh of each node, and `names` the name of each.
pub fn nodes_of(meshes: &Vec<Option<usize>>, names: &Vec<String>, count: usize) -> (r: Vec<
    (Option<usize>, Option<usize>),
>)
    requires
        names@.len() == meshes@.len(),
    ensures
        r@.len() == count,
        forall|m: int|
            0 <= m < count ==> is_last_node(meshes@, m as usize, (#[trigger] r@[m]).0)
                && is_first_named(meshes@, names@, m as usize, r@[m].1),
{
    let mut out: Vec<(Option<usize>, Option<usize>)> = Vec::new();
    let mut i: usize = 0;
    while i < count
        invariant
            i <= count,
            out@.len() == i,
            forall|m: int| 0 <= m < i ==> #[trigger] out@[m] == (None::<usize>, None::<usize>),
        decreases count - i,
    {
        out.push((None, None));
        i = i + 1;
    }
    let mut n: usize = 0;
    proof {
        assert(meshes@.take(0) =~= Seq::empty());
    }
    while n < meshes.len()
        invariant
            n <= meshes@.len(),
            names@.len() == meshes@.len(),
            out@.len() == count,
            forall|m: int|
                0 <= m < count ==> is_last_node(
                    meshes@.take(n as int),
                    m as usize,
                    (#[trigger] out@[m]).0,
                ) && is_first_named(meshes@.take(n as int), names@, m as usize, out@[m].1),
        decreases meshes@.len() - n,
    {
        let ghost before = out@;
        let ghost old_meshes = meshes@.take(n as int);
        let ghost new_meshes = meshes@.take(n + 1);
        if let Some(m) = meshes[n] {
            if m < count {
                let named: Option<usize> = match out[m].1 {
                    Some(k) => Some(k),
                    None => if names[n].as_str().unicode_len() > 0 {
                        Some(n)
                    } else {
                        None
                    },
                };
                out.set(m, (Some(n), named));
            }
        }
        n = n + 1;
        proof {
            assert forall|m: int| 0 <= m < count implies is_last_node(
                new_meshes,
                m as usize,
                (#[trigger] out@[m]).0,
            ) && is_first_named(new_meshes, names@, m as usize, out@[m].1) by {
                let id = m as usize;
                assert(is_last_node(old_meshes, id, before[m].0));
                assert(is_first_named(old_meshes, names@, id, before[m].1));
                assert forall|k: int|
                    #![trigger is_named(old_meshes, names@, id, k)]
                    #![trigger is_named(new_meshes, names@, id, k)]
                    0 <= k < old_meshes.len() implies is_named(new_meshes, names@, id, k)
                    == is_named(old_meshes, names@, id, k) by {
                    assert(old_meshes[k] == new_meshes[k]);
                }
                assert forall|k: int| 0 <= k < old_meshes.len() implies #[trigger] new_meshes[k]
                    == old_meshes[k] by {}
                assert(new_meshes[n - 1] == meshes@[n - 1]);
            }
        }
    }
    proof {
        assert(meshes@.take(n as int) =~= meshes@);
    }
    out
}

} // verus!
