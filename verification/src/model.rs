//! The model as a whole: its scale, the height of its ground, where its meshes lie and
//! the box that its octree starts from.

use crate::float::F64;
use crate::octree::{Aabb, OctreeBuilder};
use crate::order;
use crate::scenetree;
use crate::scenetree::Frame;
use crate::tiles;
use vstd::prelude::*;

verus! {

/// Pattern of the metres in a centimetre, 0.01.
pub const CENTIMETRE: u64 = 0x3f84_7ae1_47ae_147b;

/// Pattern of the part of the meshes that may reach below the ground, 0.05.
pub const BURIED_PART: u64 = 0x3fa9_9999_9999_999a;

/// Pattern of the margin of the root cell, as a part of its largest side, 0.001.
pub const ROOT_MARGIN: u64 = 0x3f50_624d_d2f1_a9fc;

/// Pattern of the width below which a cell is not split, 0.5.
pub const LEAST_WIDTH: u64 = 0x3fe0_0000_0000_0000;

/// The box `a` grown to hold the point `p`.
pub open spec fn grown(a: Aabb, p: [F64; 3]) -> Aabb {
    Aabb {
        min: [
            if p[0].lt(a.min[0]) { p[0] } else { a.min[0] },
            if p[1].lt(a.min[1]) { p[1] } else { a.min[1] },
            if p[2].lt(a.min[2]) { p[2] } else { a.min[2] },
        ],
        max: [
            if a.max[0].lt(p[0]) { p[0] } else { a.max[0] },
            if a.max[1].lt(p[1]) { p[1] } else { a.max[1] },
            if a.max[2].lt(p[2]) { p[2] } else { a.max[2] },
        ],
    }
}

fn grow(a: &mut Aabb, p: [F64; 3])
    ensures
        *final(a) == grown(*old(a), p),
{
    a.expand_point(p);
    proof {
        assert(a.min =~= grown(*old(a), p).min);
        assert(a.max =~= grown(*old(a), p).max);
    }
}

/// The box `a` grown to hold all of `points`.
pub open spec fn grown_all(a: Aabb, points: Seq<[F64; 3]>) -> Aabb
    decreases points.len(),
{
    if points.len() == 0 {
        a
    } else {
        grown(grown_all(a, points.drop_last()), points.last())
    }
}

fn grow_all(a: &mut Aabb, points: &Vec<[F64; 3]>)
    ensures
        *final(a) == grown_all(*old(a), points@),
{
    let mut i: usize = 0;
    let ghost start = *a;
    while i < points.len()
        invariant
            i <= points@.len(),
            *a == grown_all(start, points@.take(i as int)),
        decreases points@.len() - i,
    {
        grow(a, points[i]);
        proof {
            assert(points@.take(i + 1).drop_last() =~= points@.take(i as int));
        }
        i = i + 1;
    }
    proof {
        assert(points@.take(i as int) =~= points@);
    }
}

/// The box around the points.
pub fn points_box(points: &Vec<[F64; 3]>) -> (r: Aabb)
    ensures
        r == grown_all(scenetree::empty_box(), points@),
{
    let mut b: Aabb = Aabb::empty();
    proof {
        assert(b.min =~= scenetree::empty_box().min);
        assert(b.max =~= scenetree::empty_box().max);
    }
    grow_all(&mut b, points);
    b
}

/// Corner `i` of a box: bits 0, 1 and 2 choose the upper side along x, y and z.
pub open spec fn corner(b: Aabb, i: int) -> [F64; 3] {
    [
        if i % 2 == 1 { b.max[0] } else { b.min[0] },
        if i / 2 % 2 == 1 { b.max[1] } else { b.min[1] },
        if i / 4 % 2 == 1 { b.max[2] } else { b.min[2] },
    ]
}

/// The eight corners of a box.
pub fn box_corners(b: &Aabb) -> (r: Vec<[F64; 3]>)
    ensures
        r@ == Seq::new(8, |i: int| corner(*b, i)),
{
    let mut out: Vec<[F64; 3]> = Vec::new();
    let mut i: usize = 0;
    while i < 8
        invariant
            i <= 8,
            out@.len() == i,
            forall|k: int| 0 <= k < i ==> #[trigger] out@[k] == corner(*b, k),
        decreases 8 - i,
    {
        let c: [F64; 3] = [
            if i % 2 == 1 { b.max[0] } else { b.min[0] },
            if i / 2 % 2 == 1 { b.max[1] } else { b.min[1] },
            if i / 4 % 2 == 1 { b.max[2] } else { b.min[2] },
        ];
        proof {
            assert(c =~= corner(*b, i as int));
        }
        out.push(c);
        i = i + 1;
    }
    proof {
        assert(out@ =~= Seq::new(8, |i: int| corner(*b, i)));
    }
    out
}

/// What the placed corners of the boxes of all meshes tell of the model.
pub struct Survey {
    /// The box around the model.
    pub bounds: Aabb,
    /// The height of the lowest corner of each mesh, where it is a finite number.
    pub lowest: Vec<F64>,
}

/// The box around the corners of the first `n` meshes.
pub open spec fn whole_box(corners: Seq<Vec<[F64; 3]>>, n: nat) -> Aabb
    decreases n,
{
    if n == 0 {
        scenetree::empty_box()
    } else {
        grown_all(whole_box(corners, (n - 1) as nat), corners[n - 1]@)
    }
}

/// The height of the lowest of the corners of a mesh.
pub open spec fn lowest_of(corners: Seq<[F64; 3]>) -> F64 {
    grown_all(scenetree::empty_box(), corners).min[1]
}

/// The heights of the lowest corners of the first `n` meshes, where they are finite
/// numbers.
pub open spec fn lowest_heights(corners: Seq<Vec<[F64; 3]>>, n: nat) -> Seq<F64>
    decreases n,
{
    if n == 0 {
        Seq::empty()
    } else {
        let before = lowest_heights(corners, (n - 1) as nat);
        let y = lowest_of(corners[n - 1]@);
        if y.finite() {
            before.push(y)
        } else {
            before
        }
    }
}

/// Surveys the model by the placed corners of the boxes of its meshes.
pub fn survey(corners: &Vec<Vec<[F64; 3]>>) -> (r: Survey)
    ensures
        r.bounds == whole_box(corners@, corners@.len()),
        r.lowest@ == lowest_heights(corners@, corners@.len()),
{
    let mut bounds: Aabb = Aabb::empty();
    let mut lowest: Vec<F64> = Vec::new();
    let mut i: usize = 0;
    proof {
        assert(bounds.min =~= scenetree::empty_box().min);
        assert(bounds.max =~= scenetree::empty_box().max);
    }
    while i < corners.len()
        invariant
            i <= corners@.len(),
            bounds == whole_box(corners@, i as nat),
            lowest@ == lowest_heights(corners@, i as nat),
        decreases corners@.len() - i,
    {
        grow_all(&mut bounds, &corners[i]);
        let y: F64 = points_box(&corners[i]).min[1];
        if y.is_finite() {
            lowest.push(y);
        }
        i = i + 1;
    }
    Survey { bounds, lowest }
}

/// The metres in a unit of the scene; where the scene does not tell, those in a
/// centimetre.
pub fn model_scale(unit_meters: F64) -> (r: F64)
    ensures
        r == if unit_meters.finite() && (F64 { bits: 0 }).lt(unit_meters) {
            unit_meters
        } else {
            F64 { bits: CENTIMETRE }
        },
{
    if unit_meters.is_finite() && (F64 { bits: 0 }).lt(unit_meters) {
        unit_meters
    } else {
        F64 { bits: CENTIMETRE }
    }
}

/// The sort keys of the heights.
pub open spec fn sort_keys(heights: Seq<F64>) -> Seq<u64> {
    Seq::new(heights.len(), |i: int| order::sort_key(heights[i]))
}

/// The heights in ascending order, by their indices.
pub open spec fn ascending_heights(heights: Seq<F64>) -> Seq<usize> {
    order::order_of(sort_keys(heights), 0x1_0000_0000_0000_0000)
}

/// How many of `n` meshes may reach below the ground: one in twenty, and not all.
pub open spec fn spec_buried_count(n: usize) -> usize {
    let part = F64::spec_from_uint(n as u64).times(F64 { bits: BURIED_PART }).to_uint(
        usize::MAX as u64,
    );
    if part < n {
        part as usize
    } else {
        (n - 1) as usize
    }
}

/// How many of `n` meshes may reach below the ground: one in twenty, and not all.
pub fn buried_count(n: usize) -> (r: usize)
    requires
        n > 0,
    ensures
        r == spec_buried_count(n),
        r < n,
{
    let part: u64 = F64::from_uint(n as u64).times(F64 { bits: BURIED_PART }).to_uint(
        usize::MAX as u64,
    );
    if part < n as u64 {
        part as usize
    } else {
        n - 1
    }
}

/// The height of the ground in the scene: that of the mesh which one mesh in twenty
/// reaches below. Where no mesh tells its height, the lowest of the whole.
pub open spec fn spec_ground(bounds: Aabb, lowest: Seq<F64>) -> F64 {
    if lowest.len() == 0 {
        bounds.min[1]
    } else {
        lowest[ascending_heights(lowest)[spec_buried_count(lowest.len() as usize) as int] as int]
    }
}

/// The height of the ground in the scene.
pub fn ground(s: &Survey) -> (r: F64)
    ensures
        r == spec_ground(s.bounds, s.lowest@),
{
    if s.lowest.len() == 0 {
        return s.bounds.min[1];
    }
    let mut keys: Vec<u64> = Vec::new();
    let mut i: usize = 0;
    while i < s.lowest.len()
        invariant
            i <= s.lowest@.len(),
            keys@.len() == i,
            forall|k: int| 0 <= k < i ==> #[trigger] keys@[k] == order::sort_key(s.lowest@[k]),
        decreases s.lowest@.len() - i,
    {
        keys.push(order::sort_key(s.lowest[i]));
        i = i + 1;
    }
    let sorted: Vec<usize> = order::order_below(&keys, 0x1_0000_0000_0000_0000);
    let k: usize = buried_count(s.lowest.len());
    proof {
        assert(keys@ =~= sort_keys(s.lowest@));
        order::lemma_order_exists(keys@, 0x1_0000_0000_0000_0000);
        assert(sorted@.contains(sorted@[k as int]));
    }
    s.lowest[sorted[k]]
}

/// The height in the scene that becomes zero: the ground, or `offset` metres below it, so
/// that a negative offset sinks the model.
pub open spec fn spec_ground_level(ground: F64, offset: F64, scale: F64) -> F64 {
    ground.minus(offset.over(scale))
}

/// How the scene becomes the model: scaled to metres, moved sideways by the given
/// offsets, and down to stand `ground_offset` metres above the ground.
pub open spec fn spec_frame(
    ground: F64,
    ground_offset: F64,
    scale: F64,
    offset_x: F64,
    offset_z: F64,
) -> Frame {
    Frame {
        scale,
        off: [offset_x, spec_ground_level(ground, ground_offset, scale).times(scale), offset_z],
    }
}

/// How the scene becomes the model.
pub fn model_frame(
    ground: F64,
    ground_offset: F64,
    scale: F64,
    offset_x: F64,
    offset_z: F64,
) -> (r: Frame)
    ensures
        r == spec_frame(ground, ground_offset, scale, offset_x, offset_z),
{
    let level: F64 = ground.minus(ground_offset.over(scale));
    let off: [F64; 3] = [offset_x, level.times(scale), offset_z];
    proof {
        assert(off =~= spec_frame(ground, ground_offset, scale, offset_x, offset_z).off);
    }
    Frame { scale, off }
}

/// The sum of the coordinates of `points` along axis `k`, from the first on.
pub open spec fn sum_along(points: Seq<[F64; 3]>, k: int) -> F64
    decreases points.len(),
{
    if points.len() == 0 {
        F64 { bits: 0 }
    } else {
        sum_along(points.drop_last(), k).plus(points.last()[k])
    }
}

/// The mean of `points` along axis `k`.
pub open spec fn mean_along(points: Seq<[F64; 3]>, k: int) -> F64 {
    sum_along(points, k).over(F64::spec_from_uint(points.len() as u64))
}

/// The mean of the points, where there are any.
pub fn mean_point(points: &Vec<[F64; 3]>) -> (r: Option<[F64; 3]>)
    ensures
        r is Some <==> points@.len() > 0,
        r is Some ==> forall|k: int| 0 <= k < 3 ==> #[trigger] r->0[k] == mean_along(points@, k),
{
    let n: usize = points.len();
    if n == 0 {
        return None;
    }
    let mut x = F64 { bits: 0 };
    let mut y = F64 { bits: 0 };
    let mut z = F64 { bits: 0 };
    let mut i: usize = 0;
    while i < n
        invariant
            i <= n,
            n == points@.len(),
            x == sum_along(points@.take(i as int), 0),
            y == sum_along(points@.take(i as int), 1),
            z == sum_along(points@.take(i as int), 2),
        decreases n - i,
    {
        let p: [F64; 3] = points[i];
        x = x.plus(p[0]);
        y = y.plus(p[1]);
        z = z.plus(p[2]);
        proof {
            assert(points@.take(i + 1).drop_last() =~= points@.take(i as int));
        }
        i = i + 1;
    }
    proof {
        assert(points@.take(i as int) =~= points@);
    }
    let count: F64 = F64::from_uint(n as u64);
    Some([x.over(count), y.over(count), z.over(count)])
}

/// The box around the first `n` of the centres that there are.
pub open spec fn centers_box(centers: Seq<Option<[F64; 3]>>, n: nat) -> Aabb
    decreases n,
{
    if n == 0 {
        scenetree::empty_box()
    } else {
        let before = centers_box(centers, (n - 1) as nat);
        match centers[n - 1] {
            Some(c) => grown(before, c),
            None => before,
        }
    }
}

/// A box with a margin on all sides.
pub open spec fn with_margin(b: Aabb) -> Aabb {
    let pad = b.max_extent().times(F64 { bits: ROOT_MARGIN });
    Aabb {
        min: [b.min[0].minus(pad), b.min[1].minus(pad), b.min[2].minus(pad)],
        max: [b.max[0].plus(pad), b.max[1].plus(pad), b.max[2].plus(pad)],
    }
}

/// The root cell of the octree: the box around the centres of the meshes, with a
/// margin, so that no centre lies on its edge.
pub fn root_cell(centers: &Vec<Option<[F64; 3]>>) -> (r: Aabb)
    ensures
        r == with_margin(centers_box(centers@, centers@.len())),
{
    let mut b: Aabb = Aabb::empty();
    let mut i: usize = 0;
    proof {
        assert(b.min =~= scenetree::empty_box().min);
        assert(b.max =~= scenetree::empty_box().max);
    }
    while i < centers.len()
        invariant
            i <= centers@.len(),
            b == centers_box(centers@, i as nat),
        decreases centers@.len() - i,
    {
        if let Some(c) = centers[i] {
            grow(&mut b, c);
        }
        i = i + 1;
    }
    let pad: F64 = b.max_extent().times(F64 { bits: ROOT_MARGIN });
    let r = Aabb {
        min: [b.min[0].minus(pad), b.min[1].minus(pad), b.min[2].minus(pad)],
        max: [b.max[0].plus(pad), b.max[1].plus(pad), b.max[2].plus(pad)],
    };
    proof {
        assert(r.min =~= with_margin(b).min);
        assert(r.max =~= with_margin(b).max);
    }
    r
}

/// The centre by which a mesh is sorted into the octree: the origin where it has no
/// vertices.
pub open spec fn center_or_origin(c: Option<[F64; 3]>) -> [F64; 3] {
    match c {
        Some(c) => c,
        None => [F64 { bits: 0 }, F64 { bits: 0 }, F64 { bits: 0 }],
    }
}

/// The centres by which the meshes are sorted into the octree.
pub fn octree_centers(centers: &Vec<Option<[F64; 3]>>) -> (r: Vec<[F64; 3]>)
    ensures
        r@ == Seq::new(centers@.len(), |i: int| center_or_origin(centers@[i])),
{
    let mut out: Vec<[F64; 3]> = Vec::new();
    let mut i: usize = 0;
    while i < centers.len()
        invariant
            i <= centers@.len(),
            out@.len() == i,
            forall|k: int| 0 <= k < i ==> #[trigger] out@[k] == center_or_origin(centers@[k]),
        decreases centers@.len() - i,
    {
        let zero = F64 { bits: 0 };
        let c: [F64; 3] = match centers[i] {
            Some(c) => c,
            None => [zero, zero, zero],
        };
        proof {
            assert(c =~= center_or_origin(centers@[i as int]));
        }
        out.push(c);
        i = i + 1;
    }
    proof {
        assert(out@ =~= Seq::new(centers@.len(), |i: int| center_or_origin(centers@[i])));
    }
    out
}

/// The builder of an octree whose leaves aim at tiles of `megabytes`.
pub fn octree_builder(max_depth: u32, max_meshes: usize, megabytes: F64) -> (r: OctreeBuilder)
    ensures
        r.max_depth == max_depth,
        r.max_meshes_per_leaf == max_meshes,
        r.min_extent == (F64 { bits: LEAST_WIDTH }),
        r.max_triangles_per_tile == tiles::spec_triangle_budget(megabytes),
{
    OctreeBuilder {
        max_depth,
        max_meshes_per_leaf: max_meshes,
        min_extent: F64 { bits: LEAST_WIDTH },
        max_triangles_per_tile: tiles::triangle_budget(megabytes),
    }
}

/// The determinant of a matrix, given by its rows.
pub open spec fn spec_linear_determinant(m: [[F64; 3]; 3]) -> F64 {
    m[0][0].times(m[1][1].times(m[2][2]).minus(m[1][2].times(m[2][1]))).minus(
        m[0][1].times(m[1][0].times(m[2][2]).minus(m[1][2].times(m[2][0]))),
    ).plus(m[0][2].times(m[1][0].times(m[2][1]).minus(m[1][1].times(m[2][0]))))
}

/// The determinant of a matrix, given by its rows.
pub fn linear_determinant(m: &[[F64; 3]; 3]) -> (r: F64)
    ensures
        r == spec_linear_determinant(*m),
{
    m[0][0].times(m[1][1].times(m[2][2]).minus(m[1][2].times(m[2][1]))).minus(
        m[0][1].times(m[1][0].times(m[2][2]).minus(m[1][2].times(m[2][0]))),
    ).plus(m[0][2].times(m[1][0].times(m[2][1]).minus(m[1][1].times(m[2][0]))))
}

/// Whether a mesh placed by the matrix is mirrored: its faces are then wound the other
/// way round.
pub fn mirrors(m: &[[F64; 3]; 3]) -> (r: bool)
    ensures
        r <==> spec_linear_determinant(*m).lt(F64 { bits: 0 }),
{
    linear_determinant(m).lt(F64 { bits: 0 })
}

/// The ground is that of the meshes: it is the height of one of them, as many as may
/// reach below it come before it in the order of heights, none of which is above it,
/// and none of the others is below it.
pub proof fn law_ground(bounds: Aabb, lowest: Seq<F64>)
    requires
        0 < lowest.len() <= usize::MAX,
        forall|i: int| 0 <= i < lowest.len() ==> (#[trigger] lowest[i]).finite(),
    ensures
        ascending_heights(lowest).len() == lowest.len(),
        lowest.contains(spec_ground(bounds, lowest)),
        forall|j: int|
            0 <= j < spec_buried_count(lowest.len() as usize) ==> lowest[#[trigger] ascending_heights(
                lowest,
            )[j] as int].le(spec_ground(bounds, lowest)),
        forall|j: int|
            spec_buried_count(lowest.len() as usize) <= j < lowest.len() ==> spec_ground(
                bounds,
                lowest,
            ).le(lowest[#[trigger] ascending_heights(lowest)[j] as int]),
{
    let keys = sort_keys(lowest);
    let order = ascending_heights(lowest);
    order::lemma_order_exists(keys, 0x1_0000_0000_0000_0000);
    let b = spec_buried_count(lowest.len() as usize) as int;
    assert(0 <= b < order.len());
    assert(order.contains(order[b]));
    let g = lowest[order[b] as int];
    assert(lowest[order[b] as int] == spec_ground(bounds, lowest));
    assert forall|j: int| 0 <= j < order.len() implies ({
        let y = lowest[#[trigger] order[j] as int];
        (j < b ==> y.le(g)) && (b <= j ==> g.le(y))
    }) by {
        assert(order.contains(order[j]));
        let y = lowest[order[j] as int];
        assert(!y.nan() && !g.nan());
        order::law_sort_key(y, g);
        order::law_sort_key(g, y);
        assert(keys[order[j] as int] == order::sort_key(y));
        assert(keys[order[b] as int] == order::sort_key(g));
        if j < b {
            assert(order::key_before(keys, order[j], order[b]));
        }
        if b < j {
            assert(order::key_before(keys, order[b], order[j]));
        }
    }
}

/// A larger ground offset puts no point of the model lower, and a smaller one none higher;
/// sideways nothing moves.
pub proof fn law_offset_lifts(
    p: [F64; 3],
    ground: F64,
    less: F64,
    more: F64,
    scale: F64,
    offset_x: F64,
    offset_z: F64,
)
    requires
        ground.finite(),
        less.le(more),
        scale.finite(),
        scale.rank() > 0,
        p[1].times(scale).finite(),
    ensures
        ({
            let low = scenetree::framed(p, spec_frame(ground, less, scale, offset_x, offset_z));
            let high = scenetree::framed(p, spec_frame(ground, more, scale, offset_x, offset_z));
            low[1].le(high[1]) && low[0] == high[0] && low[2] == high[2]
        }),
{
    less.law_over_isotone(more, scale);
    assert(ground.le(ground));
    ground.law_minus_isotone(more.over(scale), ground, less.over(scale));
    let a = spec_ground_level(ground, more, scale);
    let b = spec_ground_level(ground, less, scale);
    a.law_times_isotone(b, scale);
    let y = p[1].times(scale);
    assert(y.le(y));
    y.law_minus_isotone(b.times(scale), y, a.times(scale));
}

/// Whether all coordinates of a point are finite.
pub open spec fn finite_point(p: [F64; 3]) -> bool {
    p[0].finite() && p[1].finite() && p[2].finite()
}

/// The root cell holds the centre of every mesh, so that none is left out of the
/// octree or sorted into a cell that it does not lie in.
pub proof fn law_root_holds_centers(centers: Seq<Option<[F64; 3]>>, i: int)
    requires
        0 <= i < centers.len(),
        centers[i] is Some,
        finite_point(centers[i]->0),
    ensures
        with_margin(centers_box(centers, centers.len())).contains_point(&centers[i]->0),
{
    let c = centers[i]->0;
    lemma_box_numbers(centers, centers.len());
    lemma_box_holds(centers, centers.len(), i);
    let b = centers_box(centers, centers.len());
    let zero = F64 { bits: 0 };
    let margin = F64 { bits: ROOT_MARGIN };
    zero.lemma_zero();
    margin.lemma_positive();
    let extent = b.max_extent();
    assert(!extent.nan() && extent.rank() >= 0);
    extent.law_times_sign(margin);
    let pad = extent.times(margin);
    assert forall|k: int| 0 <= k < 3 implies b.min[k].minus(pad).le(#[trigger] b.min[k])
        && b.max[k].le(b.max[k].plus(pad)) by {
        lemma_not_above(b.min[k], c[k]);
        lemma_not_below(b.max[k], c[k]);
        b.min[k].law_minus_lowers(pad);
        b.max[k].law_plus_raises(pad);
    }
    let w = with_margin(b);
    assert(w.min[0] == b.min[0].minus(pad));
    assert(w.min[1] == b.min[1].minus(pad));
    assert(w.min[2] == b.min[2].minus(pad));
    assert(w.max[0] == b.max[0].plus(pad));
    assert(w.max[1] == b.max[1].plus(pad));
    assert(w.max[2] == b.max[2].plus(pad));
}

/// A number that is at most a finite one is finite or negative.
proof fn lemma_not_above(x: F64, y: F64)
    requires
        x.le(y),
        y.finite(),
    ensures
        x.finite() || x.rank() <= 0,
{
    reveal(F64::rank);
    if !x.finite() && x.rank() > 0 {
        order::law_sort_key(y, x);
    }
}

/// A number that is at least a finite one is finite or positive.
proof fn lemma_not_below(x: F64, y: F64)
    requires
        y.le(x),
        y.finite(),
    ensures
        x.finite() || x.rank() >= 0,
{
    reveal(F64::rank);
    if !x.finite() && x.rank() < 0 {
        order::law_sort_key(x, y);
    }
}

proof fn lemma_box_numbers(centers: Seq<Option<[F64; 3]>>, n: nat)
    requires
        n <= centers.len(),
    ensures
        centers_box(centers, n).numbers(),
    decreases n,
{
    if n > 0 {
        lemma_box_numbers(centers, (n - 1) as nat);
        let before = centers_box(centers, (n - 1) as nat);
        if let Some(c) = centers[n - 1] {
            let b = grown(before, c);
            assert forall|k: int|
                #![trigger b.min[k]]
                #![trigger b.max[k]]
                0 <= k < 3 implies !b.min[k].nan() && !b.max[k].nan() by {
                assert(!before.min[k].nan() && !before.max[k].nan());
            }
        }
    } else {
        let b = scenetree::empty_box();
        assert forall|k: int|
            #![trigger b.min[k]]
            #![trigger b.max[k]]
            0 <= k < 3 implies !b.min[k].nan() && !b.max[k].nan() by {}
    }
}

proof fn lemma_box_holds(centers: Seq<Option<[F64; 3]>>, n: nat, i: int)
    requires
        0 <= i < n <= centers.len(),
        centers[i] is Some,
        finite_point(centers[i]->0),
    ensures
        centers_box(centers, n).contains_point(&centers[i]->0),
    decreases n,
{
    let c = centers[i]->0;
    let before = centers_box(centers, (n - 1) as nat);
    lemma_box_numbers(centers, (n - 1) as nat);
    assert(!before.min[0].nan() && !before.min[1].nan() && !before.min[2].nan());
    assert(!before.max[0].nan() && !before.max[1].nan() && !before.max[2].nan());
    if i < n - 1 {
        lemma_box_holds(centers, (n - 1) as nat, i);
    }
}

} // verus!
