//! What is reported of a model and of its tiles.

use crate::float::F64;
use crate::order;
use vstd::prelude::*;

verus! {

/// Pattern of the bytes in a mebibyte, 1048576.
pub const MEBIBYTE: u64 = 0x4130_0000_0000_0000;

/// Pattern of the size in mebibytes from which a tile is as large as it should be, 2.
pub const SIZE_FROM: u64 = 0x4000_0000_0000_0000;

/// Pattern of the size in mebibytes up to which it is, 20.
pub const SIZE_TO: u64 = 0x4034_0000_0000_0000;

/// The sum of the counts.
pub open spec fn sum(counts: Seq<usize>) -> nat
    decreases counts.len(),
{
    if counts.len() == 0 {
        0
    } else {
        sum(counts.drop_last()) + counts.last() as nat
    }
}

/// The sum of the counts.
pub fn total(counts: &Vec<usize>) -> (r: u128)
    ensures
        r == sum(counts@),
{
    let mut t: u128 = 0;
    let mut i: usize = 0;
    while i < counts.len()
        invariant
            i <= counts@.len(),
            t == sum(counts@.take(i as int)),
            t <= i * usize::MAX,
        decreases counts@.len() - i,
    {
        proof {
            assert(counts@.take(i + 1).drop_last() =~= counts@.take(i as int));
            assert((i + 1) * usize::MAX == i * usize::MAX + usize::MAX) by (nonlinear_arith);
            assert((i + 1) * usize::MAX <= usize::MAX * usize::MAX) by (nonlinear_arith)
                requires
                    i + 1 <= usize::MAX,
            ;
            assert(usize::MAX * usize::MAX <= u128::MAX) by (nonlinear_arith)
                requires
                    usize::MAX <= 0xffff_ffff_ffff_ffff,
            ;
        }
        t = t + counts[i] as u128;
        i = i + 1;
    }
    proof {
        assert(counts@.take(i as int) =~= counts@);
    }
    t
}

/// How often `x` occurs.
pub open spec fn occurrences(s: Seq<usize>, x: usize) -> nat
    decreases s.len(),
{
    if s.len() == 0 {
        0
    } else if s.last() == x {
        occurrences(s.drop_last(), x) + 1
    } else {
        occurrences(s.drop_last(), x)
    }
}

/// How often `x` occurs.
pub fn count_of(values: &Vec<usize>, x: usize) -> (r: usize)
    ensures
        r == occurrences(values@, x),
{
    let mut n: usize = 0;
    let mut i: usize = 0;
    while i < values.len()
        invariant
            i <= values@.len(),
            n <= i,
            n == occurrences(values@.take(i as int), x),
        decreases values@.len() - i,
    {
        proof {
            assert(values@.take(i + 1).drop_last() =~= values@.take(i as int));
        }
        if values[i] == x {
            n = n + 1;
        }
        i = i + 1;
    }
    proof {
        assert(values@.take(i as int) =~= values@);
    }
    n
}

/// Each value that occurs, in increasing order, with how often it does.
pub fn histogram(values: &Vec<usize>) -> (r: Vec<(usize, usize)>)
    ensures
        r@.len() == order::sorted_set(values@).len(),
        forall|i: int|
            0 <= i < r@.len() ==> (#[trigger] r@[i]).0 == order::sorted_set(values@)[i] && r@[i].1
                == occurrences(values@, r@[i].0),
{
    let distinct: Vec<usize> = order::sorted_unique(values);
    let mut out: Vec<(usize, usize)> = Vec::new();
    let mut i: usize = 0;
    while i < distinct.len()
        invariant
            i <= distinct@.len(),
            distinct@ == order::sorted_set(values@),
            out@.len() == i,
            forall|k: int|
                0 <= k < i ==> (#[trigger] out@[k]).0 == order::sorted_set(values@)[k] && out@[k].1
                    == occurrences(values@, out@[k].0),
        decreases distinct@.len() - i,
    {
        out.push((distinct[i], count_of(values, distinct[i])));
        i = i + 1;
    }
    out
}

/// What the faces of a mesh tell of their materials.
pub struct MaterialUse {
    /// The material of each face, as far as it is told.
    pub face_material: Vec<u32>,
    /// The number of faces.
    pub faces: usize,
    /// The number of materials.
    pub materials: usize,
}

/// How the faces of a mesh are told apart by material.
#[derive(Clone, Copy, Debug, PartialEq, Eq, Structural)]
pub enum FaceMaterials {
    /// No face tells its material.
    Untold,
    /// There are not as many entries as faces.
    Uneven,
    /// Each face tells its material, and all of them exist.
    Told,
    /// Each face tells its material, and one of them does not exist.
    Beyond,
}

/// Whether a face tells a material that does not exist.
pub open spec fn names_missing(face_material: Seq<u32>, materials: usize) -> bool {
    exists|i: int| 0 <= i < face_material.len() && #[trigger] face_material[i] >= materials
}

/// How the faces of a mesh are told apart by material.
pub open spec fn face_state(m: MaterialUse) -> FaceMaterials {
    if m.face_material@.len() == 0 {
        FaceMaterials::Untold
    } else if m.face_material@.len() != m.faces {
        FaceMaterials::Uneven
    } else if names_missing(m.face_material@, m.materials) {
        FaceMaterials::Beyond
    } else {
        FaceMaterials::Told
    }
}

/// How the faces of a mesh are told apart by material.
pub fn judge_faces(m: &MaterialUse) -> (r: FaceMaterials)
    ensures
        r == face_state(*m),
{
    if m.face_material.len() == 0 {
        return FaceMaterials::Untold;
    }
    if m.face_material.len() != m.faces {
        return FaceMaterials::Uneven;
    }
    let mut i: usize = 0;
    while i < m.face_material.len()
        invariant
            i <= m.face_material@.len(),
            m.face_material@.len() != 0,
            m.face_material@.len() == m.faces,
            forall|k: int| 0 <= k < i ==> #[trigger] m.face_material@[k] < m.materials,
        decreases m.face_material@.len() - i,
    {
        if m.face_material[i] as u64 >= m.materials as u64 {
            proof {
                assert(m.face_material@[i as int] >= m.materials);
            }
            return FaceMaterials::Beyond;
        }
        i = i + 1;
    }
    FaceMaterials::Told
}

/// The materials of the faces.
pub open spec fn told(m: MaterialUse) -> Seq<usize> {
    Seq::new(m.face_material@.len(), |i: int| m.face_material@[i] as usize)
}

/// The number of materials that a mesh of several uses, where all its faces tell
/// theirs.
pub open spec fn used(m: MaterialUse) -> Option<nat> {
    if m.materials > 1 && m.faces > 0 && m.face_material@.len() == m.faces {
        Some(order::sorted_set(told(m)).len())
    } else {
        None
    }
}

/// The number of materials that a mesh of several uses, where all its faces tell
/// theirs.
pub fn count_used(m: &MaterialUse) -> (r: Option<usize>)
    ensures
        r is Some <==> used(*m) is Some,
        r is Some ==> r->0 == used(*m)->0,
{
    if m.materials <= 1 || m.faces == 0 || m.face_material.len() != m.faces {
        return None;
    }
    let mut all: Vec<usize> = Vec::new();
    let mut i: usize = 0;
    while i < m.face_material.len()
        invariant
            i <= m.face_material@.len(),
            all@.len() == i,
            forall|k: int| 0 <= k < i ==> #[trigger] all@[k] == m.face_material@[k] as usize,
        decreases m.face_material@.len() - i,
    {
        all.push(m.face_material[i] as usize);
        i = i + 1;
    }
    proof {
        assert(all@ =~= told(*m));
    }
    Some(order::sorted_unique(&all).len())
}

/// The counts of the meshes by how their faces tell their materials.
#[derive(Clone, Copy, Debug, PartialEq, Eq, Structural)]
pub struct MaterialReport {
    /// Meshes each face of which tells a material that exists.
    pub told: usize,
    /// Meshes each face of which tells a material, but some one that does not exist.
    pub beyond: usize,
    /// Meshes no face of which tells a material.
    pub untold: usize,
    /// Meshes with more or fewer entries than faces.
    pub uneven: usize,
    /// Meshes of several materials that use more than one of them.
    pub varied: usize,
    /// Meshes of several materials that use one.
    pub flat: usize,
}

/// `n`, and one more where `b` holds.
pub open spec fn and_one(n: nat, b: bool) -> nat {
    if b {
        n + 1
    } else {
        n
    }
}

/// The number of meshes among the first `n` whose faces are in the state `s`.
pub open spec fn in_state(meshes: Seq<MaterialUse>, s: FaceMaterials, n: nat) -> nat
    decreases n,
{
    if n == 0 {
        0
    } else {
        and_one(in_state(meshes, s, (n - 1) as nat), face_state(meshes[n - 1]) == s)
    }
}

/// The number of meshes among the first `n` of several materials that use more than
/// one of them, or, for `false`, one.
pub open spec fn using(meshes: Seq<MaterialUse>, several: bool, n: nat) -> nat
    decreases n,
{
    if n == 0 {
        0
    } else {
        let u = used(meshes[n - 1]);
        and_one(using(meshes, several, (n - 1) as nat), u is Some && (u->0 != 1) == several)
    }
}

/// Counts the meshes by how their faces tell their materials.
pub fn report_materials(meshes: &Vec<MaterialUse>) -> (r: MaterialReport)
    ensures
        r.told == in_state(meshes@, FaceMaterials::Told, meshes@.len()),
        r.beyond == in_state(meshes@, FaceMaterials::Beyond, meshes@.len()),
        r.untold == in_state(meshes@, FaceMaterials::Untold, meshes@.len()),
        r.uneven == in_state(meshes@, FaceMaterials::Uneven, meshes@.len()),
        r.varied == using(meshes@, true, meshes@.len()),
        r.flat == using(meshes@, false, meshes@.len()),
        r.told + r.beyond + r.untold + r.uneven == meshes@.len(),
{
    let mut r = MaterialReport { told: 0, beyond: 0, untold: 0, uneven: 0, varied: 0, flat: 0 };
    let mut i: usize = 0;
    while i < meshes.len()
        invariant
            i <= meshes@.len(),
            r.told == in_state(meshes@, FaceMaterials::Told, i as nat),
            r.beyond == in_state(meshes@, FaceMaterials::Beyond, i as nat),
            r.untold == in_state(meshes@, FaceMaterials::Untold, i as nat),
            r.uneven == in_state(meshes@, FaceMaterials::Uneven, i as nat),
            r.varied == using(meshes@, true, i as nat),
            r.flat == using(meshes@, false, i as nat),
            r.told + r.beyond + r.untold + r.uneven == i,
            r.varied <= i,
            r.flat <= i,
        decreases meshes@.len() - i,
    {
        match judge_faces(&meshes[i]) {
            FaceMaterials::Untold => {
                r.untold = r.untold + 1;
            },
            FaceMaterials::Uneven => {
                r.uneven = r.uneven + 1;
            },
            FaceMaterials::Told => {
                r.told = r.told + 1;
            },
            FaceMaterials::Beyond => {
                r.beyond = r.beyond + 1;
            },
        }
        match count_used(&meshes[i]) {
            Some(n) => {
                if n == 1 {
                    r.flat = r.flat + 1;
                } else {
                    r.varied = r.varied + 1;
                }
            },
            None => {},
        }
        i = i + 1;
    }
    r
}

/// The smallest, the middle and the largest of some counts; zeros where there are
/// none.
#[derive(Clone, Copy, Debug, PartialEq, Eq, Structural)]
pub struct Spread {
    pub min: usize,
    pub median: usize,
    pub max: usize,
}

/// The counts as sort keys.
pub open spec fn ascending_keys(counts: Seq<usize>) -> Seq<u64> {
    Seq::new(counts.len(), |i: int| counts[i] as u64)
}

/// The place `i` in the ascending order of the counts.
pub open spec fn ranked(counts: Seq<usize>, i: int) -> usize {
    counts[order::order_of(ascending_keys(counts), 0x1_0000_0000_0000_0000)[i] as int]
}

/// The smallest, the middle and the largest of the counts.
pub fn spread(counts: &Vec<usize>) -> (r: Spread)
    ensures
        counts@.len() == 0 ==> r == (Spread { min: 0, median: 0, max: 0 }),
        counts@.len() > 0 ==> r == (Spread {
            min: ranked(counts@, 0),
            median: ranked(counts@, counts@.len() as int / 2),
            max: ranked(counts@, counts@.len() - 1),
        }),
        forall|i: int| 0 <= i < counts@.len() ==> r.min <= #[trigger] counts@[i] <= r.max,
{
    let n: usize = counts.len();
    if n == 0 {
        return Spread { min: 0, median: 0, max: 0 };
    }
    let mut keys: Vec<u64> = Vec::new();
    let mut i: usize = 0;
    while i < n
        invariant
            i <= n,
            n == counts@.len(),
            keys@.len() == i,
            forall|k: int| 0 <= k < i ==> #[trigger] keys@[k] == counts@[k] as u64,
        decreases n - i,
    {
        keys.push(counts[i] as u64);
        i = i + 1;
    }
    let sorted: Vec<usize> = order::order_below(&keys, 0x1_0000_0000_0000_0000);
    proof {
        assert(keys@ =~= ascending_keys(counts@));
        order::lemma_order_exists(keys@, 0x1_0000_0000_0000_0000);
        assert(sorted@.contains(sorted@[0]));
        assert(sorted@.contains(sorted@[n as int / 2]));
        assert(sorted@.contains(sorted@[n - 1]));
        assert forall|i: int| 0 <= i < counts@.len() implies counts@[sorted@[0] as int]
            <= #[trigger] counts@[i] <= counts@[sorted@[n - 1] as int] by {
            assert(keys@[i] < 0x1_0000_0000_0000_0000);
            assert(sorted@.contains(i as usize));
            let j = choose|j: int| 0 <= j < sorted@.len() && sorted@[j] == i as usize;
            if 0 < j {
                assert(order::key_before(keys@, sorted@[0], sorted@[j]));
            }
            if j < n - 1 {
                assert(order::key_before(keys@, sorted@[j], sorted@[n - 1]));
            }
            assert(keys@[sorted@[0] as int] <= keys@[i] <= keys@[sorted@[n - 1] as int]);
            assert(keys@[i] == counts@[i] as u64);
        }
    }
    Spread { min: counts[sorted[0]], median: counts[sorted[n / 2]], max: counts[sorted[n - 1]] }
}

/// Sort keys by which the largest count comes first.
pub open spec fn descending_keys(counts: Seq<usize>) -> Seq<u64> {
    Seq::new(counts.len(), |i: int| (u64::MAX - counts[i] as u64) as u64)
}

/// The indices of the counts, the largest count first, equal ones as they stand.
pub fn largest_first(counts: &Vec<usize>) -> (r: Vec<usize>)
    ensures
        r@ == order::order_of(descending_keys(counts@), 0x1_0000_0000_0000_0000),
        r@.len() == counts@.len(),
        forall|i: int| 0 <= i < r@.len() ==> #[trigger] r@[i] < counts@.len(),
        forall|i: int, j: int|
            0 <= i < j < r@.len() ==> counts@[#[trigger] r@[i] as int] > counts@[#[trigger] r@[j] as int]
                || (counts@[r@[i] as int] == counts@[r@[j] as int] && r@[i] < r@[j]),
{
    let mut keys: Vec<u64> = Vec::new();
    let mut i: usize = 0;
    while i < counts.len()
        invariant
            i <= counts@.len(),
            keys@.len() == i,
            forall|k: int| 0 <= k < i ==> #[trigger] keys@[k] == u64::MAX - counts@[k] as u64,
        decreases counts@.len() - i,
    {
        keys.push(u64::MAX - counts[i] as u64);
        i = i + 1;
    }
    let sorted: Vec<usize> = order::order_below(&keys, 0x1_0000_0000_0000_0000);
    proof {
        assert(keys@ =~= descending_keys(counts@));
        order::lemma_order_exists(keys@, 0x1_0000_0000_0000_0000);
        assert forall|i: int| 0 <= i < sorted@.len() implies #[trigger] sorted@[i]
            < counts@.len() by {
            assert(sorted@.contains(sorted@[i]));
        }
        assert forall|i: int, j: int| 0 <= i < j < sorted@.len() implies counts@[#[trigger] sorted@[i] as int]
            > counts@[#[trigger] sorted@[j] as int] || (counts@[sorted@[i] as int]
            == counts@[sorted@[j] as int] && sorted@[i] < sorted@[j]) by {
            assert(order::key_before(keys@, sorted@[i], sorted@[j]));
            assert(keys@[sorted@[i] as int] == u64::MAX - counts@[sorted@[i] as int] as u64);
            assert(keys@[sorted@[j] as int] == u64::MAX - counts@[sorted@[j] as int] as u64);
        }
    }
    sorted
}

/// The sizes of tiles in mebibytes.
#[derive(Clone, Copy, Debug)]
pub struct SizeReport {
    pub min: F64,
    pub max: F64,
    pub mean: F64,
    /// Tiles as large as they should be.
    pub inside: usize,
    /// Larger tiles.
    pub over: usize,
    /// Smaller tiles.
    pub under: usize,
}

/// A number of bytes in mebibytes.
pub open spec fn mebibytes(bytes: u64) -> F64 {
    F64::spec_from_uint(bytes).over(F64 { bits: MEBIBYTE })
}

/// The size at place `i` of the ascending order.
pub open spec fn ranked_size(sizes: Seq<u64>, i: int) -> F64 {
    mebibytes(sizes[order::order_of(sizes, 0x1_0000_0000_0000_0000)[i] as int])
}

/// The sum of the `n` smallest sizes, from the smallest on.
pub open spec fn size_sum(sizes: Seq<u64>, n: nat) -> F64
    decreases n,
{
    if n == 0 {
        F64 { bits: 0 }
    } else {
        size_sum(sizes, (n - 1) as nat).plus(ranked_size(sizes, n - 1))
    }
}

/// The numbers of sizes among the first `n` that are as they should be, over and under.
pub open spec fn size_counts(sizes: Seq<u64>, n: nat) -> (nat, nat, nat)
    decreases n,
{
    if n == 0 {
        (0, 0, 0)
    } else {
        let c = size_counts(sizes, (n - 1) as nat);
        let m = mebibytes(sizes[n - 1]);
        let from = F64 { bits: SIZE_FROM };
        let to = F64 { bits: SIZE_TO };
        (
            and_one(c.0, from.le(m) && m.le(to)),
            and_one(c.1, to.lt(m)),
            and_one(c.2, m.lt(from)),
        )
    }
}

/// Reports the sizes of the tiles, given in bytes, where there are any.
pub fn report_sizes(sizes: &Vec<u64>) -> (r: Option<SizeReport>)
    ensures
        r is Some <==> sizes@.len() > 0,
        r is Some ==> {
            let s = r->0;
            let n = sizes@.len();
            &&& s.min == ranked_size(sizes@, 0)
            &&& s.max == ranked_size(sizes@, n - 1)
            &&& s.mean == size_sum(sizes@, n).over(F64::spec_from_uint(n as u64))
            &&& (s.inside as nat, s.over as nat, s.under as nat) == size_counts(sizes@, n)
        },
{
    let n: usize = sizes.len();
    if n == 0 {
        return None;
    }
    let sorted: Vec<usize> = order::order_below(sizes, 0x1_0000_0000_0000_0000);
    proof {
        order::lemma_order_exists(sizes@, 0x1_0000_0000_0000_0000);
        assert forall|i: int| 0 <= i < n implies #[trigger] sorted@[i] < n by {
            assert(sorted@.contains(sorted@[i]));
        }
    }
    let unit = F64 { bits: MEBIBYTE };
    let from = F64 { bits: SIZE_FROM };
    let to = F64 { bits: SIZE_TO };
    let mut sum = F64 { bits: 0 };
    let mut inside: usize = 0;
    let mut over: usize = 0;
    let mut under: usize = 0;
    let mut i: usize = 0;
    while i < n
        invariant
            i <= n,
            n == sizes@.len(),
            sorted@.len() == n,
            sorted@ == order::order_of(sizes@, 0x1_0000_0000_0000_0000),
            forall|k: int| 0 <= k < n ==> #[trigger] sorted@[k] < n,
            unit == (F64 { bits: MEBIBYTE }),
            from == (F64 { bits: SIZE_FROM }),
            to == (F64 { bits: SIZE_TO }),
            sum == size_sum(sizes@, i as nat),
            (inside as nat, over as nat, under as nat) == size_counts(sizes@, i as nat),
            inside <= i,
            over <= i,
            under <= i,
        decreases n - i,
    {
        sum = sum.plus(F64::from_uint(sizes[sorted[i]]).over(unit));
        let m: F64 = F64::from_uint(sizes[i]).over(unit);
        if from.le(m) && m.le(to) {
            inside = inside + 1;
        }
        if to.lt(m) {
            over = over + 1;
        }
        if m.lt(from) {
            under = under + 1;
        }
        i = i + 1;
    }
    Some(
        SizeReport {
            min: F64::from_uint(sizes[sorted[0]]).over(unit),
            max: F64::from_uint(sizes[sorted[n - 1]]).over(unit),
            mean: sum.over(F64::from_uint(n as u64)),
            inside,
            over,
            under,
        },
    )
}

} // verus!
