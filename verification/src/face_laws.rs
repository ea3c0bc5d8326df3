//! What the triangles of a face are drawn with.

use crate::extract;
use crate::extract::{Placement, SourceMesh, Vertex};
use crate::float::{F32, F64, ONE32};
use crate::halving;
use crate::ieee;
use crate::isotone;
use crate::monotone;
use crate::nearness;
use crate::scenetree;
use crate::scenetree::Frame;
use vstd::arithmetic::div_mod::*;
use vstd::arithmetic::power2::*;
use vstd::prelude::*;

verus! {

/// Whether two numbers differ by no more than a ten-thousandth, up to rounding.
pub open spec fn a_step_apart(x: F32, y: F32) -> bool {
    let d = ieee::abs_of(x.rank() - y.rank());
    let s = ieee::abs_of(x.rank()) + ieee::abs_of(y.rank());
    d * 10000 * 0x100_0000 <= nearness::one32() * 0x100_0000 + s * 10000 + 0x100_0000
}

/// Whether a number is finite and at most `2^17`.
pub open spec fn is_moderate(x: F32) -> bool {
    x.finite() && ieee::abs_of(x.rank()) <= 0x2_0000 * nearness::one32()
}

/// A number in steps of a ten-thousandth is near to the number.
proof fn lemma_steps(x: F32)
    requires
        is_moderate(x),
    ensures
        ({
            let o = nearness::one32() as int;
            let s = extract::steps(x) as int;
            let e = ieee::abs_of(2 * (s * o) - 20000 * x.rank());
            e * 0x100_0000 <= o * 0x100_0000 + 20000 * ieee::abs_of(x.rank()) + 0x100_0000
        }),
{
    let t = F32 { bits: extract::STEPS };
    let g = ieee::single();
    let o = nearness::one32() as int;
    lemma_pow2_pos(149);
    lemma2_to64();
    lemma2_to64_rest();
    // Ten thousand, and a bound.
    monotone::lemma_units_of(24, 139, 0x9c_4000);
    lemma_pow2_adds(10, 139);
    let top = 0x4f00_0000u64;
    monotone::lemma_units_of(24, 157, pow2(23));
    lemma_pow2_adds(23, 157);
    lemma_pow2_adds(31, 149);
    reveal(F32::rank);
    assert(t.finite() && t.rank() == 10000 * o) by {
        assert(139 * pow2(23) + 0x9c_4000 == extract::STEPS);
        assert(0x9c_4000 == 10000 * 0x400);
        assert(0x9c_4000 * pow2(139) == 10000 * pow2(149)) by (nonlinear_arith)
            requires
                pow2(149) == 0x400 * pow2(139),
        ;
    }
    let v = x.rank();
    let a = ieee::abs_of(v) as int;
    let p = x.times(t);
    reveal(F32::spec_times);
    let z = ieee::spec_times(g, x.bits as u64, t.bits as u64);
    nearness::lemma_product_value(g, x.bits as u64, t.bits as u64);
    let s = v * (10000 * o);
    let b = g.value(top);
    assert(b == 0x8000_0000 * o);
    assert(-(b * o) <= s <= b * o) by (nonlinear_arith)
        requires
            s == v * (10000 * o),
            b == 0x8000_0000 * o,
            -(0x2_0000 * o) <= v <= 0x2_0000 * o,
            o > 0,
    ;
    halving::lemma_rounded_exact(g, top, nearness::one32());
    isotone::lemma_rounded_ordered(g, s, b * o, nearness::one32());
    isotone::lemma_rounded_ordered(g, -(b * o), s, nearness::one32());
    assert(b * o > 0) by (nonlinear_arith)
        requires
            b > 0,
            o > 0,
    ;
    assert(ieee::abs_of(-(b * o)) == ieee::abs_of(b * o));
    if g.infinite(z) {
        ieee::lemma_units_increase(24, top as nat, g.inf as nat);
    }
    assert(p.bits == z);
    halving::lemma_rounded_near(g, z, s, nearness::one32());
    let pv = p.rank();
    isotone::lemma_abs_times(v, (10000 * o) as nat);
    let d = ieee::abs_of(pv - 10000 * v) as int;
    assert(d * 0x100_0000 <= 10000 * a + 0x80_0000) by (nonlinear_arith)
        requires
            -(a * (10000 * o) + o * 0x80_0000) <= (pv * o - v * (10000 * o)) * 0x100_0000,
            (pv * o - v * (10000 * o)) * 0x100_0000 <= a * (10000 * o) + o * 0x80_0000,
            d == pv - 10000 * v || d == 10000 * v - pv,
            o > 0,
    ;
    // The nearest integer.
    reveal(F32::spec_round_int);
    let m = g.units(z);
    let n = ieee::nearest_whole(g, z) as int;
    lemma_fundamental_div_mod(2 * m + o, 2 * o);
    assert(2 * m - o < 2 * (n * o) <= 2 * m + o) by (nonlinear_arith)
        requires
            2 * m + o == 2 * o * n + (2 * m + o) % (2 * o),
            0 <= (2 * m + o) % (2 * o) < 2 * o,
    ;
    assert(m <= 1400000000 * o);
    assert(n < 0x7fff_ffff) by (nonlinear_arith)
        requires
            2 * (n * o) <= 2 * m + o,
            m <= 1400000000 * o,
            o > 0,
    ;
    assert((-n) * o == -(n * o)) by (nonlinear_arith);
}

/// Attribute `j` of a vertex: three of its position, three of its normal and its two
/// texture coordinates.
pub open spec fn attribute(v: Vertex, j: int) -> F32 {
    if j < 3 {
        v.position[j]
    } else if j < 6 {
        v.normal[j - 3]
    } else {
        v.uv[j - 6]
    }
}

/// One vertex stands for another only where they differ by no more than a ten-thousandth in
/// every attribute, up to rounding.
pub proof fn law_one_for_another(a: Vertex, b: Vertex, j: int)
    requires
        extract::key_of(a) == extract::key_of(b),
        0 <= j < 8,
        is_moderate(attribute(a, j)),
        is_moderate(attribute(b, j)),
    ensures
        a_step_apart(attribute(a, j), attribute(b, j)),
{
    reveal(extract::key_of);
    let (x, y) = (attribute(a, j), attribute(b, j));
    assert(extract::key_of(a)[j] == extract::steps(x));
    assert(extract::key_of(b)[j] == extract::steps(y));
    lemma_steps(x);
    lemma_steps(y);
}

/// Where the source has it: the number of the value at corner `c`.
pub open spec fn source_position(src: SourceMesh, c: int) -> [F64; 3] {
    src.positions.values@[src.positions.indices@[c] as int]
}

/// Whether a vertex is what corner `c` of the source is drawn with: its position placed, its
/// own normal, or where the source has none the upward one, and its own texture coordinate,
/// or where the source has none zero; each up to a ten-thousandth.
pub open spec fn drawn_with(
    src: SourceMesh,
    place: Option<Placement>,
    v: Vertex,
    c: int,
    j: int,
) -> bool {
    let want = if j < 3 {
        extract::spec_placed_position(source_position(src, c), place)[j]
    } else if j < 6 {
        match src.normals {
            Some(s) => extract::spec_placed_normal(s.values@[s.indices@[c] as int], place)[j - 3],
            None => F32 {
                bits: if j == 4 {
                    ONE32
                } else {
                    0
                },
            },
        }
    } else {
        match src.uvs {
            Some(s) => extract::spec_turned_uv(s.values@[s.indices@[c] as int])[j - 6],
            None => F32 { bits: 0 },
        }
    };
    is_moderate(attribute(v, j)) && is_moderate(want) ==> a_step_apart(attribute(v, j), want)
}

/// The corners of a face are drawn as a fan: triangle `t` of face `k` has the face's first
/// corner, and the two corners behind corner `t`, or where triangles are turned round these
/// two the other way. It comes behind the triangles of the faces before, two fewer than
/// corners each, and each of its vertices is what its corner is drawn with.
pub proof fn law_face_fan(
    src: SourceMesh,
    place: Option<Placement>,
    flip: bool,
    faces: Seq<usize>,
    k: int,
    t: int,
    j: int,
)
    requires
        0 <= k < faces.len(),
        faces[k] < src.faces@.len(),
        0 <= t < src.faces@[faces[k] as int].count - 2,
        0 <= j < 8,
        extract::extracted(src, place, flip, faces).0.len() <= u32::MAX,
    ensures
        ({
            let (verts, tris) = extract::extracted(src, place, flip, faces);
            let at = 3 * (extract::face_triangles(src, faces.take(k)) + t);
            let begin = src.faces@[faces[k] as int].begin as int;
            let (second, third) = if flip {
                (begin + t + 2, begin + t + 1)
            } else {
                (begin + t + 1, begin + t + 2)
            };
            &&& at + 3 <= tris.len()
            &&& tris[at] < verts.len() && tris[at + 1] < verts.len() && tris[at + 2] < verts.len()
            &&& drawn_with(src, place, verts[tris[at] as int], begin, j)
            &&& drawn_with(src, place, verts[tris[at + 1] as int], second, j)
            &&& drawn_with(src, place, verts[tris[at + 2] as int], third, j)
        }),
{
    lemma_fan_keys(src, place, flip, faces, k, t);
    let (verts, tris) = extract::extracted(src, place, flip, faces);
    let at = 3 * (extract::face_triangles(src, faces.take(k)) + t);
    let begin = src.faces@[faces[k] as int].begin as int;
    let (second, third) = if flip {
        (begin + t + 2, begin + t + 1)
    } else {
        (begin + t + 1, begin + t + 2)
    };
    lemma_key_drawn(src, place, verts[tris[at] as int], begin, j);
    lemma_key_drawn(src, place, verts[tris[at + 1] as int], second, j);
    lemma_key_drawn(src, place, verts[tris[at + 2] as int], third, j);
}

proof fn lemma_key_drawn(src: SourceMesh, place: Option<Placement>, v: Vertex, c: int, j: int)
    requires
        0 <= j < 8,
        extract::key_of(v) == extract::key_of(extract::vertex_at(src, place, c)),
    ensures
        drawn_with(src, place, v, c, j),
{
    let w = extract::vertex_at(src, place, c);
    if is_moderate(attribute(v, j)) && is_moderate(attribute(w, j)) {
        law_one_for_another(v, w, j);
    }
}

proof fn lemma_fan_keys(
    src: SourceMesh,
    place: Option<Placement>,
    flip: bool,
    faces: Seq<usize>,
    k: int,
    t: int,
)
    requires
        0 <= k < faces.len(),
        0 <= t < src.faces@[faces[k] as int].count - 2,
        extract::extracted(src, place, flip, faces).0.len() <= u32::MAX,
    ensures
        ({
            let (verts, tris) = extract::extracted(src, place, flip, faces);
            let at = 3 * (extract::face_triangles(src, faces.take(k)) + t);
            let begin = src.faces@[faces[k] as int].begin as int;
            let (second, third) = if flip {
                (begin + t + 2, begin + t + 1)
            } else {
                (begin + t + 1, begin + t + 2)
            };
            &&& at + 3 <= tris.len()
            &&& tris[at] < verts.len() && tris[at + 1] < verts.len() && tris[at + 2] < verts.len()
            &&& extract::key_of(verts[tris[at] as int]) == extract::key_of(
                extract::vertex_at(src, place, begin),
            )
            &&& extract::key_of(verts[tris[at + 1] as int]) == extract::key_of(
                extract::vertex_at(src, place, second),
            )
            &&& extract::key_of(verts[tris[at + 2] as int]) == extract::key_of(
                extract::vertex_at(src, place, third),
            )
        }),
    decreases faces.len(),
{
    let rest = faces.drop_last();
    let b = extract::extracted(src, place, flip, rest);
    let e = extract::extracted(src, place, flip, faces);
    let f = src.faces@[faces.last() as int];
    let c = extract::with_corners(src, place, b.0, f.begin as int, f.count as nat);
    if f.count >= 3 {
        extract::lemma_corners_grow(src, place, b.0, f.begin as int, f.count as nat);
    }
    extract::law_extracted_sound(src, place, flip, rest);
    if f.count >= 3 {
        extract::law_corner_vertices(src, place, b.0, f.begin as int, f.count as nat);
    }
    let at = 3 * (extract::face_triangles(src, faces.take(k)) + t);
    if k < faces.len() - 1 {
        lemma_fan_keys(src, place, flip, rest, k, t);
        assert(rest.take(k) =~= faces.take(k));
        assert(e.1[at] == b.1[at] && e.1[at + 1] == b.1[at + 1] && e.1[at + 2] == b.1[at + 2]);
        assert(e.0[b.1[at] as int] == b.0[b.1[at] as int]);
        assert(e.0[b.1[at + 1] as int] == b.0[b.1[at + 1] as int]);
        assert(e.0[b.1[at + 2] as int] == b.0[b.1[at + 2] as int]);
    } else {
        assert(faces.take(k) =~= rest);
        let fan = extract::fan(c.1, flip);
        assert(at == b.1.len() + 3 * t);
        assert((3 * t) % 3 == 0 && (3 * t) / 3 == t);
        assert((3 * t + 1) % 3 == 1 && (3 * t + 1) / 3 == t);
        assert((3 * t + 2) % 3 == 2 && (3 * t + 2) / 3 == t);
        assert(e.1[at] == fan[3 * t] && e.1[at + 1] == fan[3 * t + 1] && e.1[at + 2] == fan[3 * t
            + 2]);
        assert(c.1[0] < c.0.len() && c.1[t + 1] < c.0.len() && c.1[t + 2] < c.0.len());
    }
}

/// The second texture coordinate is counted from the other edge: it and the given one make
/// one, up to rounding, and the first stays. With both between zero and one.
pub proof fn law_turned_uv(t: [F64; 2])
    requires
        t[0].finite(),
        t[1].finite(),
        0 <= t[0].rank() <= nearness::one64(),
        0 <= t[1].rank() <= nearness::one64(),
    ensures
        ({
            let r = extract::spec_turned_uv(t);
            let (u, o) = (nearness::one64() as int, nearness::one32() as int);
            &&& r[0].finite() && r[1].finite()
            &&& ieee::abs_of(r[0].rank() * u - t[0].rank() * o) * 0x80_0000 <= o * u
            &&& ieee::abs_of(r[1].rank() * u + t[1].rank() * o - o * u) * 0x40_0000 <= o * u
        }),
{
    let (u, o) = (nearness::one64() as int, nearness::one32() as int);
    lemma_pow2_pos(1074);
    lemma_pow2_pos(149);
    lemma2_to64();
    lemma2_to64_rest();
    crate::rounding::lemma_pow2_mono(24, 149);
    nearness::lemma_one32();
    nearness::lemma_narrow_bounded(t[0]);
    nearness::lemma_narrow_bounded(t[1]);
    t[0].law_narrow_near();
    t[1].law_narrow_near();
    let (a, b) = (t[0].narrow(), t[1].narrow());
    lemma_coordinate(t[0].rank(), a.rank(), u, o);
    lemma_coordinate(t[1].rank(), b.rank(), u, o);
    let one = F32 { bits: ONE32 };
    reveal(F32::rank);
    reveal(F32::spec_minus);
    let g = ieee::single();
    let z = ieee::spec_neg(g, b.bits as u64);
    isotone::lemma_neg_value(g, b.bits as u64);
    isotone::lemma_plus_value(g, one.bits as u64, z);
    let r = one.minus(b);
    let y = ieee::spec_plus(g, one.bits as u64, z);
    let s = o - b.rank();
    let two = 0x4000_0000u64;
    halving::lemma_rounded_exact(g, two, 1);
    assert(2 * o * 1 == 2 * o);
    isotone::lemma_rounded_ordered(g, s, 2 * o, 1);
    isotone::lemma_rounded_ordered(g, -(2 * o), s, 1);
    assert(ieee::abs_of(-(2 * o)) == ieee::abs_of(2 * o));
    if g.infinite(y) {
        ieee::lemma_units_increase(24, two as nat, g.inf as nat);
    }
    halving::lemma_sum_near(g, one.bits as u64, z);
    let rv = r.rank();
    let bv = b.rank();
    let tv = t[1].rank();
    let e = rv - s;
    assert(-(2 * o) <= e * 0x100_0000 <= 2 * o);
    let eu = e * u;
    assert(-(2 * (o * u)) <= eu * 0x100_0000 <= 2 * (o * u)) by (nonlinear_arith)
        requires
            -(2 * o) <= e * 0x100_0000 <= 2 * o,
            eu == e * u,
            u > 0,
    ;
    assert(rv * u + tv * o - o * u == eu - (bv * u - tv * o)) by (nonlinear_arith)
        requires
            eu == e * u,
            e == rv - (o - bv),
    ;
}

/// A coordinate that was narrowed.
proof fn lemma_coordinate(t: int, a: int, u: int, o: int)
    requires
        u > 0,
        o >= 0x100_0000,
        0 <= t <= u,
        a >= 0,
        ieee::abs_of(a * u - t * o) * 0x100_0000 <= ieee::abs_of(t * o) + u * 0x80_0000,
    ensures
        ieee::abs_of(a * u - t * o) * 0x80_0000 <= o * u,
        a <= 2 * o,
{
    let to = t * o;
    assert(0 <= to <= o * u && u * 0x100_0000 <= o * u) by (nonlinear_arith)
        requires
            to == t * o,
            0 <= t <= u,
            o >= 0x100_0000,
            u > 0,
    ;
    let au = a * u;
    assert(au <= 2 * (o * u));
    assert(a <= 2 * o) by (nonlinear_arith)
        requires
            a * u <= 2 * (o * u),
            u > 0,
    ;
}

/// A point of the scene comes to the model scaled, and less what the frame takes off along
/// the same axis, up to rounding.
pub proof fn law_framed_near(p: [F64; 3], f: Frame, k: int)
    requires
        0 <= k < 3,
        scenetree::framed(p, f)[k].finite(),
    ensures
        ({
            let u = nearness::one64() as int;
            let r = scenetree::framed(p, f)[k].rank();
            let scaled = p[k].rank() * f.scale.rank();
            let off = f.off[k].rank() * u;
            ieee::abs_of(r * u - (scaled - off)) * 0x8_0000_0000_0000 <= ieee::abs_of(scaled)
                + ieee::abs_of(off) + u * 0x8_0000_0000_0000
        }),
{
    let u = nearness::one64() as int;
    lemma_pow2_pos(1074);
    lemma2_to64_rest();
    let t = p[k].times(f.scale);
    t.law_minus_near(f.off[k]);
    p[k].law_times_near(f.scale);
    let r = scenetree::framed(p, f)[k].rank();
    let (tv, ov) = (t.rank(), f.off[k].rank());
    let e = r - (tv - ov);
    let z = ieee::abs_of(tv - ov) as int;
    let (eu, zu, tu, ou) = (e * u, z * u, tv * u, ov * u);
    assert(-zu <= eu * 0x20_0000_0000_0000 <= zu && (zu == tu - ou || zu == ou - tu) && r * u == eu
        + tu - ou) by (nonlinear_arith)
        requires
            -z <= e * 0x20_0000_0000_0000 <= z,
            z == tv - ov || z == ov - tv,
            eu == e * u,
            zu == z * u,
            tu == tv * u,
            ou == ov * u,
            e == r - (tv - ov),
            u > 0,
    ;
}

} // verus!
