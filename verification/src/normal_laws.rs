//! That normals keep their direction and are brought to length one.

use crate::extract;
use crate::extract::Placement;
use crate::float::{F32, F64};
use crate::ieee;
use crate::isotone;
use crate::mesh;
use crate::monotone;
use crate::nearness;
use vstd::arithmetic::power2::*;
use vstd::prelude::*;

verus! {

/// The exact square of the length of `n`.
pub open spec fn length_squared(n: [F64; 3]) -> int {
    nearness::squares(n[0].rank(), n[1].rank(), n[2].rank())
}

/// The square of the shortest length that has a direction.
pub open spec fn shortest_squared() -> int {
    let s = (F64 { bits: extract::SHORTEST_NORMAL }).rank();
    s * s
}

/// Whether `n` is finite and no component is over `2^510`.
pub open spec fn moderate(n: [F64; 3]) -> bool {
    forall|k: int|
        0 <= k < 3 ==> (#[trigger] n[k]).finite() && ieee::abs_of(n[k].rank()) <= pow2(510)
            * nearness::one64()
}

/// The shortest length with a direction is about a millionth of a millionth.
proof fn lemma_shortest()
    ensures
        ({
            let s = (F64 { bits: extract::SHORTEST_NORMAL }).rank();
            &&& (F64 { bits: extract::SHORTEST_NORMAL }).finite()
            &&& s > 0
            &&& s * s >= nearness::one64() * 0x1000_0000_0000_0000
        }),
{
    let x = F64 { bits: extract::SHORTEST_NORMAL };
    x.lemma_positive();
    nearness::lemma_power(982);
    reveal(F64::rank);
    let low = F64 { bits: (983 * 0x10_0000_0000_0000) as u64 };
    assert(low.rank() == pow2(1034));
    monotone::lemma_units_ordered(53, low.bits as nat, x.bits as nat);
    let s = x.rank();
    let b = pow2(1034) as int;
    assert(s >= b);
    lemma_pow2_adds(1034, 1034);
    lemma_pow2_adds(1074, 60);
    crate::rounding::lemma_pow2_mono(1134, 2068);
    lemma2_to64_rest();
    assert(s * s >= b * b) by (nonlinear_arith)
        requires
            s >= b,
            b >= 0,
    ;
}

/// The length that a normal is divided by.
proof fn lemma_length(n: [F64; 3]) -> (l: int)
    requires
        moderate(n),
        length_squared(n) > nearness::one64() * 0x10,
    ensures
        extract::spec_length(n).finite(),
        l == extract::spec_length(n).rank(),
        l > 0,
        ieee::abs_of(l * l - length_squared(n)) * 0x4_0000_0000_0000 <= 4 * length_squared(n)
            + nearness::one64() * 0x8_0000_0000_0000,
{
    assert(n[0].finite() && n[1].finite() && n[2].finite());
    let s = n[0].times(n[0]).plus(n[1].times(n[1])).plus(n[2].times(n[2]));
    nearness::law_squares_finite(n[0], n[1], n[2]);
    nearness::law_squares_near(n[0], n[1], n[2]);
    lemma2_to64();
    lemma2_to64_rest();
    lemma_pow2_pos(1074);
    let u = nearness::one64() as int;
    let q = length_squared(n);
    if s.rank() == 0 {
        assert(0 * u == 0);
        assert(false);
    }
    crate::rounding::lemma_pow2_mono(2096, 2097);
    s.law_root_near();
    let l = s.root().rank();
    let su = s.rank() * u;
    let ll = l * l;
    assert(ieee::abs_of(ll - q) <= ieee::abs_of(ll - su) + ieee::abs_of(su - q));
    l
}

/// The quotient of a component and the length, narrowed.
proof fn lemma_component(x: F64, len: F64) -> (v: int)
    requires
        x.finite(),
        len.finite(),
        len.rank() > 0,
        ieee::abs_of(x.rank()) <= 2 * len.rank(),
    ensures
        x.over(len).narrow().finite(),
        v == x.over(len).narrow().rank(),
        ieee::abs_of(v * len.rank() - x.rank() * nearness::one32()) * 0x20_0000 <= nearness::one32()
            * len.rank(),
        x.rank() > 0 ==> v >= 0,
        x.rank() < 0 ==> v <= 0,
        x.rank() == 0 ==> v == 0,
{
    let l = len.rank();
    let u = nearness::one64() as int;
    let o = nearness::one32() as int;
    let xv = x.rank();
    nearness::lemma_quotient_bounded(x, len);
    let q = x.over(len);
    nearness::lemma_narrow_bounded(q);
    x.law_over_near(len);
    q.law_narrow_near();
    let v = q.narrow().rank();
    lemma2_to64();
    lemma2_to64_rest();
    lemma_pow2_pos(1074);
    lemma_pow2_pos(149);
    lemma_pow2_adds(149, 24);
    crate::rounding::lemma_pow2_mono(173, 1074);
    crate::rounding::lemma_pow2_mono(24, 149);
    isotone::lemma_abs_times(xv, u as nat);
    isotone::lemma_abs_times(q.rank(), o as nat);
    lemma_component_drift(u, o, l, xv, q.rank(), v);
    v
}

/// The roundings of a component, taken together.
proof fn lemma_component_drift(u: int, o: int, l: int, x: int, q: int, v: int)
    requires
        u >= o * 0x100_0000,
        o >= 0x100_0000,
        l > 0,
        ieee::abs_of(x) <= 2 * l,
        ieee::abs_of(q * l - x * u) * 0x20_0000_0000_0000 <= ieee::abs_of(x) * u + l
            * 0x10_0000_0000_0000,
        ieee::abs_of(v * u - q * o) * 0x100_0000 <= ieee::abs_of(q) * o + u * 0x80_0000,
    ensures
        ieee::abs_of(v * l - x * o) * 0x20_0000 <= o * l,
{
    let a = ieee::abs_of(x) as int;
    let b = ieee::abs_of(q) as int;
    let e1 = ieee::abs_of(q * l - x * u) as int;
    let e2 = ieee::abs_of(v * u - q * o) as int;
    let t = v * l - x * o;
    let e = ieee::abs_of(t) as int;
    // The size of the quotient.
    isotone::lemma_abs_times(q, l as nat);
    isotone::lemma_abs_times(x, u as nat);
    let bl = b * l;
    let au = a * u;
    assert(bl <= au + e1);
    assert(bl <= 2 * au + l);
    // The two errors add up.
    let t1 = q * l - x * u;
    let t2 = v * u - q * o;
    assert(t * u == t2 * l + t1 * o) by (nonlinear_arith)
        requires
            t == v * l - x * o,
            t1 == q * l - x * u,
            t2 == v * u - q * o,
    ;
    isotone::lemma_abs_times(t, u as nat);
    isotone::lemma_abs_times(t2, l as nat);
    isotone::lemma_abs_times(t1, o as nat);
    let eu = e * u;
    assert(eu <= e2 * l + e1 * o);
    let e2l = e2 * l;
    let e1o = e1 * o;
    let bo = b * o;
    let blo = bl * o;
    let auo = au * o;
    let lu = l * u;
    let lo = l * o;
    assert(e2l * 0x100_0000 <= blo + lu * 0x80_0000) by (nonlinear_arith)
        requires
            e2l == e2 * l,
            e2 * 0x100_0000 <= b * o + u * 0x80_0000,
            blo == b * l * o,
            lu == l * u,
            l > 0,
    ;
    assert(e1o * 0x20_0000_0000_0000 <= auo + lo * 0x10_0000_0000_0000) by (nonlinear_arith)
        requires
            e1o == e1 * o,
            e1 * 0x20_0000_0000_0000 <= au + l * 0x10_0000_0000_0000,
            auo == au * o,
            lo == l * o,
            o > 0,
    ;
    assert(blo <= 2 * auo + lo) by (nonlinear_arith)
        requires
            blo == bl * o,
            bl <= 2 * au + l,
            auo == au * o,
            lo == l * o,
            o > 0,
    ;
    assert(lo * 0x100_0000 <= lu) by (nonlinear_arith)
        requires
            lo == l * o,
            lu == l * u,
            u >= o * 0x100_0000,
            l > 0,
    ;
    let lou = lo * u;
    assert(auo <= 2 * lou) by (nonlinear_arith)
        requires
            auo == a * u * o,
            lou == l * o * u,
            a <= 2 * l,
            u > 0,
            o > 0,
    ;
    assert(lu * 0x100_0000 <= lou) by (nonlinear_arith)
        requires
            lou == l * o * u,
            lu == l * u,
            o >= 0x100_0000,
            l > 0,
            u > 0,
    ;
    assert(auo >= 0 && lo >= 0 && lou >= 0) by (nonlinear_arith)
        requires
            auo == a * u * o,
            lou == l * o * u,
            lo == l * o,
            a >= 0,
            u > 0,
            o > 0,
            l > 0,
    ;
    assert(eu * 0x100_0000 <= 8 * lou);
    assert(e * 0x20_0000 <= o * l) by (nonlinear_arith)
        requires
            e * u * 0x100_0000 <= 8 * (l * o * u),
            u > 0,
    ;
}

/// The exact square of the length of a normal of singles.
pub open spec fn placed_squared(v: [F32; 3]) -> int {
    nearness::squares(v[0].rank(), v[1].rank(), v[2].rank())
}

/// Whether `v` points where `n` does: there is a length `l`, that of `n`, by which every
/// component was divided, up to rounding.
pub open spec fn along(v: [F32; 3], n: [F64; 3], l: int) -> bool {
    let o = nearness::one32() as int;
    &&& l > 0
    &&& ieee::abs_of(l * l - length_squared(n)) * 0x8000_0000_0000 <= l * l
    &&& forall|k: int|
        0 <= k < 3 ==> ieee::abs_of((#[trigger] v[k]).rank() * l - n[k].rank() * o) * 0x20_0000 <= o
            * l
}

/// The normal of a placed mesh keeps its direction and is brought to length one: where its
/// exact length, over all three axes, is above a millionth of a millionth by more than
/// rounding, every component is divided by that length, and none changes its sign. The
/// squares of the components make one, up to one part in `2^16`.
pub proof fn law_normal_unit(n: [F64; 3], place: Placement)
    requires
        moderate(n),
        length_squared(n) * 0x100_0000_0000 >= shortest_squared() * 0x100_0000_0001,
    ensures
        ({
            let v = extract::spec_placed_normal(n, Some(place));
            let o = nearness::one32() as int;
            &&& forall|k: int| 0 <= k < 3 ==> (#[trigger] v[k]).finite()
            &&& forall|k: int|
                0 <= k < 3 ==> ((#[trigger] v[k]).rank() > 0 ==> n[k].rank() > 0) && (v[k].rank() < 0
                    ==> n[k].rank() < 0)
            &&& exists|l: int| along(v, n, l)
            &&& ieee::abs_of(placed_squared(v) - o * o) * 0x1_0000 <= o * o
        }),
{
    lemma_shortest();
    assert(n[0].finite() && n[1].finite() && n[2].finite());
    let short = F64 { bits: extract::SHORTEST_NORMAL };
    let s = short.rank();
    let u = nearness::one64() as int;
    lemma_pow2_pos(1074);
    let q = length_squared(n);
    let l = lemma_length(n);
    let len = extract::spec_length(n);
    let ll = l * l;
    assert(ll > s * s);
    assert(l > s) by (nonlinear_arith)
        requires
            l * l > s * s,
            l > 0,
            s > 0,
    ;
    assert(short.lt(len));
    let v = extract::spec_placed_normal(n, Some(place));
    assert(ieee::abs_of(ll - q) * 0x8000_0000_0000 <= ll);
    lemma_part_below(n[0].rank(), n[1].rank(), n[2].rank(), l);
    let a = lemma_component(n[0], len);
    let b = lemma_component(n[1], len);
    let c = lemma_component(n[2], len);
    assert(v[0].rank() == a && v[1].rank() == b && v[2].rank() == c);
    assert(along(v, n, l));
    lemma_pow2_pos(149);
    lemma_unit_drift(
        nearness::one32() as int,
        l,
        n[0].rank(),
        n[1].rank(),
        n[2].rank(),
        a,
        b,
        c,
    );
}

/// No component is longer than the whole, up to rounding.
proof fn lemma_part_below(x: int, y: int, z: int, l: int)
    requires
        l > 0,
        ieee::abs_of(l * l - nearness::squares(x, y, z)) * 0x8000_0000_0000 <= l * l,
    ensures
        ieee::abs_of(x) <= 2 * l,
        ieee::abs_of(y) <= 2 * l,
        ieee::abs_of(z) <= 2 * l,
{
    let ll = l * l;
    assert(nearness::squares(x, y, z) <= 2 * ll);
    assert(x * x >= 0 && y * y >= 0 && z * z >= 0) by (nonlinear_arith);
    assert(ieee::abs_of(x) <= 2 * l) by (nonlinear_arith)
        requires
            x * x <= 2 * (l * l),
            l > 0,
    ;
    assert(ieee::abs_of(y) <= 2 * l) by (nonlinear_arith)
        requires
            y * y <= 2 * (l * l),
            l > 0,
    ;
    assert(ieee::abs_of(z) <= 2 * l) by (nonlinear_arith)
        requires
            z * z <= 2 * (l * l),
            l > 0,
    ;
}

/// The square of a component that is near to `x` over `l`.
proof fn lemma_square_drift(o: int, l: int, x: int, v: int)
    requires
        o > 0,
        l > 0,
        ieee::abs_of(x) <= 2 * l,
        ieee::abs_of(v * l - x * o) * 0x20_0000 <= o * l,
    ensures
        ieee::abs_of((v * v) * (l * l) - (x * x) * (o * o)) * 0x20_0000 <= 5 * ((o * o) * (l * l)),
{
    let m = o * l;
    let t = v * l - x * o;
    let w = x * o;
    let e = ieee::abs_of(t) as int;
    assert((v * v) * (l * l) - (x * x) * (o * o) == t * (t + 2 * w)) by (nonlinear_arith)
        requires
            t == v * l - x * o,
            w == x * o,
    ;
    assert(-(2 * m) <= w <= 2 * m) by (nonlinear_arith)
        requires
            w == x * o,
            m == o * l,
            -(2 * l) <= x <= 2 * l,
            o > 0,
    ;
    assert(m * m == (o * o) * (l * l)) by (nonlinear_arith)
        requires
            m == o * l,
    ;
    let r = t * (t + 2 * w);
    assert(m > 0) by (nonlinear_arith)
        requires
            m == o * l,
            o > 0,
            l > 0,
    ;
    assert(-(5 * (e * m)) <= r <= 5 * (e * m)) by (nonlinear_arith)
        requires
            r == t * (t + 2 * w),
            e == t || e == -t,
            0 <= e <= m,
            -(2 * m) <= w <= 2 * m,
    ;
    assert(5 * (e * m) * 0x20_0000 <= 5 * (m * m)) by (nonlinear_arith)
        requires
            e * 0x20_0000 <= m,
            m > 0,
    ;
}

/// The squares of the components together.
proof fn lemma_unit_drift(o: int, l: int, x: int, y: int, z: int, a: int, b: int, c: int)
    requires
        o > 0,
        l > 0,
        ieee::abs_of(x) <= 2 * l,
        ieee::abs_of(y) <= 2 * l,
        ieee::abs_of(z) <= 2 * l,
        ieee::abs_of(l * l - nearness::squares(x, y, z)) * 0x8000_0000_0000 <= l * l,
        ieee::abs_of(a * l - x * o) * 0x20_0000 <= o * l,
        ieee::abs_of(b * l - y * o) * 0x20_0000 <= o * l,
        ieee::abs_of(c * l - z * o) * 0x20_0000 <= o * l,
    ensures
        ieee::abs_of(nearness::squares(a, b, c) - o * o) * 0x1_0000 <= o * o,
{
    lemma_square_drift(o, l, x, a);
    lemma_square_drift(o, l, y, b);
    lemma_square_drift(o, l, z, c);
    let oo = o * o;
    let ll = l * l;
    let q = nearness::squares(x, y, z);
    let p = nearness::squares(a, b, c);
    let g = oo * ll;
    let d = ll - q;
    let (xx, yy, zz, aa, bb, cc) = (x * x, y * y, z * z, a * a, b * b, c * c);
    assert(oo > 0 && ll > 0) by (nonlinear_arith)
        requires
            oo == o * o,
            ll == l * l,
            o > 0,
            l > 0,
    ;
    let t = p - oo;
    assert(t * ll == (aa * ll - xx * oo) + (bb * ll - yy * oo) + (cc * ll - zz * oo) - d * oo)
        by (nonlinear_arith)
        requires
            t == aa + bb + cc - oo,
            d == ll - (xx + yy + zz),
    ;
    isotone::lemma_abs_times(t, ll as nat);
    isotone::lemma_abs_times(d, oo as nat);
    let e = ieee::abs_of(d) as int;
    let eo = e * oo;
    assert(eo * 0x8000_0000_0000 <= g) by (nonlinear_arith)
        requires
            eo == e * oo,
            e * 0x8000_0000_0000 <= ll,
            g == oo * ll,
            oo > 0,
    ;
    let r = ieee::abs_of(t) as int;
    assert(r * ll * 0x1_0000 <= g);
    assert(r * 0x1_0000 <= oo) by (nonlinear_arith)
        requires
            r * ll * 0x1_0000 <= oo * ll,
            ll > 0,
    ;
}

/// The normal of a placed mesh that is shorter than a millionth of a millionth by more than
/// rounding has no direction and points upward, along the second axis.
pub proof fn law_short_normal_up(n: [F64; 3], place: Placement)
    requires
        moderate(n),
        length_squared(n) > nearness::one64() * 0x10,
        length_squared(n) * 0x100_0000_0001 <= shortest_squared() * 0x100_0000_0000,
    ensures
        ({
            let v = extract::spec_placed_normal(n, Some(place));
            v[0].rank() == 0 && v[1].rank() == nearness::one32() && v[2].rank() == 0
        }),
{
    lemma_shortest();
    let short = F64 { bits: extract::SHORTEST_NORMAL };
    let s = short.rank();
    let l = lemma_length(n);
    lemma_pow2_pos(1074);
    assert(l * l <= s * s);
    assert(l <= s) by (nonlinear_arith)
        requires
            l * l <= s * s,
            l > 0,
            s > 0,
    ;
    nearness::lemma_one32();
    (F32 { bits: 0 }).lemma_zero();
    assert(extract::spec_placed_normal(n, Some(place)) == mesh::spec_up());
}

/// The normal of a mesh that is not placed stays as it is, up to rounding to singles.
pub proof fn law_unplaced_normal(n: [F64; 3], k: int)
    requires
        0 <= k < 3,
        extract::spec_placed_normal(n, None)[k].finite(),
    ensures
        ({
            let v = extract::spec_placed_normal(n, None)[k].rank();
            let s = n[k].rank() * nearness::one32();
            ieee::abs_of(v * nearness::one64() - s) * pow2(24) <= ieee::abs_of(s)
                + nearness::one64() * pow2(23)
        }),
{
    n[k].law_narrow_near();
}

} // verus!
