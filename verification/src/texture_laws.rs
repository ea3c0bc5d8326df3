//! What holds of the size of every texture, and of its translucency.

use crate::float::F32;
use crate::ieee;
use crate::monotone;
use crate::rounding;
use crate::texture;
use vstd::arithmetic::power2::*;
use vstd::prelude::*;

verus! {

/// The smallest positive number is one part in these.
spec fn whole() -> nat {
    pow2(149)
}

spec fn mag_units(m: nat) -> nat {
    rounding::units(24, m)
}

spec fn rounded(num: nat, den: nat) -> nat {
    rounding::round_mag(24, 0x7f80_0000, num, den)
}

/// The magnitudes of 1, 2^32, 256, 256.25 and 255.75.
proof fn lemma_landmarks()
    ensures
        whole() > 0,
        whole() >= 0x100_0000 * 0x100_0000,
        pow2(24) == 0x100_0000,
        pow2(23) == 0x80_0000,
        mag_units(0x3f80_0000) == whole(),
        mag_units(0x4f80_0000) == 0x1_0000_0000 * whole(),
        mag_units(0x4380_0000) == 256 * whole(),
        4 * mag_units(0x4380_2000) == 1025 * whole(),
        4 * mag_units(0x437f_c000) == 1023 * whole(),
{
    lemma2_to64();
    lemma_pow2_pos(149);
    lemma_pow2_adds(23, 126);
    lemma_pow2_adds(23, 158);
    lemma_pow2_adds(32, 149);
    lemma_pow2_adds(15, 134);
    lemma_pow2_unfold(134);
    lemma_pow2_adds(48, 101);
    lemma_pow2_pos(101);
    assert(0x3f80_0000nat / 0x80_0000 == 127 && 0x3f80_0000nat % 0x80_0000 == 0);
    assert(0x4f80_0000nat / 0x80_0000 == 159 && 0x4f80_0000nat % 0x80_0000 == 0);
    assert(0x4380_0000nat / 0x80_0000 == 135 && 0x4380_0000nat % 0x80_0000 == 0);
    assert(0x4380_2000nat / 0x80_0000 == 135 && 0x4380_2000nat % 0x80_0000 == 0x2000);
    assert(0x437f_c000nat / 0x80_0000 == 134 && 0x437f_c000nat % 0x80_0000 == 0x7f_c000);
    assert(mag_units(0x4380_2000) == 0x80_2000 * pow2(134));
    assert(mag_units(0x437f_c000) == 0xff_c000 * pow2(133));
    lemma2_to64_rest();
    let r = pow2(101);
    assert(0x1_0000_0000_0000 * r >= 0x1_0000_0000_0000) by (nonlinear_arith)
        requires
            r >= 1,
    ;
}

/// The number nearest to an integer of 32 bits.
proof fn lemma_from_uint(n: u32)
    ensures
        ({
            let x = F32::from_uint(n as u64);
            &&& x.bits <= 0x4f80_0000
            &&& x.bits == rounded(n as nat * whole(), 1)
            &&& n >= 256 ==> mag_units(x.bits as nat) >= 256 * whole()
            &&& mag_units(x.bits as nat) <= 0x1_0000_0000 * whole()
        }),
{
    reveal(F32::spec_from_uint);
    lemma_landmarks();
    let w = whole();
    let m = rounded(n as nat * w, 1);
    assert(n * w <= 0x1_0000_0000 * w) by (nonlinear_arith)
        requires
            n <= 0x1_0000_0000,
    ;
    monotone::lemma_round_exact(24, 0x7f80_0000, 0x4f80_0000);
    monotone::lemma_round_ordered(24, 0x7f80_0000, n as nat * w, 0x1_0000_0000 * w, 1);
    monotone::lemma_units_ordered(24, m, 0x4f80_0000);
    if n >= 256 {
        assert(256 * w <= n * w) by (nonlinear_arith)
            requires
                n >= 256,
        ;
        monotone::lemma_round_exact(24, 0x7f80_0000, 0x4380_0000);
        monotone::lemma_round_ordered(24, 0x7f80_0000, 256 * w, n as nat * w, 1);
        monotone::lemma_units_ordered(24, 0x4380_0000, m);
    }
    assert(F32::from_uint(n as u64).bits == m);
}

/// The factor that brings the longest side to 256, to within one part in 2^24.
proof fn lemma_factor(longest: u32)
    requires
        longest > 256,
    ensures
        ({
            let l = mag_units(F32::from_uint(longest as u64).bits as nat);
            let s = F32 { bits: texture::LONGEST }.over(F32::from_uint(longest as u64));
            let u = mag_units(s.bits as nat);
            &&& s.bits <= 0x3f80_0000
            &&& (u * l) * 0x100_0000 <= (256 * whole() * whole()) * 0x100_0001
            &&& (u * l) * 0x100_0000 >= (256 * whole() * whole()) * 0xff_ffff
        }),
{
    reveal(F32::spec_over);
    lemma_landmarks();
    lemma_from_uint(longest);
    let w = whole();
    let y = F32::from_uint(longest as u64);
    let l = mag_units(y.bits as nat);
    let num = 256 * w * w;
    assert(num <= w * l) by (nonlinear_arith)
        requires
            num == 256 * w * w,
            l >= 256 * w,
    ;
    monotone::lemma_round_exact_over(24, 0x7f80_0000, 0x3f80_0000, l);
    monotone::lemma_round_ordered(24, 0x7f80_0000, num, w * l, l);
    assert(num >= l * 0x80_0000) by (nonlinear_arith)
        requires
            num == 256 * w * w,
            l <= 0x1_0000_0000 * w,
            w >= 0x100_0000 * 0x100_0000,
    ;
    monotone::lemma_round_error(24, 0x7f80_0000, num, l);
    let s = F32 { bits: texture::LONGEST }.over(y);
    let f = ieee::single();
    assert(y.bits > 0) by {
        if y.bits == 0 {
            assert(mag_units(0) == 0);
        }
    }
    assert(f.units(texture::LONGEST as u64) == 256 * w);
    assert(s.bits == rounded(num, l));
}

/// A side that is no longer than the longest one, scaled: before it is brought to an
/// integer it is at most 256.25, and the longest one is at least 255.75.
proof fn lemma_scaled(side: u32, longest: u32)
    requires
        longest > 256,
        side <= longest,
    ensures
        ({
            let s = F32 { bits: texture::LONGEST }.over(F32::from_uint(longest as u64));
            let t = F32::from_uint(side as u64).times(s);
            &&& t.bits <= 0x4380_2000
            &&& side == longest ==> t.bits >= 0x437f_c000
        }),
{
    reveal(F32::spec_times);
    lemma_landmarks();
    lemma_from_uint(side);
    lemma_from_uint(longest);
    lemma_factor(longest);
    let w = whole();
    let x = F32::from_uint(side as u64);
    let y = F32::from_uint(longest as u64);
    let s = F32 { bits: texture::LONGEST }.over(y);
    let l = mag_units(y.bits as nat);
    let a = mag_units(x.bits as nat);
    let u = mag_units(s.bits as nat);
    assert(side * w <= longest * w) by (nonlinear_arith)
        requires
            side <= longest,
    ;
    monotone::lemma_round_ordered(24, 0x7f80_0000, side as nat * w, longest as nat * w, 1);
    monotone::lemma_units_ordered(24, x.bits as nat, y.bits as nat);
    let num = a * u;
    let high = mag_units(0x4380_2000);
    assert(num <= high * w) by (nonlinear_arith)
        requires
            num == a * u,
            a <= l,
            (u * l) * 0x100_0000 <= (256 * w * w) * 0x100_0001,
            4 * high == 1025 * w,
    ;
    monotone::lemma_round_exact_over(24, 0x7f80_0000, 0x4380_2000, w);
    monotone::lemma_round_ordered(24, 0x7f80_0000, num, high * w, w);
    if side == longest {
        let low = mag_units(0x437f_c000);
        assert(low * w <= num) by (nonlinear_arith)
            requires
                num == l * u,
                (u * l) * 0x100_0000 >= (256 * w * w) * 0xff_ffff,
                4 * low == 1023 * w,
        ;
        monotone::lemma_round_exact_over(24, 0x7f80_0000, 0x437f_c000, w);
        monotone::lemma_round_ordered(24, 0x7f80_0000, low * w, num, w);
    }
    assert(x.times(s).bits == rounded(num, w));
}

/// The nearest integer to a number of at most 256.25 is at most 256, and to one of at
/// least 255.75 at least 256.
proof fn lemma_nearest(t: F32)
    requires
        t.bits <= 0x4380_2000,
    ensures
        t.round_uint() <= 256,
        t.bits >= 0x437f_c000 ==> t.round_uint() == 256,
{
    reveal(F32::spec_round_uint);
    lemma_landmarks();
    let w = whole();
    let u = mag_units(t.bits as nat);
    monotone::lemma_units_ordered(24, t.bits as nat, 0x4380_2000);
    let n = (2 * u + w) / (2 * w);
    assert(n <= 256) by (nonlinear_arith)
        requires
            4 * u <= 1025 * w,
            w > 0,
            n == (2 * u + w) / (2 * w),
    ;
    if t.bits >= 0x437f_c000 {
        monotone::lemma_units_ordered(24, 0x437f_c000, t.bits as nat);
        assert(n >= 256) by (nonlinear_arith)
            requires
                4 * u >= 1023 * w,
                w > 0,
                n == (2 * u + w) / (2 * w),
        ;
    }
}

/// A texture that is too large is scaled so that its longest side is 256; no side
/// vanishes.
pub proof fn law_longest_side(w: u32, h: u32)
    requires
        w > 256 || h > 256,
    ensures
        texture::reduced_size(w, h) is Some,
        ({
            let (a, b) = texture::reduced_size(w, h)->0;
            &&& 1 <= a <= 256
            &&& 1 <= b <= 256
            &&& w >= h ==> a == 256
            &&& h >= w ==> b == 256
        }),
{
    let longest = texture::longer(w, h);
    let s = F32 { bits: texture::LONGEST }.over(F32::from_uint(longest as u64));
    lemma_scaled(w, longest);
    lemma_scaled(h, longest);
    lemma_nearest(F32::from_uint(w as u64).times(s));
    lemma_nearest(F32::from_uint(h as u64).times(s));
}

/// Whether there is a pixel `i`, of four bytes.
pub open spec fn pixel(rgba: Seq<u8>, i: int) -> bool {
    0 <= i && 4 * i + 4 <= rgba.len()
}

/// A texture is translucent where the fourth byte of a pixel is below 250.
pub proof fn law_translucent_pixel(rgba: Seq<u8>, i: int)
    requires
        pixel(rgba, i),
        rgba[4 * i + 3] < 250,
    ensures
        texture::translucent(rgba),
{
    assert(texture::alpha_at(rgba, i) < 250);
}

/// A texture is not translucent where the fourth byte of no pixel is below 250.
pub proof fn law_opaque(rgba: Seq<u8>)
    requires
        forall|i: int| #[trigger] pixel(rgba, i) ==> rgba[4 * i + 3] >= 250,
    ensures
        !texture::translucent(rgba),
{
    if texture::translucent(rgba) {
        let i = choose|i: int|
            0 <= i < rgba.len() / 4 && #[trigger] texture::alpha_at(rgba, i) < texture::OPAQUE;
        assert(pixel(rgba, i));
    }
}

/// Whether a chunk with `n` bytes of content begins at `at`: the four digits of `n` to base
/// 256, the highest first, four bytes that tell what it is, the content, and four bytes
/// more.
pub open spec fn chunk_at(b: Seq<u8>, at: int, n: nat, tag: Seq<char>) -> bool {
    &&& 0 <= at
    &&& at + 8 <= b.len()
    &&& n < 0x1_0000_0000
    &&& n == b[at + 3] + 256 * (b[at + 2] + 256 * (b[at + 1] + 256 * b[at]))
    &&& tag.len() == 4
    &&& forall|i: int| 0 <= i < 4 ==> b[at + 4 + i] == #[trigger] tag[i] as int
}

/// A palette image is translucent where a chunk of transparency comes before the first
/// chunk of image data: chunk by chunk, each as long as it says, whatever that is.
pub proof fn law_chunk_by_chunk(b: Seq<u8>, at: nat, n: nat, tag: Seq<char>)
    requires
        chunk_at(b, at as int, n, tag),
    ensures
        tag == "tRNS"@ ==> texture::finds_transparency(b, at),
        tag == "IDAT"@ ==> !texture::finds_transparency(b, at),
        tag != "tRNS"@ && tag != "IDAT"@ ==> texture::finds_transparency(b, at)
            == texture::finds_transparency(b, at + 12 + n),
{
    reveal_strlit("tRNS");
    reveal_strlit("IDAT");
    let a = at as int;
    assert(b[a + 4 + 0] == tag[0] as int && b[a + 4 + 1] == tag[1] as int && b[a + 4 + 2] == tag[2] as int
        && b[a + 4 + 3] == tag[3] as int);
    assert(texture::be32(b, a) == n);
    if texture::tagged(b, a, 0x74, 0x52, 0x4e, 0x53) {
        assert(tag =~= "tRNS"@);
    }
    if texture::tagged(b, a, 0x49, 0x44, 0x41, 0x54) {
        assert(tag =~= "IDAT"@);
    }
}

/// Where a file ends before another chunk, no transparency is found.
pub proof fn law_no_chunk(b: Seq<u8>, at: nat)
    requires
        at + 8 > b.len(),
    ensures
        !texture::finds_transparency(b, at),
{
}

} // verus!
