//! Numbers as bytes, lowest byte first, and padding.

use crate::float::F32;
use vstd::arithmetic::div_mod::*;
use vstd::prelude::*;

verus! {

/// The four lowest bytes of `n`, the lowest first.
#[verifier::opaque]
pub open spec fn le32(n: nat) -> Seq<u8> {
    seq![
        (n % 256) as u8,
        (n / 0x100 % 256) as u8,
        (n / 0x1_0000 % 256) as u8,
        (n / 0x100_0000 % 256) as u8,
    ]
}

/// There are four bytes.
pub broadcast proof fn lemma_le32_len(n: nat)
    ensures
        #[trigger] le32(n).len() == 4,
{
    reveal(le32);
}

/// The number that four bytes stand for.
pub open spec fn read32(b: Seq<u8>, at: int) -> nat {
    (b[at] + 0x100 * b[at + 1] + 0x1_0000 * b[at + 2] + 0x100_0000 * b[at + 3]) as nat
}

/// Four bytes give back the number that was written, as far as it fits 32 bits.
pub proof fn law_le32_read(n: nat, b: Seq<u8>, at: int)
    requires
        0 <= at,
        at + 4 <= b.len(),
        b.subrange(at, at + 4) == le32(n),
    ensures
        read32(b, at) == n % 0x1_0000_0000,
{
    let s = b.subrange(at, at + 4);
    assert(s[0] == b[at] && s[1] == b[at + 1] && s[2] == b[at + 2] && s[3] == b[at + 3]);
    assert(le32(n)[0] == n % 256 && le32(n)[1] == n / 0x100 % 256 && le32(n)[2] == n / 0x1_0000
        % 256 && le32(n)[3] == n / 0x100_0000 % 256) by {
        reveal(le32);
    }
    lemma_digits(n);
}

/// The four lowest digits of `n` to base 256.
proof fn lemma_digits(n: nat)
    ensures
        n % 256 + 0x100 * (n / 0x100 % 256) + 0x1_0000 * (n / 0x1_0000 % 256) + 0x100_0000 * (n
            / 0x100_0000 % 256) == n % 0x1_0000_0000,
{
    let a = n / 0x100;
    let b = n / 0x1_0000;
    let c = n / 0x100_0000;
    let d = c / 0x100;
    lemma_div_denominator(n as int, 0x100, 0x100);
    lemma_div_denominator(n as int, 0x1_0000, 0x100);
    assert(n == 0x100 * a + n % 256);
    assert(a == 0x100 * b + a % 256);
    assert(b == 0x100 * c + b % 256);
    assert(c == 0x100 * d + c % 256);
    let r = n % 256 + 0x100 * (a % 256) + 0x1_0000 * (b % 256) + 0x100_0000 * (c % 256);
    assert(n == d * 0x1_0000_0000 + r);
    lemma_fundamental_div_mod_converse(n as int, 0x1_0000_0000, d as int, r as int);
}

/// The bytes of `words`, one after the other.
pub open spec fn words_bytes(words: Seq<u32>) -> Seq<u8> {
    Seq::new(4 * words.len(), |i: int| le32(words[i / 4] as nat)[i % 4])
}

/// The coordinates of the points, one after the other.
pub open spec fn words3(points: Seq<[F32; 3]>) -> Seq<u32> {
    Seq::new(3 * points.len(), |i: int| points[i / 3][i % 3].bits)
}

/// The coordinates of the points, one after the other.
pub open spec fn words2(points: Seq<[F32; 2]>) -> Seq<u32> {
    Seq::new(2 * points.len(), |i: int| points[i / 2][i % 2].bits)
}

/// The bytes to add to `len` bytes to reach a multiple of `align`.
pub open spec fn padding(len: nat, align: nat) -> nat
    recommends
        align > 0,
{
    ((align - len % align) % align as int) as nat
}

/// `n` times the byte `b`.
pub open spec fn filler(b: u8, n: nat) -> Seq<u8> {
    Seq::new(n, |i: int| b)
}

/// `s`, filled with `b` to a multiple of `align`.
pub open spec fn padded(s: Seq<u8>, b: u8, align: nat) -> Seq<u8> {
    s + filler(b, padding(s.len(), align))
}

proof fn lemma_words_push(words: Seq<u32>, w: u32)
    ensures
        words_bytes(words.push(w)) == words_bytes(words) + le32(w as nat),
{
    lemma_le32_len(w as nat);
    let a = words_bytes(words.push(w));
    let b = words_bytes(words) + le32(w as nat);
    assert forall|i: int| 0 <= i < a.len() implies a[i] == b[i] by {
        if i < 4 * words.len() {
            assert(words.push(w)[i / 4] == words[i / 4]);
        } else {
            assert(i / 4 == words.len());
            assert(i % 4 == i - 4 * words.len());
        }
    }
    assert(a =~= b);
}

/// Appends the four lowest bytes of `n`.
pub fn append_le32(out: &mut Vec<u8>, n: u128)
    ensures
        final(out)@ == old(out)@ + le32(n as nat),
{
    out.push((n % 256) as u8);
    out.push((n / 0x100 % 256) as u8);
    out.push((n / 0x1_0000 % 256) as u8);
    out.push((n / 0x100_0000 % 256) as u8);
    proof {
        reveal(le32);
        assert(out@ =~= old(out)@ + le32(n as nat));
    }
}

/// Appends the bytes of `words`.
pub fn append_words(out: &mut Vec<u8>, words: &Vec<u32>)
    ensures
        final(out)@ == old(out)@ + words_bytes(words@),
{
    let ghost start = out@;
    let mut i: usize = 0;
    proof {
        assert(out@ =~= start + words_bytes(words@.take(0)));
    }
    while i < words.len()
        invariant
            i <= words@.len(),
            out@ == start + words_bytes(words@.take(i as int)),
        decreases words@.len() - i,
    {
        append_le32(out, words[i] as u128);
        proof {
            lemma_words_push(words@.take(i as int), words@[i as int]);
            assert(words@.take(i as int).push(words@[i as int]) =~= words@.take(i + 1));
            assert(out@ =~= start + words_bytes(words@.take(i + 1)));
        }
        i = i + 1;
    }
    proof {
        assert(words@.take(i as int) =~= words@);
    }
}

/// The coordinates of the points, one after the other.
pub fn flat3(points: &Vec<[F32; 3]>) -> (r: Vec<u32>)
    ensures
        r@ == words3(points@),
{
    let mut out: Vec<u32> = Vec::new();
    let mut i: usize = 0;
    while i < points.len()
        invariant
            i <= points@.len(),
            out@ == words3(points@.take(i as int)),
        decreases points@.len() - i,
    {
        let p: [F32; 3] = points[i];
        out.push(p[0].bits);
        out.push(p[1].bits);
        out.push(p[2].bits);
        i = i + 1;
        proof {
            let all = words3(points@.take(i as int));
            assert(points@.take(i as int)[i - 1] == p);
            assert(all.len() == 3 * i);
            assert forall|k: int| 0 <= k < all.len() implies out@[k] == all[k] by {
                if k < 3 * (i - 1) {
                    assert(points@.take(i - 1)[k / 3] == points@.take(i as int)[k / 3]);
                    assert(out@[k] == words3(points@.take(i - 1))[k]);
                } else {
                    assert(k / 3 == i - 1);
                    assert(k % 3 == k - 3 * (i - 1));
                }
            }
            assert(out@ =~= all);
        }
    }
    proof {
        assert(points@.take(i as int) =~= points@);
    }
    out
}

/// The coordinates of the points, one after the other.
pub fn flat2(points: &Vec<[F32; 2]>) -> (r: Vec<u32>)
    ensures
        r@ == words2(points@),
{
    let mut out: Vec<u32> = Vec::new();
    let mut i: usize = 0;
    while i < points.len()
        invariant
            i <= points@.len(),
            out@ == words2(points@.take(i as int)),
        decreases points@.len() - i,
    {
        let p: [F32; 2] = points[i];
        out.push(p[0].bits);
        out.push(p[1].bits);
        i = i + 1;
        proof {
            let all = words2(points@.take(i as int));
            assert(points@.take(i as int)[i - 1] == p);
            assert(all.len() == 2 * i);
            assert forall|k: int| 0 <= k < all.len() implies out@[k] == all[k] by {
                if k < 2 * (i - 1) {
                    assert(points@.take(i - 1)[k / 2] == points@.take(i as int)[k / 2]);
                    assert(out@[k] == words2(points@.take(i - 1))[k]);
                } else {
                    assert(k / 2 == i - 1);
                    assert(k % 2 == k - 2 * (i - 1));
                }
            }
            assert(out@ =~= all);
        }
    }
    proof {
        assert(points@.take(i as int) =~= points@);
    }
    out
}

/// Fills `out` with `b` to a multiple of `align`.
pub fn pad_to(out: &mut Vec<u8>, b: u8, align: usize)
    requires
        align > 0,
    ensures
        final(out)@ == padded(old(out)@, b, align as nat),
{
    let n: usize = (align - out.len() % align) % align;
    let ghost start = out@;
    let mut i: usize = 0;
    while i < n
        invariant
            i <= n,
            out@ == start + filler(b, i as nat),
        decreases n - i,
    {
        out.push(b);
        i = i + 1;
        proof {
            assert(out@ =~= start + filler(b, i as nat));
        }
    }
    proof {
        assert(n == padding(start.len(), align as nat));
    }
}

/// A part of the first of two runs of bytes.
pub proof fn lemma_in_first(a: Seq<u8>, b: Seq<u8>, i: int, j: int)
    requires
        0 <= i <= j <= a.len(),
    ensures
        (a + b).subrange(i, j) == a.subrange(i, j),
{
    assert((a + b).subrange(i, j) =~= a.subrange(i, j));
}

/// The second of two runs of bytes.
pub proof fn lemma_second(a: Seq<u8>, b: Seq<u8>)
    ensures
        (a + b).subrange(a.len() as int, (a + b).len() as int) == b,
{
    assert((a + b).subrange(a.len() as int, (a + b).len() as int) =~= b);
}

/// Padding reaches a multiple of `align`, with fewer than `align` bytes.
pub proof fn law_padded(s: Seq<u8>, b: u8, align: nat)
    requires
        align > 0,
    ensures
        padded(s, b, align).len() % align == 0,
        s.len() <= padded(s, b, align).len() < s.len() + align,
        padded(s, b, align).take(s.len() as int) == s,
{
    assert(padded(s, b, align).take(s.len() as int) =~= s);
    lemma_padding(s.len() as int, align as int);
}

/// Padding reaches a multiple, in numbers.
proof fn lemma_padding(n: int, a: int)
    requires
        n >= 0,
        a > 0,
    ensures
        (n + (a - n % a) % a) % a == 0,
        0 <= (a - n % a) % a < a,
{
    let r = n % a;
    lemma_fundamental_div_mod(n, a);
    if r == 0 {
        lemma_mod_self_0(a);
        assert((a - r) % a == 0);
    } else {
        lemma_small_mod((a - r) as nat, a as nat);
        let k = n / a + 1;
        assert(n + (a - r) == a * k) by (nonlinear_arith)
            requires
                n == a * (n / a) + r,
                k == n / a + 1,
        ;
        lemma_mod_multiples_basic(k, a);
        assert((k * a) % a == 0);
        assert(k * a == a * k) by (nonlinear_arith);
    }
}

} // verus!
