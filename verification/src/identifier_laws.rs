//! What the identifiers of components tell apart.

use crate::b3dm;
use crate::text;
use vstd::arithmetic::power::*;
use vstd::prelude::*;

verus! {

/// The number that a hexadecimal digit stands for.
pub open spec fn digit_value(c: char) -> int {
    if '0' <= c && c <= '9' {
        c as int - '0' as int
    } else {
        c as int - 'a' as int + 10
    }
}

/// The number that a text of hexadecimal digits stands for.
pub open spec fn hex_value(s: Seq<char>) -> int
    decreases s.len(),
{
    if s.len() == 0 {
        0
    } else {
        hex_value(s.drop_last()) * 16 + digit_value(s.last())
    }
}

/// A text of `k` hexadecimal digits has `k` characters, and reads as the number it was
/// written for where that has no more than `k` digits.
pub proof fn law_hex_read_back(n: nat, k: nat)
    requires
        n < pow(16, k),
    ensures
        text::hex(n, k).len() == k,
        hex_value(text::hex(n, k)) == n,
    decreases k,
{
    reveal(pow);
    if k > 0 {
        let rest = text::hex(n / 16, (k - 1) as nat);
        assert(pow(16, k) == 16 * pow(16, (k - 1) as nat));
        law_hex_read_back(n / 16, (k - 1) as nat);
        assert(text::hex(n, k).drop_last() =~= rest);
        assert(digit_value(text::digit(n % 16)) == n % 16);
    }
}

/// An identifier has thirty-two digits. Its second eight, less its first eight, give the
/// number of the component in the model, in thirty-two bits; its last sixteen are zeros.
/// Two components whose numbers differ in those bits never have the same identifier,
/// whatever their names.
pub proof fn law_identifiers(name: Seq<char>, gid: nat, other: Seq<char>, at: nat)
    ensures
        b3dm::component_id(name, gid).len() == 32,
        ({
            let id = b3dm::component_id(name, gid);
            let apart = hex_value(id.subrange(8, 16)) - hex_value(id.subrange(0, 8));
            apart % 0x1_0000_0000 == gid as int % 0x1_0000_0000
        }),
        forall|i: int| 16 <= i < 32 ==> b3dm::component_id(name, gid)[i] == '0',
        gid % 0x1_0000_0000 != at % 0x1_0000_0000 ==> b3dm::component_id(name, gid)
            != b3dm::component_id(other, at),
{
    lemma_parts(name, gid);
    lemma_parts(other, at);
}

/// The parts of an identifier.
proof fn lemma_parts(name: Seq<char>, gid: nat)
    ensures
        b3dm::component_id(name, gid).len() == 32,
        ({
            let id = b3dm::component_id(name, gid);
            let apart = hex_value(id.subrange(8, 16)) - hex_value(id.subrange(0, 8));
            apart % 0x1_0000_0000 == gid as int % 0x1_0000_0000
        }),
        forall|i: int| 16 <= i < 32 ==> b3dm::component_id(name, gid)[i] == '0',
{
    let id = b3dm::component_id(name, gid);
    let h = b3dm::hash(vstd::utf8::encode_utf8(b3dm::identity(name, gid))) as nat;
    let s = (h + gid % 0x1_0000_0000) % 0x1_0000_0000;
    assert(pow(16, 8) == 0x1_0000_0000) by {
        reveal(pow);
        reveal_with_fuel(pow, 9);
    }
    law_hex_read_back(h, 8);
    law_hex_read_back(s, 8);
    law_hex_read_back(0, 8);
    lemma_zeros(8);
    assert(id.subrange(0, 8) =~= text::hex(h, 8));
    assert(id.subrange(8, 16) =~= text::hex(s, 8));
    assert forall|i: int| 16 <= i < 32 implies id[i] == '0' by {
        if i < 24 {
            assert(id[i] == text::hex(0, 8)[i - 16]);
        } else {
            assert(id[i] == text::hex(0, 8)[i - 24]);
        }
    }
}

/// Nothing is written as zeros.
proof fn lemma_zeros(k: nat)
    ensures
        text::hex(0, k).len() == k,
        forall|i: int| 0 <= i < k ==> text::hex(0, k)[i] == '0',
    decreases k,
{
    if k > 0 {
        lemma_zeros((k - 1) as nat);
        assert(text::hex(0, k) =~= text::hex(0, (k - 1) as nat).push('0'));
    }
}

} // verus!
