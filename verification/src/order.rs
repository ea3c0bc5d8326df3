//! Orders: sorted lists of indices, and the order of numbers.

use crate::float::F64;
use crate::ieee;
use vstd::prelude::*;

verus! {

/// Whether `a` comes before `b`, or is `b`: by the first component, then by the
/// second.
pub open spec fn pair_le(a: (u64, usize), b: (u64, usize)) -> bool {
    a.0 < b.0 || (a.0 == b.0 && a.1 <= b.1)
}

/// Whether no pair comes before an earlier one.
pub open spec fn ascending(s: Seq<(u64, usize)>) -> bool {
    forall|i: int, j: int| 0 <= i < j < s.len() ==> pair_le(#[trigger] s[i], #[trigger] s[j])
}

/// Whether every element is larger than those before it.
pub open spec fn increasing(s: Seq<usize>) -> bool {
    forall|i: int, j: int| 0 <= i < j < s.len() ==> #[trigger] s[i] < #[trigger] s[j]
}

/// Whether `r` is the elements of `s`, each once, in increasing order.
pub open spec fn is_sorted_set(r: Seq<usize>, s: Seq<usize>) -> bool {
    increasing(r) && forall|x: usize| #[trigger] r.contains(x) <==> s.contains(x)
}

/// The elements of `s`, each once, in increasing order.
pub open spec fn sorted_set(s: Seq<usize>) -> Seq<usize> {
    choose|r: Seq<usize>| is_sorted_set(r, s)
}

/// There is one increasing sequence of given elements.
proof fn lemma_increasing_unique(a: Seq<usize>, b: Seq<usize>)
    requires
        increasing(a),
        increasing(b),
        forall|x: usize| #[trigger] a.contains(x) <==> b.contains(x),
    ensures
        a == b,
    decreases a.len(),
{
    if a.len() == 0 {
        if b.len() > 0 {
            assert(b.contains(b[0]));
            assert(a.contains(b[0]));
        }
        assert(a =~= b);
    } else {
        assert(a.contains(a.last()));
        assert(b.contains(a.last()));
        assert(b.contains(b.last()));
        assert(a.contains(b.last()));
        let i = choose|i: int| 0 <= i < a.len() && a[i] == b.last();
        let j = choose|j: int| 0 <= j < b.len() && b[j] == a.last();
        assert(a.last() == b.last());
        let a1 = a.drop_last();
        let b1 = b.drop_last();
        assert forall|x: usize| #[trigger] a1.contains(x) <==> b1.contains(x) by {
            if a1.contains(x) {
                let k = choose|k: int| 0 <= k < a1.len() && a1[k] == x;
                assert(a[k] == x);
                assert(a.contains(x));
                assert(b.contains(x));
                let m = choose|m: int| 0 <= m < b.len() && b[m] == x;
                assert(a[k] < a[a.len() - 1]);
                assert(b1[m] == x);
            }
            if b1.contains(x) {
                let k = choose|k: int| 0 <= k < b1.len() && b1[k] == x;
                assert(b[k] == x);
                assert(b.contains(x));
                assert(a.contains(x));
                let m = choose|m: int| 0 <= m < a.len() && a[m] == x;
                assert(b[k] < b[b.len() - 1]);
                assert(a1[m] == x);
            }
        }
        lemma_increasing_unique(a1, b1);
        assert(a =~= a1.push(a.last()));
        assert(b =~= b1.push(b.last()));
    }
}

/// An increasing sequence of the elements of `s` is the sorted set of `s`.
pub proof fn lemma_sorted_set(r: Seq<usize>, s: Seq<usize>)
    requires
        is_sorted_set(r, s),
    ensures
        sorted_set(s) == r,
{
    let t = sorted_set(s);
    assert(is_sorted_set(t, s));
    lemma_increasing_unique(t, r);
}

/// Sorts the pairs in place.
///
/// Calls the standard library's `sort_unstable` on a vector of integer pairs: what
/// comes out are the same pairs, each as often, in lexicographic order.
#[verifier::external_body]
fn sort_pairs(v: &mut Vec<(u64, usize)>)
    ensures
        ascending(final(v)@),
        final(v)@.to_multiset() == old(v)@.to_multiset(),
{
    v.sort_unstable();
}

/// The pairs in ascending order.
pub fn sorted_pairs(pairs: Vec<(u64, usize)>) -> (r: Vec<(u64, usize)>)
    ensures
        ascending(r@),
        r@.len() == pairs@.len(),
        r@.to_multiset() == pairs@.to_multiset(),
        forall|x: (u64, usize)| #[trigger] r@.contains(x) <==> pairs@.contains(x),
        pairs@.no_duplicates() ==> r@.no_duplicates(),
{
    let mut r: Vec<(u64, usize)> = pairs;
    sort_pairs(&mut r);
    proof {
        broadcast use vstd::seq_lib::group_to_multiset_ensures;

        assert(r@.len() == r@.to_multiset().len());
        assert(pairs@.len() == pairs@.to_multiset().len());
        if pairs@.no_duplicates() {
            pairs@.lemma_multiset_has_no_duplicates();
            r@.lemma_multiset_has_no_duplicates_conv();
        }
        assert forall|x: (u64, usize)| #[trigger] r@.contains(x) <==> pairs@.contains(x) by {
            assert(r@.contains(x) <==> r@.to_multiset().count(x) > 0);
            assert(pairs@.contains(x) <==> pairs@.to_multiset().count(x) > 0);
        }
    }
    r
}

/// The elements of `ids`, each once, in increasing order.
pub fn sorted_unique(ids: &Vec<usize>) -> (r: Vec<usize>)
    ensures
        r@ == sorted_set(ids@),
        is_sorted_set(r@, ids@),
{
    let mut pairs: Vec<(u64, usize)> = Vec::new();
    let mut i: usize = 0;
    while i < ids.len()
        invariant
            i <= ids@.len(),
            pairs@.len() == i,
            forall|k: int| 0 <= k < i ==> #[trigger] pairs@[k] == (0u64, ids@[k]),
        decreases ids@.len() - i,
    {
        pairs.push((0, ids[i]));
        i = i + 1;
    }
    let ghost before = pairs@;
    let sorted: Vec<(u64, usize)> = sorted_pairs(pairs);
    let mut out: Vec<usize> = Vec::new();
    proof {
        assert forall|k: int| 0 <= k < sorted@.len() implies (#[trigger] sorted@[k]).0 == 0
            && ids@.contains(sorted@[k].1) by {
            assert(sorted@.contains(sorted@[k]));
            let j = choose|j: int| 0 <= j < before.len() && before[j] == sorted@[k];
            assert(ids@[j] == sorted@[k].1);
        }
    }
    let mut n: usize = 0;
    while n < sorted.len()
        invariant
            n <= sorted@.len(),
            ascending(sorted@),
            forall|k: int| 0 <= k < sorted@.len() ==> (#[trigger] sorted@[k]).0 == 0
                && ids@.contains(sorted@[k].1),
            increasing(out@),
            n > 0 ==> out@.len() > 0 && out@.last() == sorted@[n - 1].1,
            n == 0 ==> out@.len() == 0,
            forall|k: int| 0 <= k < n ==> out@.contains((#[trigger] sorted@[k]).1),
            forall|x: usize| #[trigger] out@.contains(x) ==> ids@.contains(x),
        decreases sorted@.len() - n,
    {
        let x: usize = sorted[n].1;
        let ghost prev = out@;
        if out.len() == 0 || out[out.len() - 1] != x {
            proof {
                if n > 0 {
                    assert(pair_le(sorted@[n - 1], sorted@[n as int]));
                    assert(prev.last() < x);
                }
                assert(ids@.contains(sorted@[n as int].1));
            }
            out.push(x);
            proof {
                assert(out@[out@.len() - 1] == x);
                assert forall|y: usize| #[trigger] out@.contains(y) implies ids@.contains(y) by {
                    let k = choose|k: int| 0 <= k < out@.len() && out@[k] == y;
                    if k < prev.len() {
                        assert(prev[k] == y);
                        assert(prev.contains(y));
                    }
                }
                assert forall|k: int| 0 <= k < n + 1 implies out@.contains(
                    (#[trigger] sorted@[k]).1,
                ) by {
                    if k < n {
                        assert(prev.contains(sorted@[k].1));
                        let m = choose|m: int| 0 <= m < prev.len() && prev[m] == sorted@[k].1;
                        assert(out@[m] == sorted@[k].1);
                    }
                }
            }
        } else {
            proof {
                assert(out@[out@.len() - 1] == x);
            }
        }
        n = n + 1;
    }
    proof {
        assert forall|x: usize| #[trigger] out@.contains(x) <==> ids@.contains(x) by {
            if ids@.contains(x) {
                let j = choose|j: int| 0 <= j < ids@.len() && ids@[j] == x;
                assert(before[j] == (0u64, x));
                assert(before.contains((0u64, x)));
                assert(sorted@.contains((0u64, x)));
                let k = choose|k: int| 0 <= k < sorted@.len() && sorted@[k] == (0u64, x);
                assert(out@.contains(sorted@[k].1));
            }
        }
        lemma_sorted_set(out@, ids@);
    }
    out
}

/// Whether index `a` of `keys` comes before index `b`: by the key, and between equal
/// keys by the index.
pub open spec fn key_before(keys: Seq<u64>, a: usize, b: usize) -> bool {
    keys[a as int] < keys[b as int] || (keys[a as int] == keys[b as int] && a < b)
}

/// Whether `r` is the indices of the keys below `bound`, by key, and between equal
/// keys by index.
pub open spec fn is_order(keys: Seq<u64>, bound: int, r: Seq<usize>) -> bool {
    &&& forall|i: usize| #[trigger] r.contains(i) <==> i < keys.len() && keys[i as int] < bound
    &&& forall|i: int, j: int|
        0 <= i < j < r.len() ==> key_before(keys, #[trigger] r[i], #[trigger] r[j])
}

/// The indices of the keys below `bound`, by key, and between equal keys by index.
pub open spec fn order_of(keys: Seq<u64>, bound: int) -> Seq<usize> {
    choose|r: Seq<usize>| is_order(keys, bound, r)
}

/// There is one order of given indices.
proof fn lemma_order_unique(keys: Seq<u64>, a: Seq<usize>, b: Seq<usize>)
    requires
        forall|i: int, j: int|
            0 <= i < j < a.len() ==> key_before(keys, #[trigger] a[i], #[trigger] a[j]),
        forall|i: int, j: int|
            0 <= i < j < b.len() ==> key_before(keys, #[trigger] b[i], #[trigger] b[j]),
        forall|x: usize| #[trigger] a.contains(x) <==> b.contains(x),
    ensures
        a == b,
    decreases a.len(),
{
    if a.len() == 0 {
        if b.len() > 0 {
            assert(b.contains(b[0]));
            assert(a.contains(b[0]));
        }
        assert(a =~= b);
    } else {
        assert(a.contains(a.last()));
        assert(b.contains(a.last()));
        assert(b.contains(b.last()));
        assert(a.contains(b.last()));
        let i = choose|i: int| 0 <= i < a.len() && a[i] == b.last();
        let j = choose|j: int| 0 <= j < b.len() && b[j] == a.last();
        assert(a.last() == b.last());
        let a1 = a.drop_last();
        let b1 = b.drop_last();
        assert forall|x: usize| #[trigger] a1.contains(x) <==> b1.contains(x) by {
            if a1.contains(x) {
                let k = choose|k: int| 0 <= k < a1.len() && a1[k] == x;
                assert(a[k] == x);
                assert(a.contains(x));
                assert(b.contains(x));
                let m = choose|m: int| 0 <= m < b.len() && b[m] == x;
                assert(key_before(keys, a[k], a[a.len() - 1]));
                assert(b1[m] == x);
            }
            if b1.contains(x) {
                let k = choose|k: int| 0 <= k < b1.len() && b1[k] == x;
                assert(b[k] == x);
                assert(b.contains(x));
                assert(a.contains(x));
                let m = choose|m: int| 0 <= m < a.len() && a[m] == x;
                assert(key_before(keys, b[k], b[b.len() - 1]));
                assert(a1[m] == x);
            }
        }
        lemma_order_unique(keys, a1, b1);
        assert(a =~= a1.push(a.last()));
        assert(b =~= b1.push(b.last()));
    }
}

/// An order of indices is the order of them.
pub proof fn lemma_order_of(keys: Seq<u64>, bound: int, r: Seq<usize>)
    requires
        is_order(keys, bound, r),
    ensures
        order_of(keys, bound) == r,
{
    let t = order_of(keys, bound);
    assert(is_order(keys, bound, t));
    assert forall|x: usize| #[trigger] t.contains(x) <==> r.contains(x) by {
        assert(t.contains(x) <==> x < keys.len() && keys[x as int] < bound);
        assert(r.contains(x) <==> x < keys.len() && keys[x as int] < bound);
    }
    lemma_order_unique(keys, t, r);
}

/// Keys that are all below `bound` have an order, of all their indices.
pub proof fn lemma_order_exists(keys: Seq<u64>, bound: int)
    requires
        keys.len() <= usize::MAX,
        forall|i: int| 0 <= i < keys.len() ==> #[trigger] keys[i] < bound,
    ensures
        is_order(keys, bound, order_of(keys, bound)),
        order_of(keys, bound).len() == keys.len(),
{
    broadcast use vstd::seq_lib::group_to_multiset_ensures;

    let leq = |a: usize, b: usize| a == b || key_before(keys, a, b);
    let all = Seq::new(keys.len(), |i: int| i as usize);
    let r = all.sort_by(leq);
    all.lemma_sort_by_ensures(leq);
    assert(r.len() == r.to_multiset().len());
    assert(all.len() == all.to_multiset().len());
    all.lemma_multiset_has_no_duplicates();
    r.lemma_multiset_has_no_duplicates_conv();
    assert forall|x: usize| #[trigger] r.contains(x) <==> x < keys.len() && keys[x as int]
        < bound by {
        assert(r.contains(x) <==> r.to_multiset().count(x) > 0);
        assert(all.contains(x) <==> all.to_multiset().count(x) > 0);
        if x < keys.len() {
            assert(all[x as int] == x);
        }
    }
    assert forall|i: int, j: int| 0 <= i < j < r.len() implies key_before(
        keys,
        #[trigger] r[i],
        #[trigger] r[j],
    ) by {
        assert(leq(r[i], r[j]));
    }
    lemma_order_of(keys, bound, r);
}

/// The indices of the keys below `bound`, by key, and between equal keys by index.
pub fn order_below(keys: &Vec<u64>, bound: u128) -> (r: Vec<usize>)
    ensures
        is_order(keys@, bound as int, r@),
        r@ == order_of(keys@, bound as int),
{
    let mut pairs: Vec<(u64, usize)> = Vec::new();
    let mut i: usize = 0;
    while i < keys.len()
        invariant
            i <= keys@.len(),
            forall|k: int|
                0 <= k < pairs@.len() ==> (#[trigger] pairs@[k]).1 < i && pairs@[k].0
                    == keys@[pairs@[k].1 as int] && pairs@[k].0 < bound,
            forall|k: int, m: int|
                0 <= k < m < pairs@.len() ==> (#[trigger] pairs@[k]).1 < (#[trigger] pairs@[m]).1,
            forall|k: int|
                0 <= k < i && keys@[k] < bound ==> pairs@.contains((#[trigger] keys@[k], k as usize)),
        decreases keys@.len() - i,
    {
        let ghost prev = pairs@;
        if (keys[i] as u128) < bound {
            pairs.push((keys[i], i));
            proof {
                assert(pairs@[prev.len() as int] == (keys@[i as int], i));
                assert forall|k: int| 0 <= k < i + 1 && keys@[k] < bound implies pairs@.contains(
                    (#[trigger] keys@[k], k as usize),
                ) by {
                    if k < i {
                        assert(prev.contains((keys@[k], k as usize)));
                        let m = choose|m: int| 0 <= m < prev.len() && prev[m] == (keys@[k], k as usize);
                        assert(pairs@[m] == (keys@[k], k as usize));
                    }
                }
            }
        }
        i = i + 1;
    }
    let ghost before = pairs@;
    let sorted: Vec<(u64, usize)> = sorted_pairs(pairs);
    proof {
        assert forall|k: int| 0 <= k < sorted@.len() implies (#[trigger] sorted@[k]).1 < keys@.len()
            && sorted@[k].0 == keys@[sorted@[k].1 as int] && sorted@[k].0 < bound by {
            assert(sorted@.contains(sorted@[k]));
            let j = choose|j: int| 0 <= j < before.len() && before[j] == sorted@[k];
        }
    }
    let mut out: Vec<usize> = Vec::new();
    let mut n: usize = 0;
    while n < sorted.len()
        invariant
            n <= sorted@.len(),
            out@.len() == n,
            forall|k: int| 0 <= k < n ==> #[trigger] out@[k] == sorted@[k].1,
        decreases sorted@.len() - n,
    {
        out.push(sorted[n].1);
        n = n + 1;
    }
    proof {
        assert forall|x: usize| #[trigger] out@.contains(x) <==> x < keys@.len() && keys@[x as int]
            < bound by {
            if out@.contains(x) {
                let k = choose|k: int| 0 <= k < out@.len() && out@[k] == x;
                assert(sorted@[k].1 == x);
            }
            if x < keys@.len() && keys@[x as int] < bound {
                assert(before.contains((keys@[x as int], x)));
                assert(sorted@.contains((keys@[x as int], x)));
                let k = choose|k: int| 0 <= k < sorted@.len() && sorted@[k] == (keys@[x as int], x);
                assert(out@[k] == x);
            }
        }
        assert forall|a: int, b: int| 0 <= a < b < out@.len() implies key_before(
            keys@,
            #[trigger] out@[a],
            #[trigger] out@[b],
        ) by {
            assert(pair_le(sorted@[a], sorted@[b]));
            assert(sorted@[a] != sorted@[b]);
        }
        lemma_order_of(keys@, bound as int, out@);
    }
    out
}

/// A number that orders as `x` does among numbers: equal on zeros of both signs.
pub open spec fn spec_sort_key(x: F64) -> u64 {
    if x.bits >= 0x8000_0000_0000_0000 {
        (0x1_0000_0000_0000_0000 - x.bits) as u64
    } else {
        (0x8000_0000_0000_0000 + x.bits) as u64
    }
}

/// A number that orders as `x` does among numbers: equal on zeros of both signs.
#[verifier::when_used_as_spec(spec_sort_key)]
pub fn sort_key(x: F64) -> (r: u64)
    ensures
        r == spec_sort_key(x),
{
    if x.bits >= 0x8000_0000_0000_0000 {
        (0x1_0000_0000_0000_0000u128 - x.bits as u128) as u64
    } else {
        0x8000_0000_0000_0000 + x.bits
    }
}

/// Sort keys order as the numbers do.
pub proof fn law_sort_key(x: F64, y: F64)
    requires
        !x.nan(),
        !y.nan(),
    ensures
        x.lt(y) <==> sort_key(x) < sort_key(y),
        x.same(y) <==> sort_key(x) == sort_key(y),
{
    reveal(F64::rank);
    ieee::lemma_value_order(ieee::double(), x.bits, y.bits);
    ieee::lemma_value_order(ieee::double(), y.bits, x.bits);
}

/// The keys below any bound have an order.
pub proof fn lemma_order_below_exists(keys: Seq<u64>, bound: int)
    requires
        keys.len() <= usize::MAX,
    ensures
        is_order(keys, bound, order_of(keys, bound)),
{
    let top: int = 0x1_0000_0000_0000_0000;
    lemma_order_exists(keys, top);
    let all = order_of(keys, top);
    let m = lemma_cut(keys, all, bound, all.len() as int);
    let r = all.take(m);
    assert forall|x: usize| #[trigger] r.contains(x) <==> x < keys.len() && keys[x as int] < bound by {
        assert(all.contains(x) <==> x < keys.len() && keys[x as int] < top);
        if r.contains(x) {
            let i = choose|i: int| 0 <= i < r.len() && r[i] == x;
            assert(all[i] == x);
            assert(keys[all[i] as int] < bound);
        }
        if x < keys.len() && keys[x as int] < bound {
            let i = choose|i: int| 0 <= i < all.len() && all[i] == x;
            assert(keys[all[i] as int] < bound);
            assert(r[i] == x);
        }
    }
    assert forall|i: int, j: int| 0 <= i < j < r.len() implies key_before(
        keys,
        #[trigger] r[i],
        #[trigger] r[j],
    ) by {
        assert(key_before(keys, all[i], all[j]));
    }
    assert(is_order(keys, bound, r));
}

/// Where, in an order, the keys reach `bound`.
proof fn lemma_cut(keys: Seq<u64>, r: Seq<usize>, bound: int, n: int) -> (m: int)
    requires
        0 <= n <= r.len(),
        forall|i: int, j: int|
            0 <= i < j < r.len() ==> key_before(keys, #[trigger] r[i], #[trigger] r[j]),
        forall|i: int| n <= i < r.len() ==> keys[#[trigger] r[i] as int] >= bound,
    ensures
        0 <= m <= r.len(),
        forall|i: int| 0 <= i < m ==> keys[#[trigger] r[i] as int] < bound,
        forall|i: int| m <= i < r.len() ==> keys[#[trigger] r[i] as int] >= bound,
    decreases n,
{
    if n == 0 {
        0
    } else if keys[r[n - 1] as int] < bound {
        assert forall|i: int| 0 <= i < n implies keys[#[trigger] r[i] as int] < bound by {
            if i < n - 1 {
                assert(key_before(keys, r[i], r[n - 1]));
            }
        }
        n
    } else {
        lemma_cut(keys, r, bound, n - 1)
    }
}

} // verus!
