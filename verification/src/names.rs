//! Lists of names, grouped and in order.

use vstd::prelude::*;
use vstd::utf8::*;

verus! {

/// Whether `a` comes before `b`: at the first byte in which they differ it has the
/// smaller one, or it ends there.
pub open spec fn bytes_before(a: Seq<u8>, b: Seq<u8>) -> bool
    decreases a.len(),
{
    if b.len() == 0 {
        false
    } else if a.len() == 0 {
        true
    } else if a[0] != b[0] {
        a[0] < b[0]
    } else {
        bytes_before(a.skip(1), b.skip(1))
    }
}

/// Of two runs of bytes one comes before the other, or they are equal.
proof fn lemma_trichotomy(a: Seq<u8>, b: Seq<u8>)
    ensures
        bytes_before(a, b) || bytes_before(b, a) || a == b,
        !(bytes_before(a, b) && bytes_before(b, a)),
        a == b ==> !bytes_before(a, b),
    decreases a.len(),
{
    if a.len() > 0 && b.len() > 0 && a[0] == b[0] {
        lemma_trichotomy(a.skip(1), b.skip(1));
        if a.skip(1) == b.skip(1) {
            assert(a =~= seq![a[0]] + a.skip(1));
            assert(b =~= seq![b[0]] + b.skip(1));
        }
    } else if a.len() == 0 && b.len() == 0 {
        assert(a =~= b);
    }
}

/// What comes before a run that comes before another comes before that one.
proof fn lemma_transitive(a: Seq<u8>, b: Seq<u8>, c: Seq<u8>)
    requires
        bytes_before(a, b),
        bytes_before(b, c),
    ensures
        bytes_before(a, c),
    decreases a.len(),
{
    if a.len() > 0 && a[0] == b[0] && b[0] == c[0] {
        lemma_transitive(a.skip(1), b.skip(1), c.skip(1));
    }
}

/// How two names stand to each other.
#[derive(Clone, Copy, Debug, PartialEq, Eq, Structural)]
enum Place {
    Before,
    Same,
    After,
}

/// How two names stand to each other, by their bytes.
fn place(a: &[u8], b: &[u8]) -> (r: Place)
    ensures
        r == Place::Before <==> bytes_before(a@, b@),
        r == Place::After <==> bytes_before(b@, a@),
        r == Place::Same <==> a@ == b@,
{
    let mut i: usize = 0;
    proof {
        assert(a@.skip(0) =~= a@);
        assert(b@.skip(0) =~= b@);
        lemma_trichotomy(a@, b@);
    }
    while i < a.len() && i < b.len() && a[i] == b[i]
        invariant
            i <= a@.len(),
            i <= b@.len(),
            bytes_before(a@, b@) == bytes_before(a@.skip(i as int), b@.skip(i as int)),
            bytes_before(b@, a@) == bytes_before(b@.skip(i as int), a@.skip(i as int)),
        decreases a@.len() - i,
    {
        proof {
            assert(a@.skip(i as int).skip(1) =~= a@.skip(i + 1));
            assert(b@.skip(i as int).skip(1) =~= b@.skip(i + 1));
        }
        i = i + 1;
    }
    if i < b.len() {
        if i < a.len() {
            if a[i] < b[i] {
                Place::Before
            } else {
                Place::After
            }
        } else {
            Place::Before
        }
    } else if i < a.len() {
        Place::After
    } else {
        Place::Same
    }
}

/// The bytes of name `i`.
pub open spec fn name_bytes(names: Seq<String>, i: int) -> Seq<u8> {
    encode_utf8(names[i]@)
}

/// The name of a group, which is that of its first member.
pub open spec fn group_name(names: Seq<String>, g: Vec<usize>) -> Seq<u8> {
    name_bytes(names, g@[0] as int)
}

/// Whether a group is of equal names among the first `n`, in their order.
pub open spec fn is_group(names: Seq<String>, g: Vec<usize>, n: int) -> bool {
    &&& g@.len() > 0
    &&& forall|k: int| 0 <= k < g@.len() ==> (#[trigger] g@[k]) < n
    &&& forall|k: int|
        0 <= k < g@.len() ==> name_bytes(names, (#[trigger] g@[k]) as int) == group_name(names, g)
    &&& forall|k: int, m: int| 0 <= k < m < g@.len() ==> (#[trigger] g@[k]) < (#[trigger] g@[m])
}

/// Whether a group has the member `i`.
pub open spec fn listed(groups: Seq<Vec<usize>>, i: int) -> bool {
    exists|g: int|
        #![trigger groups[g]]
        0 <= g < groups.len() && groups[g]@.contains(i as usize)
}

/// Whether `groups` are the first `n` names, equal ones together, in the order of the
/// names.
pub open spec fn is_grouping(names: Seq<String>, groups: Seq<Vec<usize>>, n: int) -> bool {
    &&& forall|g: int| 0 <= g < groups.len() ==> is_group(names, #[trigger] groups[g], n)
    &&& forall|g: int, h: int|
        0 <= g < h < groups.len() ==> bytes_before(
            group_name(names, #[trigger] groups[g]),
            group_name(names, #[trigger] groups[h]),
        )
    &&& forall|i: int| 0 <= i < n ==> #[trigger] listed(groups, i)
}

/// The place for name `i` among the groups: the first group that does not come before
/// it, and whether that group is of this name.
fn find_group(names: &Vec<String>, groups: &Vec<Vec<usize>>, i: usize) -> (r: (usize, bool))
    requires
        i < names@.len(),
        is_grouping(names@, groups@, i as int),
    ensures
        r.0 <= groups@.len(),
        forall|g: int|
            0 <= g < r.0 ==> bytes_before(
                group_name(names@, #[trigger] groups@[g]),
                name_bytes(names@, i as int),
            ),
        r.1 ==> r.0 < groups@.len() && group_name(names@, groups@[r.0 as int]) == name_bytes(
            names@,
            i as int,
        ),
        !r.1 ==> forall|g: int|
            r.0 <= g < groups@.len() ==> bytes_before(
                name_bytes(names@, i as int),
                group_name(names@, #[trigger] groups@[g]),
            ),
{
    let mut p: usize = 0;
    while p < groups.len()
        invariant
            p <= groups@.len(),
            i < names@.len(),
            is_grouping(names@, groups@, i as int),
            forall|g: int|
                0 <= g < p ==> bytes_before(
                    group_name(names@, #[trigger] groups@[g]),
                    name_bytes(names@, i as int),
                ),
        decreases groups@.len() - p,
    {
        proof {
            assert(is_group(names@, groups@[p as int], i as int));
            assert(groups@[p as int]@[0] < i);
        }
        let first: usize = groups[p][0];
        match place(names[first].as_str().as_bytes(), names[i].as_str().as_bytes()) {
            Place::Before => {},
            Place::Same => {
                return (p, true);
            },
            Place::After => {
                proof {
                    let x = name_bytes(names@, i as int);
                    assert forall|g: int| p <= g < groups@.len() implies bytes_before(
                        x,
                        group_name(names@, #[trigger] groups@[g]),
                    ) by {
                        if g > p {
                            lemma_transitive(
                                x,
                                group_name(names@, groups@[p as int]),
                                group_name(names@, groups@[g]),
                            );
                        }
                    }
                }
                return (p, false);
            },
        }
        p = p + 1;
    }
    (p, false)
}

/// The names, equal ones together, in the order of the names: each group lists where its
/// name stands.
pub fn group_names(names: &Vec<String>) -> (r: Vec<Vec<usize>>)
    ensures
        is_grouping(names@, r@, names@.len() as int),
{
    let mut groups: Vec<Vec<usize>> = Vec::new();
    let mut i: usize = 0;
    while i < names.len()
        invariant
            i <= names@.len(),
            is_grouping(names@, groups@, i as int),
        decreases names@.len() - i,
    {
        let (p, same): (usize, bool) = find_group(names, &groups, i);
        let ghost before = groups@;
        if same {
            proof {
                assert(is_group(names@, before[p as int], i as int));
            }
            groups[p].push(i);
            proof {
                lemma_added(names@, before, groups@, p as int, i as int);
            }
        } else {
            let mut g: Vec<usize> = Vec::new();
            g.push(i);
            let ghost new_group = g;
            groups.insert(p, g);
            proof {
                lemma_inserted(names@, before, groups@, new_group, p as int, i as int);
            }
        }
        i = i + 1;
    }
    groups
}

proof fn lemma_added(
    names: Seq<String>,
    before: Seq<Vec<usize>>,
    after: Seq<Vec<usize>>,
    p: int,
    i: int,
)
    requires
        0 <= i <= usize::MAX,
        is_grouping(names, before, i),
        0 <= p < before.len(),
        after.len() == before.len(),
        forall|g: int| 0 <= g < before.len() && g != p ==> #[trigger] after[g] == before[g],
        after[p]@ == before[p]@.push(i as usize),
        group_name(names, before[p]) == name_bytes(names, i),
    ensures
        is_grouping(names, after, i + 1),
{
    assert(is_group(names, before[p], i));
    assert(group_name(names, after[p]) == group_name(names, before[p]));
    assert forall|g: int| 0 <= g < after.len() implies is_group(
        names,
        #[trigger] after[g],
        i + 1,
    ) by {
        assert(is_group(names, before[g], i));
        if g == p {
            let a = after[p];
            assert forall|k: int| 0 <= k < a@.len() implies (#[trigger] a@[k]) < i + 1
                && name_bytes(names, a@[k] as int) == group_name(names, a) by {
                if k < before[p]@.len() {
                    assert(a@[k] == before[p]@[k]);
                }
            }
            assert forall|k: int, m: int| 0 <= k < m < a@.len() implies (#[trigger] a@[k]) < (
            #[trigger] a@[m]) by {
                assert(a@[k] == before[p]@[k]);
                if m < before[p]@.len() {
                    assert(a@[m] == before[p]@[m]);
                }
            }
        }
    }
    assert forall|g: int, h: int| 0 <= g < h < after.len() implies bytes_before(
        group_name(names, #[trigger] after[g]),
        group_name(names, #[trigger] after[h]),
    ) by {
        assert(bytes_before(group_name(names, before[g]), group_name(names, before[h])));
    }
    assert forall|j: int| 0 <= j < i + 1 implies #[trigger] listed(after, j) by {
        if j < i {
            assert(listed(before, j));
            let g = choose|g: int|
                #![trigger before[g]]
                0 <= g < before.len() && before[g]@.contains(j as usize);
            let k = choose|k: int| 0 <= k < before[g]@.len() && before[g]@[k] == j as usize;
            assert(after[g]@[k] == j as usize);
            assert(after[g]@.contains(j as usize));
        } else {
            assert(after[p]@[before[p]@.len() as int] == i as usize);
            assert(after[p]@.contains(i as usize));
        }
    }
}

proof fn lemma_inserted(
    names: Seq<String>,
    before: Seq<Vec<usize>>,
    after: Seq<Vec<usize>>,
    new_group: Vec<usize>,
    p: int,
    i: int,
)
    requires
        0 <= i <= usize::MAX,
        is_grouping(names, before, i),
        0 <= p <= before.len(),
        after == before.insert(p, new_group),
        new_group@ == seq![i as usize],
        forall|g: int|
            0 <= g < p ==> bytes_before(
                group_name(names, #[trigger] before[g]),
                name_bytes(names, i),
            ),
        forall|g: int|
            p <= g < before.len() ==> bytes_before(
                name_bytes(names, i),
                group_name(names, #[trigger] before[g]),
            ),
    ensures
        is_grouping(names, after, i + 1),
{
    let old_place = |g: int| if g < p { g } else { g - 1 };
    assert forall|g: int| 0 <= g < after.len() && g != p implies #[trigger] after[g]
        == before[old_place(g)] by {}
    assert(after[p] == new_group);
    assert forall|g: int| 0 <= g < after.len() implies is_group(
        names,
        #[trigger] after[g],
        i + 1,
    ) by {
        if g != p {
            assert(is_group(names, before[old_place(g)], i));
        }
    }
    assert forall|g: int, h: int| 0 <= g < h < after.len() implies bytes_before(
        group_name(names, #[trigger] after[g]),
        group_name(names, #[trigger] after[h]),
    ) by {
        if g != p && h != p {
            assert(bytes_before(
                group_name(names, before[old_place(g)]),
                group_name(names, before[old_place(h)]),
            ));
        } else if g == p {
            assert(bytes_before(name_bytes(names, i), group_name(names, before[h - 1])));
        } else {
            assert(bytes_before(group_name(names, before[g]), name_bytes(names, i)));
        }
    }
    assert forall|j: int| 0 <= j < i + 1 implies #[trigger] listed(after, j) by {
        if j < i {
            assert(listed(before, j));
            let g = choose|g: int|
                #![trigger before[g]]
                0 <= g < before.len() && before[g]@.contains(j as usize);
            let h = if g < p { g } else { g + 1 };
            assert(after[h] == before[g]);
            assert(after[h]@.contains(j as usize));
        } else {
            assert(new_group@[0] == i as usize);
            assert(after[p]@.contains(i as usize));
        }
    }
}

} // verus!
