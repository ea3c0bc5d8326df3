//! Where textures are looked for, and in what order.

use crate::texture;
use crate::texture::{DirEntry, SearchPlace};
use vstd::prelude::*;

verus! {

/// Whether the place `p` is looked at before the place `q`: directories before the entries
/// of any, nearer ones before farther ones, and entries as they stand.
pub open spec fn sooner(p: SearchPlace, q: SearchPlace) -> bool {
    match (p, q) {
        (SearchPlace::Given(i), SearchPlace::Given(j)) => i < j,
        (SearchPlace::Given(_), SearchPlace::Within(_, _)) => true,
        (SearchPlace::Within(_, _), SearchPlace::Given(_)) => false,
        (SearchPlace::Within(d, e), SearchPlace::Within(f, g)) => d < f || (d == f && e < g),
    }
}

/// Whether entry `e` of directory `d` is a directory whose name ends in `.fbm`, whatever the
/// case.
pub open spec fn has_media(dirs: Seq<Vec<DirEntry>>, d: int, e: int) -> bool {
    &&& 0 <= d < dirs.len()
    &&& 0 <= e < dirs[d]@.len()
    &&& dirs[d]@[e].is_dir
    &&& dirs[d]@[e].extension is Some
    &&& texture::lowercase(dirs[d]@[e].extension->0@) == "fbm"@
}

/// The first two directories are searched, and the directories with media that they hold,
/// and no others; each once, and in the order of `sooner`.
pub proof fn law_search_order(dirs: Seq<Vec<DirEntry>>)
    requires
        dirs.len() <= usize::MAX,
    ensures
        forall|i: usize|
            #[trigger] texture::places(dirs).contains(SearchPlace::Given(i)) <==> i < 2 && i
                < dirs.len(),
        forall|d: usize, e: usize|
            #[trigger] texture::places(dirs).contains(SearchPlace::Within(d, e)) <==> d < 2
                && has_media(dirs, d as int, e as int),
        forall|a: int, b: int|
            0 <= a < b < texture::places(dirs).len() ==> sooner(
                #[trigger] texture::places(dirs)[a],
                #[trigger] texture::places(dirs)[b],
            ),
{
    let n = texture::searched(dirs.len());
    let given = Seq::new(n, |i: int| SearchPlace::Given(i as usize));
    let media = texture::all_media(dirs, n);
    let all = texture::places(dirs);
    assert(all =~= given + media);
    lemma_media(dirs, n);
    assert forall|i: usize| i < 2 && i < dirs.len() implies #[trigger] all.contains(
        SearchPlace::Given(i),
    ) by {
        assert(all[i as int] == SearchPlace::Given(i));
    }
    assert forall|d: usize, e: usize|
        d < 2 && has_media(dirs, d as int, e as int) implies #[trigger] all.contains(
        SearchPlace::Within(d, e),
    ) by {
        let k = choose|k: int|
            0 <= k < media.len() && #[trigger] media[k] == SearchPlace::Within(d, e);
        assert(all[n + k] == SearchPlace::Within(d, e));
    }
    assert forall|p: SearchPlace| #[trigger] all.contains(p) implies match p {
        SearchPlace::Given(i) => i < 2 && i < dirs.len(),
        SearchPlace::Within(d, e) => d < 2 && has_media(dirs, d as int, e as int),
    } by {
        let k = choose|k: int| 0 <= k < all.len() && all[k] == p;
        if k >= n {
            assert(all[k] == media[k - n]);
        }
    }
    assert forall|a: int, b: int| 0 <= a < b < all.len() implies sooner(
        #[trigger] all[a],
        #[trigger] all[b],
    ) by {
        if b >= n {
            assert(all[b] == media[b - n]);
            if a >= n {
                assert(all[a] == media[a - n]);
            }
        }
    }
}

/// The directories with media in the first `n` directories.
proof fn lemma_media(dirs: Seq<Vec<DirEntry>>, n: nat)
    requires
        n <= dirs.len() <= usize::MAX,
    ensures
        forall|k: int|
            0 <= k < texture::all_media(dirs, n).len() ==> {
                let p = #[trigger] texture::all_media(dirs, n)[k];
                p is Within && p->Within_0 < n && has_media(
                    dirs,
                    p->Within_0 as int,
                    p->Within_1 as int,
                )
            },
        forall|d: usize, e: usize|
            #![trigger has_media(dirs, d as int, e as int)]
            d < n && has_media(dirs, d as int, e as int) ==> texture::all_media(dirs, n).contains(
                SearchPlace::Within(d, e),
            ),
        forall|a: int, b: int|
            0 <= a < b < texture::all_media(dirs, n).len() ==> sooner(
                #[trigger] texture::all_media(dirs, n)[a],
                #[trigger] texture::all_media(dirs, n)[b],
            ),
    decreases n,
{
    if n > 0 {
        let m = (n - 1) as nat;
        let before = texture::all_media(dirs, m);
        let own = texture::media_within(dirs[n - 1]@, m as usize, dirs[n - 1]@.len());
        let all = texture::all_media(dirs, n);
        lemma_media(dirs, m);
        lemma_within(dirs, n - 1, dirs[n - 1]@.len());
        assert(all =~= before + own);
        assert forall|k: int| 0 <= k < all.len() implies {
            let p = #[trigger] all[k];
            p is Within && p->Within_0 < n && has_media(
                dirs,
                p->Within_0 as int,
                p->Within_1 as int,
            )
        } by {
            if k < before.len() {
                assert(all[k] == before[k]);
            } else {
                assert(all[k] == own[k - before.len()]);
            }
        }
        assert forall|d: usize, e: usize|
            #![trigger has_media(dirs, d as int, e as int)]
            d < n && has_media(dirs, d as int, e as int) implies all.contains(
            SearchPlace::Within(d, e),
        ) by {
            let p = SearchPlace::Within(d, e);
            if d < m {
                let k = choose|k: int| 0 <= k < before.len() && before[k] == p;
                assert(all[k] == p);
            } else {
                let k = choose|k: int| 0 <= k < own.len() && own[k] == p;
                assert(all[before.len() + k] == p);
            }
        }
        assert forall|a: int, b: int| 0 <= a < b < all.len() implies sooner(
            #[trigger] all[a],
            #[trigger] all[b],
        ) by {
            let l = before.len() as int;
            if a < l {
                assert(all[a] == before[a]);
            } else {
                assert(all[a] == own[a - l]);
            }
            if b < l {
                assert(all[b] == before[b]);
            } else {
                assert(all[b] == own[b - l]);
            }
        }
    }
}

/// Those of the first `n` entries of directory `d` that keep media.
proof fn lemma_within(dirs: Seq<Vec<DirEntry>>, d: int, n: nat)
    requires
        0 <= d < dirs.len() <= usize::MAX,
        n <= dirs[d]@.len(),
    ensures
        forall|k: int|
            0 <= k < texture::media_within(dirs[d]@, d as usize, n).len() ==> {
                let p = #[trigger] texture::media_within(dirs[d]@, d as usize, n)[k];
                p is Within && p->Within_0 == d && p->Within_1 < n && has_media(
                    dirs,
                    d,
                    p->Within_1 as int,
                )
            },
        forall|e: usize|
            #![trigger has_media(dirs, d, e as int)]
            e < n && has_media(dirs, d, e as int) ==> texture::media_within(
                dirs[d]@,
                d as usize,
                n,
            ).contains(SearchPlace::Within(d as usize, e)),
        forall|a: int, b: int|
            0 <= a < b < texture::media_within(dirs[d]@, d as usize, n).len() ==> sooner(
                #[trigger] texture::media_within(dirs[d]@, d as usize, n)[a],
                #[trigger] texture::media_within(dirs[d]@, d as usize, n)[b],
            ),
    decreases n,
{
    if n > 0 {
        let m = (n - 1) as nat;
        let before = texture::media_within(dirs[d]@, d as usize, m);
        let all = texture::media_within(dirs[d]@, d as usize, n);
        let last = SearchPlace::Within(d as usize, m as usize);
        lemma_within(dirs, d, m);
        assert(dirs[d].len() == dirs[d]@.len());
        if texture::keeps_media(dirs[d]@[n - 1]) {
            assert(all == before.push(last));
            assert(all[before.len() as int] == last);
        }
        assert forall|e: usize|
            #![trigger has_media(dirs, d, e as int)]
            e < n && has_media(dirs, d, e as int) implies all.contains(
            SearchPlace::Within(d as usize, e),
        ) by {
            if e < m {
                let p = SearchPlace::Within(d as usize, e);
                let k = choose|k: int| 0 <= k < before.len() && before[k] == p;
                assert(all[k] == p);
            }
        }
    }
}

} // verus!
