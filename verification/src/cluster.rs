use std::collections::HashSet;
use vstd::prelude::*;

use crate::coarse::{exact_match, hashes_match_exactly, CoarseHashes};
use crate::phash::{are_hashes_similar, distances_fit, hashes_similar, HashError, PerceptualHashData};

verus! {

// ---------------------------------------------------------------------------
// Choosing non-overlapping clusters
// ---------------------------------------------------------------------------

/// The file ids of the clusters at positions `sel`.
pub open spec fn used_ids(clusters: Seq<Vec<i64>>, sel: Seq<usize>) -> Set<i64> {
    Set::new(
        |x: i64|
            exists|k: int| 0 <= k < sel.len() && (#[trigger] clusters[sel[k] as int])@.contains(x),
    )
}

/// No id of `c` is in `used`.
pub open spec fn disjoint_from(c: Seq<i64>, used: Set<i64>) -> bool {
    forall|t: int| 0 <= t < c.len() ==> !used.contains(#[trigger] c[t])
}

/// Walking the clusters in order, the positions of those that share no file
/// with a cluster taken before them.
pub open spec fn greedy_disjoint(clusters: Seq<Vec<i64>>) -> Seq<usize>
    decreases clusters.len(),
{
    if clusters.len() == 0 {
        Seq::empty()
    } else {
        let prev = greedy_disjoint(clusters.drop_last());
        if disjoint_from(clusters.last()@, used_ids(clusters.drop_last(), prev)) {
            prev.push((clusters.len() - 1) as usize)
        } else {
            prev
        }
    }
}

proof fn lemma_used_ids_prefix(clusters: Seq<Vec<i64>>, sel: Seq<usize>, n: int)
    requires
        0 <= n <= clusters.len(),
        forall|k: int| 0 <= k < sel.len() ==> (#[trigger] sel[k]) < n,
    ensures
        used_ids(clusters.take(n), sel) == used_ids(clusters, sel),
{
    assert forall|x: i64| used_ids(clusters.take(n), sel).contains(x) <==> used_ids(clusters, sel).contains(
        x,
    ) by {
        if used_ids(clusters, sel).contains(x) {
            let k = choose|k: int| 0 <= k < sel.len() && (#[trigger] clusters[sel[k] as int])@.contains(x);
            assert(clusters.take(n)[sel[k] as int] == clusters[sel[k] as int]);
        }
        if used_ids(clusters.take(n), sel).contains(x) {
            let k = choose|k: int| 0 <= k < sel.len() && (#[trigger] clusters.take(n)[sel[k] as int])@.contains(x);
            assert(clusters.take(n)[sel[k] as int] == clusters[sel[k] as int]);
        }
    }
    assert(used_ids(clusters.take(n), sel) =~= used_ids(clusters, sel));
}

proof fn lemma_greedy_disjoint_bounds(clusters: Seq<Vec<i64>>)
    requires
        clusters.len() <= usize::MAX,
    ensures
        forall|k: int| 0 <= k < greedy_disjoint(clusters).len() ==> (#[trigger] greedy_disjoint(clusters)[k])
            < clusters.len(),
        forall|k1: int, k2: int|
            0 <= k1 < k2 < greedy_disjoint(clusters).len() ==> (#[trigger] greedy_disjoint(clusters)[k1])
                < (#[trigger] greedy_disjoint(clusters)[k2]),
    decreases clusters.len(),
{
    if clusters.len() > 0 {
        let prefix = clusters.drop_last();
        lemma_greedy_disjoint_bounds(prefix);
        let prev = greedy_disjoint(prefix);
        if disjoint_from(clusters.last()@, used_ids(prefix, prev)) {
            assert(greedy_disjoint(clusters) == prev.push((clusters.len() - 1) as usize));
        } else {
            assert(greedy_disjoint(clusters) == prev);
        }
    }
}

/// Walking `clusters` (already sorted by decreasing confidence) in order,
/// the positions of the clusters that share no file id with a cluster kept
/// before them.
pub fn select_non_overlapping(clusters: &Vec<Vec<i64>>) -> (kept: Vec<usize>)
    ensures
        kept@ == greedy_disjoint(clusters@),
{
    broadcast use vstd::std_specs::hash::group_hash_axioms;

    let mut kept: Vec<usize> = Vec::new();
    let mut used: HashSet<i64> = HashSet::new();
    let mut i: usize = 0;
    while i < clusters.len()
        invariant
            0 <= i <= clusters@.len(),
            kept@ == greedy_disjoint(clusters@.take(i as int)),
            forall|x: i64| used@.contains(x) <==> used_ids(clusters@, kept@).contains(x),
        decreases clusters@.len() - i,
    {
        let c = &clusters[i];
        proof {
            lemma_greedy_disjoint_bounds(clusters@.take(i as int));
            assert(clusters@.take(i + 1).drop_last() =~= clusters@.take(i as int));
            assert(clusters@.take(i + 1).last() == clusters@[i as int]);
            lemma_used_ids_prefix(clusters@, kept@, i as int);
            assert(clusters@.take(i as int).len() == i);
        }
        let mut disjoint = true;
        let mut t: usize = 0;
        while t < c.len()
            invariant
                0 <= t <= c@.len(),
                disjoint <==> forall|s: int| 0 <= s < t ==> !used@.contains(#[trigger] c@[s]),
            decreases c@.len() - t,
        {
            if used.contains(&c[t]) {
                disjoint = false;
            }
            t = t + 1;
        }
        proof {
            assert(disjoint == disjoint_from(c@, used_ids(clusters@.take(i as int), kept@))) by {
                assert forall|s: int| 0 <= s < c@.len() implies (used@.contains(#[trigger] c@[s])
                    <==> used_ids(clusters@.take(i as int), kept@).contains(c@[s])) by {}
            }
        }
        if disjoint {
            let ghost old_kept = kept@;
            let mut t: usize = 0;
            let ghost old_used = used@;
            while t < c.len()
                invariant
                    0 <= t <= c@.len(),
                    forall|x: i64| used@.contains(x) <==> (old_used.contains(x) || c@.take(t as int).contains(x)),
                decreases c@.len() - t,
            {
                let ghost before = used@;
                assert(forall|x: i64| before.contains(x) <==> (old_used.contains(x) || c@.take(t as int).contains(x)));
                used.insert(c[t]);
                proof {
                    assert(used@ == before.insert(c@[t as int]));
                    let a = c@.take(t + 1);
                    let b = c@.take(t as int);
                    assert forall|x: i64| used@.contains(x) <==> (old_used.contains(x) || c@.take(t + 1).contains(x)) by {
                        assert(before.contains(x) <==> (old_used.contains(x) || b.contains(x)));
                        if a.contains(x) && x != c@[t as int] {
                            let w = choose|w: int| 0 <= w < a.len() && a[w] == x;
                            assert(b[w] == x);
                        }
                        if b.contains(x) {
                            let w = choose|w: int| 0 <= w < b.len() && b[w] == x;
                            assert(a[w] == x);
                        }
                        if x == c@[t as int] {
                            assert(a[t as int] == x);
                        }
                    }
                }
                t = t + 1;
            }
            proof {
                assert(c@.take(c@.len() as int) =~= c@);
            }
            kept.push(i);
            proof {
                assert forall|x: i64| used@.contains(x) <==> used_ids(clusters@, kept@).contains(x) by {
                    if used_ids(clusters@, kept@).contains(x) {
                        let k = choose|k: int|
                            0 <= k < kept@.len() && (#[trigger] clusters@[kept@[k] as int])@.contains(x);
                        if k < old_kept.len() {
                            assert(kept@[k] == old_kept[k]);
                            assert(used_ids(clusters@, old_kept).contains(x));
                        }
                    }
                    if old_used.contains(x) {
                        let k = choose|k: int|
                            0 <= k < old_kept.len() && (#[trigger] clusters@[old_kept[k] as int])@.contains(x);
                        assert(kept@[k] == old_kept[k]);
                    }
                    if c@.contains(x) {
                        assert(kept@[old_kept.len() as int] == i);
                    }
                }
            }
        }
        i = i + 1;
    }
    proof {
        assert(clusters@.take(i as int) =~= clusters@);
    }
    kept
}

/// Cluster `i` shares a file with a cluster at one of the positions `sel`
/// before it.
pub open spec fn shares_file_with_earlier(clusters: Seq<Vec<i64>>, sel: Seq<usize>, i: int) -> bool {
    exists|k: int, x: i64|
        0 <= k < sel.len() && sel[k] < i && (#[trigger] clusters[sel[k] as int])@.contains(x)
            && #[trigger] clusters[i]@.contains(x)
}

/// The clusters kept by `select_non_overlapping` share no file, and every
/// cluster it drops shares a file with one kept before it.
pub proof fn lemma_non_overlapping_selection(clusters: Seq<Vec<i64>>)
    requires
        clusters.len() <= usize::MAX,
    ensures
        forall|k1: int, k2: int, x: i64|
            0 <= k1 < k2 < greedy_disjoint(clusters).len() && #[trigger] clusters[greedy_disjoint(
                clusters,
            )[k1] as int]@.contains(x) ==> !#[trigger] clusters[greedy_disjoint(
                clusters,
            )[k2] as int]@.contains(x),
        forall|i: int|
            0 <= i < clusters.len() && !greedy_disjoint(clusters).contains(i as usize)
                ==> #[trigger] shares_file_with_earlier(clusters, greedy_disjoint(clusters), i),
    decreases clusters.len(),
{
    if clusters.len() > 0 {
        let prefix = clusters.drop_last();
        lemma_non_overlapping_selection(prefix);
        lemma_greedy_disjoint_bounds(prefix);
        lemma_greedy_disjoint_bounds(clusters);
        let prev = greedy_disjoint(prefix);
        let all = greedy_disjoint(clusters);
        let n = clusters.len() - 1;
        assert forall|k: int| 0 <= k < prev.len() implies #[trigger] clusters[prev[k] as int] == prefix[prev[k] as int] by {}
        if disjoint_from(clusters.last()@, used_ids(prefix, prev)) {
            assert(all == prev.push(n as usize));
        } else {
            assert(all == prev);
        }
        assert forall|k1: int, k2: int, x: i64|
            0 <= k1 < k2 < all.len() && #[trigger] clusters[all[k1] as int]@.contains(x) implies !#[trigger] clusters[all[k2] as int]@.contains(x) by {
            if k2 == prev.len() {
                assert(all[k1] == prev[k1]);
                assert(used_ids(prefix, prev).contains(x));
                assert(clusters[all[k2] as int] == clusters.last());
                if clusters.last()@.contains(x) {
                    let t = choose|t: int| 0 <= t < clusters.last()@.len() && clusters.last()@[t] == x;
                    assert(!used_ids(prefix, prev).contains(clusters.last()@[t]));
                }
            } else {
                assert(all[k1] == prev[k1]);
                assert(all[k2] == prev[k2]);
                assert(prefix[prev[k1] as int]@.contains(x));
            }
        }
        assert forall|i: int|
            0 <= i < clusters.len() && !all.contains(i as usize) implies #[trigger] shares_file_with_earlier(clusters, all, i) by {
            if i < n {
                assert(prefix[i] == clusters[i]);
                if prev.contains(i as usize) {
                    let k = choose|k: int| 0 <= k < prev.len() && prev[k] == i as usize;
                    assert(all[k] == prev[k]);
                }
                assert(shares_file_with_earlier(prefix, prev, i));
                let (k, x) = choose|k: int, x: i64|
                    0 <= k < prev.len() && prev[k] < i && (#[trigger] prefix[prev[k] as int])@.contains(x)
                        && #[trigger] prefix[i]@.contains(x);
                assert(all[k] == prev[k]);
                assert(clusters[all[k] as int]@.contains(x));
                assert(clusters[i]@.contains(x));
            } else {
                if disjoint_from(clusters.last()@, used_ids(prefix, prev)) {
                    assert(all[all.len() - 1] == i as usize);
                }
                let t = choose|t: int|
                    0 <= t < clusters.last()@.len() && used_ids(prefix, prev).contains(#[trigger] clusters.last()@[t]);
                let x = clusters.last()@[t];
                let k = choose|k: int| 0 <= k < prev.len() && (#[trigger] prefix[prev[k] as int])@.contains(x);
                assert(all[k] == prev[k]);
                assert(clusters[all[k] as int]@.contains(x));
                assert(clusters[i] == clusters.last());
                assert(clusters[i]@[t] == x);
                assert(clusters[i]@.contains(x));
            }
        }
    }
}

// ---------------------------------------------------------------------------
// Pairing the files of a coarse-hash group
// ---------------------------------------------------------------------------

/// One of the files `a`, `b` is in a pair already taken.
pub open spec fn touches(ids: Seq<i64>, acc: Seq<(usize, usize)>, a: i64, b: i64) -> bool {
    exists|k: int|
        0 <= k < acc.len() && {
            let p = #[trigger] acc[k];
            ids[p.0 as int] == a || ids[p.0 as int] == b || ids[p.1 as int] == a || ids[p.1 as int] == b
        }
}

/// Takes the pair `(i, j)` when it is a duplicate and touches no pair taken.
pub open spec fn pair_step(ids: Seq<i64>, dup: Seq<Vec<bool>>, acc: Seq<(usize, usize)>, i: int, j: int) -> Seq<
    (usize, usize),
> {
    if dup[i]@[j] && !touches(ids, acc, ids[i], ids[j]) {
        acc.push((i as usize, j as usize))
    } else {
        acc
    }
}

/// The pairs taken from position `(i, j)` on, the pairs `(i, j)` with
/// `i < j` being visited in lexicographic order.
pub open spec fn pairs_from(ids: Seq<i64>, dup: Seq<Vec<bool>>, acc: Seq<(usize, usize)>, i: int, j: int) -> Seq<
    (usize, usize),
>
    decreases ids.len() - i, ids.len() - j,
{
    if i >= ids.len() || i < 0 {
        acc
    } else if j >= ids.len() {
        pairs_from(ids, dup, acc, i + 1, i + 2)
    } else if j < 0 {
        acc
    } else {
        pairs_from(ids, dup, pair_step(ids, dup, acc, i, j), i, j + 1)
    }
}

/// The duplicate pairs a group yields: walking the pairs `(i, j)`, `i < j`,
/// in lexicographic order, a pair is taken when it is a duplicate and
/// neither of its files is in a pair taken before.
pub open spec fn group_pairs(ids: Seq<i64>, dup: Seq<Vec<bool>>) -> Seq<(usize, usize)> {
    pairs_from(ids, dup, Seq::empty(), 0, 1)
}

/// The decision matrix covers every pair of the group.
pub open spec fn is_square(dup: Seq<Vec<bool>>, n: int) -> bool {
    dup.len() == n && forall|i: int| 0 <= i < n ==> (#[trigger] dup[i])@.len() == n
}

fn touches_exec(ids: &Vec<i64>, acc: &Vec<(usize, usize)>, a: i64, b: i64) -> (r: bool)
    requires
        forall|k: int| 0 <= k < acc@.len() ==> (#[trigger] acc@[k]).0 < ids@.len() && acc@[k].1 < ids@.len(),
    ensures
        r == touches(ids@, acc@, a, b),
{
    let mut k: usize = 0;
    while k < acc.len()
        invariant
            0 <= k <= acc@.len(),
            forall|t: int| 0 <= t < acc@.len() ==> (#[trigger] acc@[t]).0 < ids@.len() && acc@[t].1 < ids@.len(),
            forall|t: int|
                0 <= t < k ==> {
                    let p = #[trigger] acc@[t];
                    !(ids@[p.0 as int] == a || ids@[p.0 as int] == b || ids@[p.1 as int] == a || ids@[p.1 as int] == b)
                },
        decreases acc@.len() - k,
    {
        let p = acc[k];
        if ids[p.0] == a || ids[p.0] == b || ids[p.1] == a || ids[p.1] == b {
            return true;
        }
        k = k + 1;
    }
    false
}

/// The pairs of files of a coarse-hash group that become clusters:
/// `is_dup[i][j]` tells whether files `i` and `j` are duplicates; walking
/// the pairs `i < j` in order, a pair is taken unless one of its files (by
/// id) is in a pair already taken.
pub fn select_group_pairs(ids: &Vec<i64>, is_dup: &Vec<Vec<bool>>) -> (r: Vec<(usize, usize)>)
    requires
        is_square(is_dup@, ids@.len() as int),
    ensures
        r@ == group_pairs(ids@, is_dup@),
        pairs_disjoint(ids@, r@),
        pairs_valid(ids@, is_dup@, r@),
        forall|a: int, b: int|
            0 <= a < b < ids@.len() && #[trigger] is_dup@[a]@[b] ==> taken_or_blocked(ids@, r@, a, b),
{
    let n = ids.len();
    let mut acc: Vec<(usize, usize)> = Vec::new();
    let mut i: usize = 0;
    while i < n
        invariant
            n == ids@.len(),
            0 <= i <= n,
            is_square(is_dup@, n as int),
            forall|k: int| 0 <= k < acc@.len() ==> (#[trigger] acc@[k]).0 < n && acc@[k].1 < n,
            pairs_from(ids@, is_dup@, acc@, i as int, i + 1) == group_pairs(ids@, is_dup@),
        decreases n - i,
    {
        let mut j: usize = i + 1;
        while j < n
            invariant
                n == ids@.len(),
                0 <= i < n,
                i + 1 <= j <= n,
                is_square(is_dup@, n as int),
                forall|k: int| 0 <= k < acc@.len() ==> (#[trigger] acc@[k]).0 < n && acc@[k].1 < n,
                pairs_from(ids@, is_dup@, acc@, i as int, j as int) == group_pairs(ids@, is_dup@),
            decreases n - j,
        {
            assert(is_dup@[i as int]@.len() == n);
            if is_dup[i][j] && !touches_exec(ids, &acc, ids[i], ids[j]) {
                acc.push((i, j));
            }
            j = j + 1;
        }
        i = i + 1;
    }
    proof {
        lemma_group_pairs_disjoint(ids@, is_dup@);
        assert forall|a: int, b: int|
            0 <= a < b < ids@.len() && #[trigger] is_dup@[a]@[b] implies taken_or_blocked(ids@, acc@, a, b) by {
            lemma_group_pairs_maximal(ids@, is_dup@, a, b);
        }
    }
    acc
}

/// No file (by id) is in two different pairs.
pub open spec fn pairs_disjoint(ids: Seq<i64>, acc: Seq<(usize, usize)>) -> bool {
    forall|k1: int, k2: int|
        0 <= k1 < k2 < acc.len() ==> {
            let p = #[trigger] acc[k1];
            let q = #[trigger] acc[k2];
            ids[p.0 as int] != ids[q.0 as int] && ids[p.0 as int] != ids[q.1 as int] && ids[p.1 as int]
                != ids[q.0 as int] && ids[p.1 as int] != ids[q.1 as int]
        }
}

/// Every pair is a duplicate pair `(i, j)` with `i < j`.
pub open spec fn pairs_valid(ids: Seq<i64>, dup: Seq<Vec<bool>>, acc: Seq<(usize, usize)>) -> bool {
    forall|k: int|
        0 <= k < acc.len() ==> {
            let p = #[trigger] acc[k];
            p.0 < p.1 < ids.len() && dup[p.0 as int]@[p.1 as int]
        }
}

proof fn lemma_pairs_from_keeps(ids: Seq<i64>, dup: Seq<Vec<bool>>, acc: Seq<(usize, usize)>, i: int, j: int)
    requires
        ids.len() <= usize::MAX,
        i < j,
        is_square(dup, ids.len() as int),
        pairs_disjoint(ids, acc),
        pairs_valid(ids, dup, acc),
    ensures
        pairs_disjoint(ids, pairs_from(ids, dup, acc, i, j)),
        pairs_valid(ids, dup, pairs_from(ids, dup, acc, i, j)),
    decreases ids.len() - i, ids.len() - j,
{
    if i >= ids.len() || i < 0 {
    } else if j >= ids.len() {
        lemma_pairs_from_keeps(ids, dup, acc, i + 1, i + 2);
    } else if j < 0 {
    } else {
        let next = pair_step(ids, dup, acc, i, j);
        if dup[i]@[j] && !touches(ids, acc, ids[i], ids[j]) {
            assert forall|k1: int, k2: int| 0 <= k1 < k2 < next.len() implies {
                let p = #[trigger] next[k1];
                let q = #[trigger] next[k2];
                ids[p.0 as int] != ids[q.0 as int] && ids[p.0 as int] != ids[q.1 as int] && ids[p.1 as int]
                    != ids[q.0 as int] && ids[p.1 as int] != ids[q.1 as int]
            } by {
                if k2 == acc.len() {
                    assert(next[k1] == acc[k1]);
                    if !(ids[acc[k1].0 as int] != ids[i] && ids[acc[k1].0 as int] != ids[j] && ids[acc[k1].1 as int] != ids[i]
                        && ids[acc[k1].1 as int] != ids[j]) {
                        assert(touches(ids, acc, ids[i], ids[j]));
                    }
                } else {
                    assert(next[k1] == acc[k1]);
                    assert(next[k2] == acc[k2]);
                }
            }
            assert forall|k: int| 0 <= k < next.len() implies {
                let p = #[trigger] next[k];
                p.0 < p.1 < ids.len() && dup[p.0 as int]@[p.1 as int]
            } by {
                if k < acc.len() {
                    assert(next[k] == acc[k]);
                }
            }
        }
        lemma_pairs_from_keeps(ids, dup, next, i, j + 1);
    }
}

/// The pairs `select_group_pairs` takes are duplicates `(i, j)` with
/// `i < j`, and no file is in two of them.
pub proof fn lemma_group_pairs_disjoint(ids: Seq<i64>, dup: Seq<Vec<bool>>)
    requires
        ids.len() <= usize::MAX,
        is_square(dup, ids.len() as int),
    ensures
        pairs_disjoint(ids, group_pairs(ids, dup)),
        pairs_valid(ids, dup, group_pairs(ids, dup)),
{
    lemma_pairs_from_keeps(ids, dup, Seq::empty(), 0, 1);
}

/// The duplicate pair `(a, b)` was taken, or some taken pair shares a file
/// id with it.
pub open spec fn taken_or_blocked(ids: Seq<i64>, res: Seq<(usize, usize)>, a: int, b: int) -> bool {
    ||| exists|k: int| 0 <= k < res.len() && #[trigger] res[k] == (a as usize, b as usize)
    ||| exists|k: int|
        0 <= k < res.len() && {
            let p = #[trigger] res[k];
            ids[p.0 as int] == ids[a] || ids[p.0 as int] == ids[b] || ids[p.1 as int] == ids[a] || ids[p.1 as int]
                == ids[b]
        }
}

proof fn lemma_pairs_from_prefix(ids: Seq<i64>, dup: Seq<Vec<bool>>, acc: Seq<(usize, usize)>, i: int, j: int)
    ensures
        acc.len() <= pairs_from(ids, dup, acc, i, j).len(),
        forall|k: int| 0 <= k < acc.len() ==> #[trigger] pairs_from(ids, dup, acc, i, j)[k] == acc[k],
    decreases ids.len() - i, ids.len() - j,
{
    if i >= ids.len() || i < 0 {
    } else if j >= ids.len() {
        lemma_pairs_from_prefix(ids, dup, acc, i + 1, i + 2);
    } else if j < 0 {
    } else {
        let next = pair_step(ids, dup, acc, i, j);
        lemma_pairs_from_prefix(ids, dup, next, i, j + 1);
        assert forall|k: int| 0 <= k < acc.len() implies next[k] == acc[k] by {}
    }
}

proof fn lemma_pairs_from_maximal(
    ids: Seq<i64>,
    dup: Seq<Vec<bool>>,
    acc: Seq<(usize, usize)>,
    i: int,
    j: int,
    a: int,
    b: int,
)
    requires
        is_square(dup, ids.len() as int),
        0 <= i < j,
        0 <= a < b < ids.len(),
        dup[a]@[b],
        a > i || (a == i && b >= j),
    ensures
        taken_or_blocked(ids, pairs_from(ids, dup, acc, i, j), a, b),
    decreases ids.len() - i, ids.len() - j,
{
    let res = pairs_from(ids, dup, acc, i, j);
    if i >= ids.len() {
    } else if j >= ids.len() {
        lemma_pairs_from_maximal(ids, dup, acc, i + 1, i + 2, a, b);
    } else {
        let next = pair_step(ids, dup, acc, i, j);
        if a == i && b == j {
            lemma_pairs_from_prefix(ids, dup, next, i, j + 1);
            if !touches(ids, acc, ids[i], ids[j]) {
                assert(res[acc.len() as int] == next[acc.len() as int]);
                assert(res[acc.len() as int] == (a as usize, b as usize));
            } else {
                let k = choose|k: int|
                    0 <= k < acc.len() && {
                        let p = #[trigger] acc[k];
                        ids[p.0 as int] == ids[i] || ids[p.0 as int] == ids[j] || ids[p.1 as int] == ids[i]
                            || ids[p.1 as int] == ids[j]
                    };
                assert(next[k] == acc[k]);
                assert(res[k] == acc[k]);
            }
        } else {
            lemma_pairs_from_maximal(ids, dup, next, i, j + 1, a, b);
        }
    }
}

/// No duplicate pair is left out for nothing: every duplicate pair `(a, b)`,
/// `a < b`, of a group is taken, or shares a file with a pair taken.
pub proof fn lemma_group_pairs_maximal(ids: Seq<i64>, dup: Seq<Vec<bool>>, a: int, b: int)
    requires
        is_square(dup, ids.len() as int),
        0 <= a < b < ids.len(),
        dup[a]@[b],
    ensures
        taken_or_blocked(ids, group_pairs(ids, dup), a, b),
{
    lemma_pairs_from_maximal(ids, dup, Seq::empty(), 0, 1, a, b);
}

// ---------------------------------------------------------------------------
// Perceptual duplicates across coarse groups
// ---------------------------------------------------------------------------

/// What the duplicate search reads of a cached file.
#[derive(Debug, Clone)]
pub struct HashRecord {
    pub id: i64,
    pub coarse_hashes: Option<CoarseHashes>,
    pub phash_data: Option<PerceptualHashData>,
}

/// Both files have coarse hashes and they match exactly.
pub open spec fn coarse_exact(r1: HashRecord, r2: HashRecord) -> bool {
    match (r1.coarse_hashes, r2.coarse_hashes) {
        (Some(h1), Some(h2)) => exact_match(h1, h2),
        _ => false,
    }
}

/// The pair is compared perceptually: both files have perceptual hashes and
/// their coarse hashes do not already match.
pub open spec fn needs_comparison(r1: HashRecord, r2: HashRecord) -> bool {
    r1.phash_data is Some && r2.phash_data is Some && !coarse_exact(r1, r2)
}

/// The pair is a perceptual candidate under the thresholds.
pub open spec fn perceptual_candidate(r1: HashRecord, r2: HashRecord, avg_t: u32, max_t: u32) -> bool {
    needs_comparison(r1, r2) && hashes_similar(r1.phash_data->0, r2.phash_data->0, avg_t, max_t)
}

/// The candidate pairs from position `(i, j)` on, in lexicographic order.
pub open spec fn candidates_from(recs: Seq<HashRecord>, avg_t: u32, max_t: u32, i: int, j: int) -> Seq<
    (usize, usize),
>
    decreases recs.len() - i, recs.len() - j,
{
    if i >= recs.len() || i < 0 {
        Seq::empty()
    } else if j >= recs.len() {
        candidates_from(recs, avg_t, max_t, i + 1, i + 2)
    } else if j < 0 {
        Seq::empty()
    } else {
        let rest = candidates_from(recs, avg_t, max_t, i, j + 1);
        if perceptual_candidate(recs[i], recs[j], avg_t, max_t) {
            seq![(i as usize, j as usize)] + rest
        } else {
            rest
        }
    }
}

/// A compared pair has average hashes of different lengths.
pub open spec fn comparison_fails(recs: Seq<HashRecord>) -> bool {
    exists|i: int, j: int|
        0 <= i < j < recs.len() && needs_comparison(recs[i], recs[j]) && (#[trigger] recs[i]).phash_data->0.average_hash@.len()
            != (#[trigger] recs[j]).phash_data->0.average_hash@.len()
}

/// The compared pair `(a, b)` fails: its average hashes differ in length.
pub open spec fn pair_fails(recs: Seq<HashRecord>, a: int, b: int) -> bool {
    needs_comparison(recs[a], recs[b]) && recs[a].phash_data->0.average_hash@.len()
        != recs[b].phash_data->0.average_hash@.len()
}

/// `(a, b)` is the first failing pair in lexicographic order.
pub open spec fn first_failure(recs: Seq<HashRecord>, a: int, b: int) -> bool {
    &&& 0 <= a < b < recs.len()
    &&& pair_fails(recs, a, b)
    &&& forall|x: int, y: int|
        0 <= x < y < recs.len() && (x < a || (x == a && y < b)) ==> !#[trigger] pair_fails(recs, x, y)
}

/// Every pair of perceptual hash sets is within the counting range.
pub open spec fn all_distances_fit(recs: Seq<HashRecord>) -> bool {
    forall|i: int, j: int|
        0 <= i < recs.len() && 0 <= j < recs.len() && (#[trigger] recs[i]).phash_data is Some && (
        #[trigger] recs[j]).phash_data is Some ==> distances_fit(recs[i].phash_data->0, recs[j].phash_data->0)
}

fn coarse_exact_exec(r1: &HashRecord, r2: &HashRecord) -> (b: bool)
    ensures
        b == coarse_exact(*r1, *r2),
{
    match (&r1.coarse_hashes, &r2.coarse_hashes) {
        (Some(h1), Some(h2)) => hashes_match_exactly(h1, h2),
        _ => false,
    }
}

proof fn lemma_candidates_unfold(recs: Seq<HashRecord>, avg_t: u32, max_t: u32, i: int, j: int)
    requires
        0 <= i < recs.len(),
        i < j,
    ensures
        candidates_from(recs, avg_t, max_t, i, j) == (if j >= recs.len() {
            candidates_from(recs, avg_t, max_t, i + 1, i + 2)
        } else if perceptual_candidate(recs[i], recs[j], avg_t, max_t) {
            seq![(i as usize, j as usize)] + candidates_from(recs, avg_t, max_t, i, j + 1)
        } else {
            candidates_from(recs, avg_t, max_t, i, j + 1)
        }),
{
}

/// The pairs of files (positions `i < j`, in lexicographic order) that are
/// perceptual-duplicate candidates: both have perceptual hashes, their
/// coarse hashes do not already match exactly, and their perceptual hashes
/// are similar under the thresholds. An error when a compared pair has
/// average hashes of different lengths.
pub fn perceptual_candidate_pairs(recs: &Vec<HashRecord>, avg_threshold: u32, max_threshold: u32) -> (r:
    Result<Vec<(usize, usize)>, HashError>)
    requires
        all_distances_fit(recs@),
    ensures
        r is Err <==> comparison_fails(recs@),
        r matches Ok(v) ==> v@ == candidates_from(recs@, avg_threshold, max_threshold, 0, 1),
        r matches Err(e) ==> exists|a: int, b: int|
            first_failure(recs@, a, b) && e == (HashError::LengthMismatch {
                left: recs@[a].phash_data->0.average_hash@.len() as usize,
                right: recs@[b].phash_data->0.average_hash@.len() as usize,
            }),
{
    let n = recs.len();
    let mut out: Vec<(usize, usize)> = Vec::new();
    let mut i: usize = 0;
    while i < n
        invariant
            n == recs@.len(),
            0 <= i <= n,
            all_distances_fit(recs@),
            out@ + candidates_from(recs@, avg_threshold, max_threshold, i as int, i + 1) == candidates_from(
                recs@,
                avg_threshold,
                max_threshold,
                0,
                1,
            ),
            forall|a: int, b: int|
                0 <= a < i && a < b < n && needs_comparison(#[trigger] recs@[a], #[trigger] recs@[b])
                    ==> recs@[a].phash_data->0.average_hash@.len() == recs@[b].phash_data->0.average_hash@.len(),
        decreases n - i,
    {
        let mut j: usize = i + 1;
        while j < n
            invariant
                n == recs@.len(),
                0 <= i < n,
                i + 1 <= j <= n,
                all_distances_fit(recs@),
                out@ + candidates_from(recs@, avg_threshold, max_threshold, i as int, j as int)
                    == candidates_from(recs@, avg_threshold, max_threshold, 0, 1),
                forall|a: int, b: int|
                    0 <= a < i && a < b < n && needs_comparison(#[trigger] recs@[a], #[trigger] recs@[b])
                        ==> recs@[a].phash_data->0.average_hash@.len() == recs@[b].phash_data->0.average_hash@.len(),
                forall|b: int|
                    i < b < j && needs_comparison(recs@[i as int], #[trigger] recs@[b])
                        ==> recs@[i as int].phash_data->0.average_hash@.len() == recs@[b].phash_data->0.average_hash@.len(),
            decreases n - j,
        {
            proof {
                lemma_candidates_unfold(recs@, avg_threshold, max_threshold, i as int, j as int);
            }
            let r1 = &recs[i];
            let r2 = &recs[j];
            let compared = match (&r1.phash_data, &r2.phash_data) {
                (Some(p1), Some(p2)) => !coarse_exact_exec(r1, r2),
                _ => false,
            };
            if compared {
                match (&r1.phash_data, &r2.phash_data) {
                    (Some(p1), Some(p2)) => {
                        proof {
                            assert(all_distances_fit(recs@));
                            assert(recs@[i as int].phash_data is Some && recs@[j as int].phash_data is Some);
                        }
                        match are_hashes_similar(p1, p2, avg_threshold, max_threshold) {
                            Ok(similar) => {
                                let ghost old_out = out@;
                                if similar {
                                    out.push((i, j));
                                    proof {
                                        assert(out@ + candidates_from(recs@, avg_threshold, max_threshold, i as int, j + 1)
                                            =~= old_out + (seq![(i, j)] + candidates_from(
                                            recs@,
                                            avg_threshold,
                                            max_threshold,
                                            i as int,
                                            j + 1,
                                        )));
                                    }
                                }
                            },
                            Err(e) => {
                                proof {
                                    assert(comparison_fails(recs@)) by {
                                        assert(needs_comparison(recs@[i as int], recs@[j as int]));
                                    }
                                    assert forall|x: int, y: int|
                                        0 <= x < y < recs@.len() && (x < i || (x == i && y < j)) implies !#[trigger] pair_fails(
                                        recs@,
                                        x,
                                        y,
                                    ) by {
                                        if x < i && needs_comparison(recs@[x], recs@[y]) {
                                            assert(recs@[x].phash_data->0.average_hash@.len() == recs@[y].phash_data->0.average_hash@.len());
                                        }
                                        if x == i && needs_comparison(recs@[x], recs@[y]) {
                                            assert(recs@[x].phash_data->0.average_hash@.len() == recs@[y].phash_data->0.average_hash@.len());
                                        }
                                    }
                                    assert(first_failure(recs@, i as int, j as int));
                                }
                                return Err(e);
                            },
                        }
                    },
                    _ => {},
                }
            }
            j = j + 1;
        }
        proof {
            lemma_candidates_unfold(recs@, avg_threshold, max_threshold, i as int, j as int);
        }
        i = i + 1;
    }
    proof {
        assert(out@ + candidates_from(recs@, avg_threshold, max_threshold, n as int, n + 1) =~= out@);
        if comparison_fails(recs@) {
            let (a, b) = choose|a: int, b: int|
                0 <= a < b < recs@.len() && needs_comparison(recs@[a], recs@[b]) && (#[trigger] recs@[a]).phash_data->0.average_hash@.len()
                    != (#[trigger] recs@[b]).phash_data->0.average_hash@.len();
            assert(false);
        }
    }
    Ok(out)
}

} // verus!
