use vstd::prelude::*;

use crate::cli::AutoKeepStrategy;
use crate::text::{decimal, push_decimal};

verus! {

/// A modification time: seconds since the epoch and nanoseconds.
pub type Timestamp = (i64, u32);

/// `a` is no later than `b`.
pub open spec fn ts_le(a: Timestamp, b: Timestamp) -> bool {
    a.0 < b.0 || (a.0 == b.0 && a.1 <= b.1)
}

/// `i` is the first position of a smallest size.
pub open spec fn is_first_smallest(sizes: Seq<u64>, i: int) -> bool {
    &&& 0 <= i < sizes.len()
    &&& forall|j: int| 0 <= j < sizes.len() ==> sizes[i] <= #[trigger] sizes[j]
    &&& forall|j: int| 0 <= j < i ==> sizes[i] < #[trigger] sizes[j]
}

/// `i` is the first position of an earliest time.
pub open spec fn is_first_earliest(times: Seq<Timestamp>, i: int) -> bool {
    &&& 0 <= i < times.len()
    &&& forall|j: int| 0 <= j < times.len() ==> ts_le(times[i], #[trigger] times[j])
    &&& forall|j: int| 0 <= j < i ==> !ts_le(#[trigger] times[j], times[i])
}

/// `i` is the last position of a latest time.
pub open spec fn is_last_latest(times: Seq<Timestamp>, i: int) -> bool {
    &&& 0 <= i < times.len()
    &&& forall|j: int| 0 <= j < times.len() ==> ts_le(#[trigger] times[j], times[i])
    &&& forall|j: int| i < j < times.len() ==> !ts_le(times[i], #[trigger] times[j])
}

fn ts_le_exec(a: Timestamp, b: Timestamp) -> (r: bool)
    ensures
        r == ts_le(a, b),
{
    a.0 < b.0 || (a.0 == b.0 && a.1 <= b.1)
}

/// Which file of a cluster to keep: `Best` keeps the recommended file
/// (`best`, the first file when there is none); `Smallest` the first file of
/// least size; `Oldest` the first file modified earliest; `Newest` the last
/// file modified latest.
pub fn select_keep_index(
    strategy: AutoKeepStrategy,
    sizes: &Vec<u64>,
    modified: &Vec<Timestamp>,
    best: Option<usize>,
) -> (r: usize)
    requires
        sizes@.len() > 0,
        modified@.len() == sizes@.len(),
        best matches Some(b) ==> b < sizes@.len(),
    ensures
        r < sizes@.len(),
        strategy == AutoKeepStrategy::Best ==> r == match best {
            Some(b) => b,
            None => 0,
        },
        strategy == AutoKeepStrategy::Smallest ==> is_first_smallest(sizes@, r as int),
        strategy == AutoKeepStrategy::Oldest ==> is_first_earliest(modified@, r as int),
        strategy == AutoKeepStrategy::Newest ==> is_last_latest(modified@, r as int),
{
    match strategy {
        AutoKeepStrategy::Best => match best {
            Some(b) => b,
            None => 0,
        },
        AutoKeepStrategy::Smallest => {
            let mut m: usize = 0;
            let mut i: usize = 1;
            while i < sizes.len()
                invariant
                    1 <= i <= sizes@.len(),
                    m < i,
                    forall|j: int| 0 <= j < i ==> sizes@[m as int] <= #[trigger] sizes@[j],
                    forall|j: int| 0 <= j < m ==> sizes@[m as int] < #[trigger] sizes@[j],
                decreases sizes@.len() - i,
            {
                if sizes[i] < sizes[m] {
                    m = i;
                }
                i = i + 1;
            }
            m
        },
        AutoKeepStrategy::Oldest => {
            let mut m: usize = 0;
            let mut i: usize = 1;
            while i < modified.len()
                invariant
                    1 <= i <= modified@.len(),
                    m < i,
                    forall|j: int| 0 <= j < i ==> ts_le(modified@[m as int], #[trigger] modified@[j]),
                    forall|j: int| 0 <= j < m ==> !ts_le(#[trigger] modified@[j], modified@[m as int]),
                decreases modified@.len() - i,
            {
                if !ts_le_exec(modified[m], modified[i]) {
                    m = i;
                }
                i = i + 1;
            }
            m
        },
        AutoKeepStrategy::Newest => {
            let mut m: usize = 0;
            let mut i: usize = 1;
            while i < modified.len()
                invariant
                    1 <= i <= modified@.len(),
                    m < i,
                    forall|j: int| 0 <= j < i ==> ts_le(#[trigger] modified@[j], modified@[m as int]),
                    forall|j: int| m < j < i ==> !ts_le(modified@[m as int], #[trigger] modified@[j]),
                decreases modified@.len() - i,
            {
                if ts_le_exec(modified[m], modified[i]) {
                    m = i;
                }
                i = i + 1;
            }
            m
        },
    }
}

/// The first line of the deletion log.
pub fn deletion_log_header() -> (r: String)
    ensures
        r@ == "timestamp,action,file_path,size_bytes,cluster_id,reason,status\n"@,
{
    String::from_str("timestamp,action,file_path,size_bytes,cluster_id,reason,status\n")
}

/// The action a deletion is logged under.
pub open spec fn deletion_action(hard_delete: bool) -> Seq<char> {
    if hard_delete {
        "hard_delete"@
    } else {
        "trash"@
    }
}

/// The status a deletion is logged with.
pub open spec fn deletion_status(success: bool) -> Seq<char> {
    if success {
        "success"@
    } else {
        "error"@
    }
}

/// A line of the deletion log: time, action, path, size in bytes, cluster,
/// reason and status, separated by commas and ended by a newline.
pub open spec fn deletion_log_text(
    timestamp: Seq<char>,
    hard_delete: bool,
    path: Seq<char>,
    size: nat,
    cluster_id: nat,
    reason: Seq<char>,
    success: bool,
) -> Seq<char> {
    timestamp + ","@ + deletion_action(hard_delete) + ","@ + path + ","@ + decimal(size) + ","@ + decimal(
        cluster_id,
    ) + ","@ + reason + ","@ + deletion_status(success) + "\n"@
}

/// Formats one line of the deletion log.
pub fn deletion_log_line(
    timestamp: &str,
    hard_delete: bool,
    path: &str,
    size: u64,
    cluster_id: usize,
    reason: &str,
    success: bool,
) -> (r: String)
    ensures
        r@ == deletion_log_text(timestamp@, hard_delete, path@, size as nat, cluster_id as nat, reason@, success),
{
    let mut s = String::new();
    s.append(timestamp);
    s.append(",");
    if hard_delete {
        s.append("hard_delete");
    } else {
        s.append("trash");
    }
    s.append(",");
    s.append(path);
    s.append(",");
    push_decimal(&mut s, size);
    s.append(",");
    push_decimal(&mut s, cluster_id as u64);
    s.append(",");
    s.append(reason);
    s.append(",");
    if success {
        s.append("success");
    } else {
        s.append("error");
    }
    s.append("\n");
    proof {
        assert(s@ =~= deletion_log_text(timestamp@, hard_delete, path@, size as nat, cluster_id as nat, reason@, success));
    }
    s
}

/// The reason text for a file deleted from cluster `cluster_index`
/// (numbered from one in the text) found by `method`.
pub open spec fn deletion_reason_text(cluster_index: nat, method: Seq<char>) -> Seq<char> {
    "Duplicate in cluster "@ + decimal(cluster_index + 1) + " ("@ + method + ")"@
}

/// Why a file of a cluster is deleted: its cluster, numbered from one, and
/// how the cluster was detected.
pub fn deletion_reason(cluster_index: usize, method: &str) -> (r: String)
    requires
        cluster_index < usize::MAX,
    ensures
        r@ == deletion_reason_text(cluster_index as nat, method@),
{
    let mut s = String::from_str("Duplicate in cluster ");
    push_decimal(&mut s, (cluster_index + 1) as u64);
    s.append(" (");
    s.append(method);
    s.append(")");
    s
}

/// The positions `0..n` without `k`, in order.
pub open spec fn all_but(n: nat, k: nat) -> Seq<usize> {
    Seq::new((n - 1) as nat, |i: int| (if i < k { i } else { i + 1 }) as usize)
}

/// The files deleted from a cluster of `n` files when the file at `keep` is
/// kept: all the others, in order; none when no file is kept (the cluster
/// is skipped).
pub fn cluster_deletions(n: usize, keep: Option<usize>) -> (r: Vec<usize>)
    requires
        keep matches Some(k) ==> k < n,
    ensures
        keep is None ==> r@.len() == 0,
        keep matches Some(k) ==> r@ == all_but(n as nat, k as nat),
{
    let mut r: Vec<usize> = Vec::new();
    match keep {
        None => r,
        Some(k) => {
            let mut i: usize = 0;
            while i < n
                invariant
                    k < n,
                    0 <= i <= n,
                    r@.len() == if i <= k { i as int } else { i - 1 },
                    forall|t: int| 0 <= t < r@.len() ==> #[trigger] r@[t] == (if t < k { t } else { t + 1 }),
                decreases n - i,
            {
                if i != k {
                    r.push(i);
                }
                i = i + 1;
            }
            proof {
                assert(r@ =~= all_but(n as nat, k as nat));
            }
            r
        },
    }
}

/// The positions, in order, of the files whose id differs from `id`.
pub open spec fn other_ids(ids: Seq<i64>, id: i64) -> Seq<usize>
    decreases ids.len(),
{
    if ids.len() == 0 {
        Seq::empty()
    } else {
        let rest = other_ids(ids.drop_last(), id);
        if ids.last() != id {
            rest.push((ids.len() - 1) as usize)
        } else {
            rest
        }
    }
}

proof fn lemma_other_ids_bound(ids: Seq<i64>, id: i64)
    requires
        ids.len() <= usize::MAX,
    ensures
        forall|t: int|
            0 <= t < other_ids(ids, id).len() ==> (#[trigger] other_ids(ids, id)[t]) < ids.len() && ids[other_ids(
                ids,
                id,
            )[t] as int] != id,
    decreases ids.len(),
{
    if ids.len() > 0 {
        lemma_other_ids_bound(ids.drop_last(), id);
        let rest = other_ids(ids.drop_last(), id);
        if ids.last() != id {
            assert(other_ids(ids, id) == rest.push((ids.len() - 1) as usize));
        }
        assert forall|t: int| 0 <= t < rest.len() implies ids[rest[t] as int] == ids.drop_last()[rest[t] as int] by {}
    }
}

/// The files deleted when a strategy keeps the file at `kept`: every file
/// whose id is not the kept file's id, in order.
pub fn auto_deletions(ids: &Vec<i64>, kept: usize) -> (r: Vec<usize>)
    requires
        kept < ids@.len(),
    ensures
        r@ == other_ids(ids@, ids@[kept as int]),
{
    let id = ids[kept];
    let mut r: Vec<usize> = Vec::new();
    let mut i: usize = 0;
    while i < ids.len()
        invariant
            0 <= i <= ids@.len(),
            r@ == other_ids(ids@.take(i as int), id),
        decreases ids@.len() - i,
    {
        proof {
            assert(ids@.take(i + 1).drop_last() =~= ids@.take(i as int));
            assert(ids@.take(i + 1).last() == ids@[i as int]);
        }
        if ids[i] != id {
            r.push(i);
        }
        i = i + 1;
    }
    proof {
        assert(ids@.take(i as int) =~= ids@);
    }
    r
}

/// What was decided for a cluster.
#[derive(Debug, Clone, Copy, PartialEq, Eq)]
pub enum ClusterChoice {
    /// A strategy kept the file at `kept`; `confirmed` is false when the
    /// user declined the deletions.
    AutoKeep { kept: usize, confirmed: bool },
    /// The user picked the file at `selection` to keep; the position just
    /// past the last file means keeping them all.
    Pick { selection: usize },
}

/// The files a choice deletes from a cluster with these ids.
pub open spec fn chosen_deletions(ids: Seq<i64>, choice: ClusterChoice) -> Seq<usize> {
    match choice {
        ClusterChoice::AutoKeep { kept, confirmed } => if confirmed {
            other_ids(ids, ids[kept as int])
        } else {
            Seq::empty()
        },
        ClusterChoice::Pick { selection } => if selection < ids.len() {
            all_but(ids.len(), selection as nat)
        } else {
            Seq::empty()
        },
    }
}

/// A choice that fits a cluster of `n` files.
pub open spec fn choice_fits(choice: ClusterChoice, n: nat) -> bool {
    match choice {
        ClusterChoice::AutoKeep { kept, .. } => kept < n,
        ClusterChoice::Pick { selection } => selection <= n,
    }
}

/// A file of the deletion plan: its cluster, its position there, and why.
#[derive(Debug, Clone)]
pub struct PlanTarget {
    pub cluster_id: usize,
    pub file_index: usize,
    pub reason: String,
}

/// The deletion plan built cluster by cluster.
#[derive(Debug, Clone)]
pub struct PlanState {
    pub targets: Vec<PlanTarget>,
    pub total_size: u64,
}

/// The sum of the sizes at the given positions.
pub open spec fn sizes_at(sizes: Seq<u64>, positions: Seq<usize>) -> nat
    decreases positions.len(),
{
    if positions.len() == 0 {
        0
    } else {
        sizes_at(sizes, positions.drop_last()) + sizes[positions.last() as int] as nat
    }
}

proof fn lemma_sizes_at_prefix(sizes: Seq<u64>, positions: Seq<usize>, i: int)
    requires
        0 <= i <= positions.len(),
    ensures
        sizes_at(sizes, positions.take(i)) <= sizes_at(sizes, positions),
    decreases positions.len(),
{
    if i < positions.len() {
        assert(positions.drop_last().take(i) =~= positions.take(i));
        lemma_sizes_at_prefix(sizes, positions.drop_last(), i);
    } else {
        assert(positions.take(i) =~= positions);
    }
}

/// An empty plan.
pub fn new_plan() -> (r: PlanState)
    ensures
        r.targets@.len() == 0,
        r.total_size == 0,
{
    PlanState { targets: Vec::new(), total_size: 0 }
}

/// Adds the decision for one cluster to the plan: the files the choice
/// deletes, in order, each with the cluster's reason, and their sizes to the
/// total.
pub fn add_cluster_to_plan(
    plan: &mut PlanState,
    cluster_id: usize,
    ids: &Vec<i64>,
    sizes: &Vec<u64>,
    method: &str,
    choice: ClusterChoice,
)
    requires
        cluster_id < usize::MAX,
        ids@.len() == sizes@.len(),
        choice_fits(choice, ids@.len()),
        old(plan).total_size + sizes_at(sizes@, chosen_deletions(ids@, choice)) <= u64::MAX,
    ensures
        ({
            let d = chosen_deletions(ids@, choice);
            &&& final(plan).targets@.len() == old(plan).targets@.len() + d.len()
            &&& forall|j: int| 0 <= j < old(plan).targets@.len() ==> #[trigger] final(plan).targets@[j] == old(plan).targets@[j]
            &&& forall|t: int|
                0 <= t < d.len() ==> {
                    let target = #[trigger] final(plan).targets@[old(plan).targets@.len() + t];
                    &&& target.cluster_id == cluster_id
                    &&& target.file_index == d[t]
                    &&& target.reason@ == deletion_reason_text(cluster_id as nat, method@)
                }
            &&& final(plan).total_size == old(plan).total_size + sizes_at(sizes@, d)
        }),
{
    let d = match choice {
        ClusterChoice::AutoKeep { kept, confirmed } => if confirmed {
            auto_deletions(ids, kept)
        } else {
            Vec::new()
        },
        ClusterChoice::Pick { selection } => if selection < ids.len() {
            cluster_deletions(ids.len(), Some(selection))
        } else {
            Vec::new()
        },
    };
    let n = ids.len();
    proof {
        assert(n == ids@.len());
        assert(d@ =~= chosen_deletions(ids@, choice));
        match choice {
            ClusterChoice::AutoKeep { kept, confirmed } => {
                lemma_other_ids_bound(ids@, ids@[kept as int]);
            },
            _ => {},
        }
    }
    let ghost start = plan.targets@;
    let ghost start_total = plan.total_size;
    let mut t: usize = 0;
    while t < d.len()
        invariant
            0 <= t <= d@.len(),
            d@ == chosen_deletions(ids@, choice),
            cluster_id < usize::MAX,
            ids@.len() == sizes@.len(),
            forall|u: int| 0 <= u < d@.len() ==> (#[trigger] d@[u]) < sizes@.len(),
            start_total + sizes_at(sizes@, d@) <= u64::MAX,
            plan.targets@.len() == start.len() + t,
            forall|j: int| 0 <= j < start.len() ==> #[trigger] plan.targets@[j] == start[j],
            forall|u: int|
                0 <= u < t ==> {
                    let target = #[trigger] plan.targets@[start.len() + u];
                    &&& target.cluster_id == cluster_id
                    &&& target.file_index == d@[u]
                    &&& target.reason@ == deletion_reason_text(cluster_id as nat, method@)
                },
            plan.total_size == start_total + sizes_at(sizes@, d@.take(t as int)),
        decreases d@.len() - t,
    {
        proof {
            assert(d@.take(t + 1).drop_last() =~= d@.take(t as int));
            assert(d@.take(t + 1).last() == d@[t as int]);
            lemma_sizes_at_prefix(sizes@, d@, t + 1);
        }
        let reason = deletion_reason(cluster_id, method);
        let index = d[t];
        plan.total_size = plan.total_size + sizes[index];
        plan.targets.push(PlanTarget { cluster_id, file_index: index, reason });
        t = t + 1;
    }
    proof {
        assert(d@.take(t as int) =~= d@);
    }
}

/// Whatever is decided for a cluster, at least one of its files stays: the
/// file a strategy keeps, or the file the user picks, is never deleted, and
/// skipping deletes nothing.
pub proof fn lemma_choice_keeps_a_file(ids: Seq<i64>, choice: ClusterChoice)
    requires
        ids.len() > 0,
        ids.len() <= usize::MAX,
        choice_fits(choice, ids.len()),
    ensures
        exists|i: usize| i < ids.len() && !#[trigger] chosen_deletions(ids, choice).contains(i),
{
    let d = chosen_deletions(ids, choice);
    match choice {
        ClusterChoice::AutoKeep { kept, confirmed } => {
            lemma_other_ids_bound(ids, ids[kept as int]);
            if d.contains(kept) {
                let t = choose|t: int| 0 <= t < d.len() && d[t] == kept;
                assert(false);
            }
            assert(!d.contains(kept));
        },
        ClusterChoice::Pick { selection } => {
            if selection < ids.len() {
                if d.contains(selection) {
                    let t = choose|t: int| 0 <= t < d.len() && d[t] == selection;
                    assert(false);
                }
                assert(!d.contains(selection));
            } else {
                assert(!d.contains(0usize));
            }
        },
    }
}

} // verus!
