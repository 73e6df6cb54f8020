//! Spreading the commits over workers and measuring them.

use vstd::prelude::*;
use crate::commit::Commit;
use crate::statistic::{lemma_sums_add_up, sums, DiffStat, Statistic, StatisticItem, Sums};
use crate::tree::commits_of;

verus! {

/// `num_cpus::get`: the number of logical cores that the process may
/// use. It depends on the machine; the crate's documentation promises
/// of it that it is at least one, and no more.
pub assume_specification[ num_cpus::get ]() -> (cores: usize)
    ensures
        cores >= 1,
;

/// The number of workers for a machine with `cores` cores: all cores
/// but one, and at least one worker.
pub open spec fn workers_for(cores: usize) -> usize {
    if cores > 1 {
        (cores - 1) as usize
    } else {
        1
    }
}

/// The number of workers for a machine with `cores` cores.
pub fn worker_count(cores: usize) -> (workers: usize)
    ensures
        workers == workers_for(cores),
        workers >= 1,
{
    if cores > 1 {
        cores - 1
    } else {
        1
    }
}

/// The number of workers for this machine.
pub fn available_workers() -> (workers: usize)
    ensures
        workers >= 1,
{
    worker_count(num_cpus::get())
}

/// The length of chunk `i` when `total` items are spread over
/// `workers` chunks: the chunks differ by one item at most, and the
/// longer ones come first.
pub open spec fn chunk_len(total: nat, workers: nat, i: nat) -> nat {
    total / workers + if i < total % workers {
        1nat
    } else {
        0nat
    }
}

/// The index of the first item of chunk `i`.
pub open spec fn chunk_start(total: nat, workers: nat, i: nat) -> nat
    decreases i,
{
    if i == 0 {
        0
    } else {
        chunk_start(total, workers, (i - 1) as nat) + chunk_len(total, workers, (i - 1) as nat)
    }
}

/// `items` as `workers` chunks, each a run of consecutive items.
pub open spec fn chunks<T>(items: Seq<T>, workers: nat) -> Seq<Seq<T>> {
    Seq::new(
        workers,
        |i: int|
            items.subrange(
                chunk_start(items.len(), workers, i as nat) as int,
                chunk_start(items.len(), workers, (i + 1) as nat) as int,
            ),
    )
}

/// The items of `parts`, one part after the other.
pub open spec fn concat<T>(parts: Seq<Seq<T>>) -> Seq<T>
    decreases parts.len(),
{
    if parts.len() == 0 {
        Seq::empty()
    } else {
        concat(parts.drop_last()) + parts.last()
    }
}

/// Where chunk `i` starts, without recursion: the chunks before it
/// hold `total / workers` items each, and one more for each of the
/// first `total % workers`.
pub proof fn lemma_chunk_start(total: nat, workers: nat, i: nat)
    requires
        workers >= 1,
        i <= workers,
    ensures
        chunk_start(total, workers, i) == i * (total / workers) + if i < total % workers {
            i
        } else {
            total % workers
        },
        chunk_start(total, workers, i) <= total,
        i == workers ==> chunk_start(total, workers, i) == total,
    decreases i,
{
    let q = (total / workers) as int;
    let r = (total % workers) as int;
    let w = workers as int;
    let n = i as int;
    assert(total == w * q + r && 0 <= r < w) by (nonlinear_arith)
        requires
            w >= 1,
            q == total as int / w,
            r == total as int % w,
    ;
    if i > 0 {
        lemma_chunk_start(total, workers, (i - 1) as nat);
        assert(n * q == (n - 1) * q + q) by (nonlinear_arith);
    }
    assert(n * q <= w * q) by (nonlinear_arith)
        requires
            0 <= n <= w,
            0 <= q,
    ;
}

/// The chunks hold every item once, in the order of the items: put
/// one after the other they are the items again.
pub proof fn lemma_chunks_cover<T>(items: Seq<T>, workers: nat)
    requires
        workers >= 1,
    ensures
        chunks(items, workers).len() == workers,
        concat(chunks(items, workers)) == items,
{
    lemma_chunks_prefix(items, workers, workers);
    lemma_chunk_start(items.len(), workers, workers);
    assert(chunks(items, workers).take(workers as int) =~= chunks(items, workers));
}

/// The first `i` chunks, one after the other, are the items before
/// chunk `i`.
proof fn lemma_chunks_prefix<T>(items: Seq<T>, workers: nat, i: nat)
    requires
        workers >= 1,
        i <= workers,
    ensures
        concat(chunks(items, workers).take(i as int)) == items.take(
            chunk_start(items.len(), workers, i) as int,
        ),
    decreases i,
{
    let parts = chunks(items, workers).take(i as int);
    if i > 0 {
        lemma_chunks_prefix(items, workers, (i - 1) as nat);
        lemma_chunk_start(items.len(), workers, i);
        assert(parts.drop_last() =~= chunks(items, workers).take(i - 1));
    }
}

/// Spreads `commits` over `workers` chunks of consecutive commits,
/// whose lengths differ by one at most.
pub fn partition<'a>(commits: &Vec<&'a Commit>, workers: usize) -> (parts: Vec<Vec<&'a Commit>>)
    requires
        workers >= 1,
    ensures
        parts@.len() == workers,
        forall|i: int|
            0 <= i < workers ==> (#[trigger] parts@[i])@ == chunks(commits@, workers as nat)[i],
{
    let total: usize = commits.len();
    let base: usize = total / workers;
    let extra: usize = total % workers;
    let mut parts: Vec<Vec<&'a Commit>> = Vec::new();
    let mut start: usize = 0;
    let mut i: usize = 0;
    while i < workers
        invariant
            workers >= 1,
            total == commits@.len(),
            base == total / workers,
            extra == total % workers,
            i <= workers,
            start == chunk_start(total as nat, workers as nat, i as nat),
            parts@.len() == i,
            forall|k: int|
                0 <= k < i ==> (#[trigger] parts@[k])@ == chunks(commits@, workers as nat)[k],
        decreases workers - i,
    {
        proof {
            lemma_chunk_start(total as nat, workers as nat, (i + 1) as nat);
        }
        let len: usize = if i < extra {
            base + 1
        } else {
            base
        };
        let mut part: Vec<&'a Commit> = Vec::new();
        let mut j: usize = 0;
        while j < len
            invariant
                start + len <= total,
                total == commits@.len(),
                j <= len,
                part@ == commits@.subrange(start as int, start + j),
            decreases len - j,
        {
            part.push(commits[start + j]);
            j = j + 1;
        }
        parts.push(part);
        start = start + len;
        i = i + 1;
    }
    parts
}

/// The two commits between which a diff is asked for.
#[derive(Debug, Clone, Copy)]
pub struct DiffRequest<'a> {
    /// The parent: what the diff starts from.
    pub base: &'a String,
    /// The commit itself: what the diff leads to.
    pub head: &'a String,
}

/// The diff to ask for to measure `commit`: from its first parent to
/// itself. A commit without a parent is not measured.
pub fn diff_request<'a>(commit: &'a Commit) -> (request: Option<DiffRequest<'a>>)
    ensures
        request is Some <==> commit.parents@.len() > 0,
        request matches Some(r) ==> r.base == commit.parents@[0] && r.head == commit.id,
{
    if commit.parents.len() == 0 {
        None
    } else {
        Some(DiffRequest { base: &commit.parents[0], head: &commit.id })
    }
}

/// Those of `commits` that have a parent, in their order.
pub open spec fn measurable(commits: Seq<Commit>) -> Seq<Commit>
    decreases commits.len(),
{
    if commits.len() == 0 {
        Seq::empty()
    } else if commits.last().parents@.len() == 0 {
        measurable(commits.drop_last())
    } else {
        measurable(commits.drop_last()).push(commits.last())
    }
}

/// Those of `commits` that have no parent, in their order.
pub open spec fn parentless(commits: Seq<Commit>) -> Seq<Commit>
    decreases commits.len(),
{
    if commits.len() == 0 {
        Seq::empty()
    } else if commits.last().parents@.len() == 0 {
        parentless(commits.drop_last()).push(commits.last())
    } else {
        parentless(commits.drop_last())
    }
}

/// The statistics of an item.
pub open spec fn stat_of(item: StatisticItem) -> DiffStat {
    DiffStat { files: item.files, insertion: item.insertion, deletion: item.deletion }
}

/// The commits of a sequence of items.
pub open spec fn item_commits(items: Seq<StatisticItem>) -> Seq<Commit> {
    Seq::new(items.len(), |k: int| *items[k].commit)
}

/// Measures `commits` one after the other.
///
/// Each commit that has a parent is measured by one call of
/// `provider`, with the commit's first parent and the commit itself;
/// the statistics that the call returns become the commit's item. A
/// commit without a parent is not measured: it is noted as skipped.
pub fn measure<'a, F>(commits: &Vec<&'a Commit>, provider: &F) -> (statistic: Statistic<'a>) where
    F: Fn(&String, &String) -> DiffStat,

    requires
        forall|base: &String, head: &String| call_requires(provider, (base, head)),
    ensures
        item_commits(statistic.statistic_item_vec@) == measurable(commits_of(commits@)),
        commits_of(statistic.skipped@) == parentless(commits_of(commits@)),
        forall|k: int|
            0 <= k < statistic.statistic_item_vec@.len() ==> call_ensures(
                provider,
                (
                    &(#[trigger] statistic.statistic_item_vec@[k]).commit.parents@[0],
                    &statistic.statistic_item_vec@[k].commit.id,
                ),
                stat_of(statistic.statistic_item_vec@[k]),
            ),
{
    let ghost all = commits_of(commits@);
    let mut statistic = Statistic::new();
    let n: usize = commits.len();
    let mut i: usize = 0;
    while i < n
        invariant
            n == commits@.len(),
            i <= n,
            all == commits_of(commits@),
            forall|base: &String, head: &String| call_requires(provider, (base, head)),
            item_commits(statistic.statistic_item_vec@) == measurable(all.take(i as int)),
            commits_of(statistic.skipped@) == parentless(all.take(i as int)),
            forall|k: int|
                0 <= k < statistic.statistic_item_vec@.len() ==> call_ensures(
                    provider,
                    (
                        &(#[trigger] statistic.statistic_item_vec@[k]).commit.parents@[0],
                        &statistic.statistic_item_vec@[k].commit.id,
                    ),
                    stat_of(statistic.statistic_item_vec@[k]),
                ),
        decreases n - i,
    {
        let commit: &'a Commit = commits[i];
        proof {
            assert(all.take(i as int + 1).drop_last() =~= all.take(i as int));
        }
        match diff_request(commit) {
            Some(request) => {
                let stat = provider(request.base, request.head);
                let item = StatisticItem::new(commit, stat);
                statistic.add(item);
            },
            None => {
                statistic.skip(commit);
            },
        }
        i = i + 1;
    }
    proof {
        assert(all.take(n as int) =~= all);
    }
    statistic
}

/// The items that measuring `commits` one after the other gives, with
/// `provider` as the function from a parent and a commit to the
/// statistics of the diff between them.
pub open spec fn measured<'a>(
    commits: Seq<Commit>,
    provider: spec_fn(Seq<char>, Seq<char>) -> DiffStat,
) -> Seq<StatisticItem<'a>>
    decreases commits.len(),
{
    if commits.len() == 0 {
        Seq::empty()
    } else {
        let commit = commits.last();
        let before = measured(commits.drop_last(), provider);
        if commit.parents@.len() == 0 {
            before
        } else {
            let stat = provider(commit.parents@[0]@, commit.id@);
            before.push(
                StatisticItem {
                    commit: &commit,
                    files: stat.files,
                    insertion: stat.insertion,
                    deletion: stat.deletion,
                },
            )
        }
    }
}

/// The sums over what the workers measure, each worker one part,
/// added part by part.
pub open spec fn sums_by_part(
    parts: Seq<Seq<Commit>>,
    provider: spec_fn(Seq<char>, Seq<char>) -> DiffStat,
) -> Sums
    decreases parts.len(),
{
    if parts.len() == 0 {
        Sums::zero()
    } else {
        sums_by_part(parts.drop_last(), provider).plus(sums(measured(parts.last(), provider)))
    }
}

/// Measuring two runs of commits, one after the other, gives the
/// items of the first and then those of the second.
pub proof fn lemma_measured_in_parts(
    first: Seq<Commit>,
    second: Seq<Commit>,
    provider: spec_fn(Seq<char>, Seq<char>) -> DiffStat,
)
    ensures
        measured(first + second, provider) == measured(first, provider) + measured(second, provider),
    decreases second.len(),
{
    if second.len() > 0 {
        lemma_measured_in_parts(first, second.drop_last(), provider);
        assert((first + second).drop_last() =~= first + second.drop_last());
    }
}

/// The sums that the parts give, added, are the sums over the parts
/// put one after the other.
pub proof fn lemma_sums_by_part(
    parts: Seq<Seq<Commit>>,
    provider: spec_fn(Seq<char>, Seq<char>) -> DiffStat,
)
    ensures
        sums_by_part(parts, provider) == sums(measured(concat(parts), provider)),
    decreases parts.len(),
{
    if parts.len() > 0 {
        lemma_sums_by_part(parts.drop_last(), provider);
        lemma_measured_in_parts(concat(parts.drop_last()), parts.last(), provider);
        lemma_sums_add_up(
            measured(concat(parts.drop_last()), provider),
            measured(parts.last(), provider),
        );
    }
}

/// Workers change no sum: whatever the number of workers, the sums
/// over what they measure, chunk by chunk, are the sums over what one
/// worker measures that takes the commits one after the other.
pub proof fn lemma_workers_change_no_sum(
    commits: Seq<Commit>,
    workers: nat,
    provider: spec_fn(Seq<char>, Seq<char>) -> DiffStat,
)
    requires
        workers >= 1,
    ensures
        sums_by_part(chunks(commits, workers), provider) == sums(measured(commits, provider)),
{
    lemma_chunks_cover(commits, workers);
    lemma_sums_by_part(chunks(commits, workers), provider);
}

} // verus!
