use std::cell::Cell;

use commit_stats::commit::Commit;
use commit_stats::pipeline::{
    available_workers, diff_request, measure, partition, worker_count,
};
use commit_stats::statistic::{DiffStat, Statistic, Totals};

fn commit(id: &str, parents: &[&str]) -> Commit {
    Commit {
        author: String::from("ann"),
        email: String::new(),
        msg: String::new(),
        id: String::from(id),
        unix_date: 0,
        parents: parents.iter().map(|p| String::from(*p)).collect(),
    }
}

/// A diff whose numbers follow from the length of the two ids.
fn stat_for(base: &String, head: &String) -> DiffStat {
    DiffStat { files: base.len(), insertion: head.len() * 10, deletion: base.len() + head.len() }
}

fn history(n: usize) -> Vec<Commit> {
    let mut commits = vec![commit("r", &[])];
    for i in 1..n {
        let id = "x".repeat(i);
        let parent = if i == 1 { String::from("r") } else { "x".repeat(i - 1) };
        commits.push(commit(&id, &[parent.as_str()]));
    }
    commits
}

#[test]
fn worker_count_leaves_one_core_free() {
    assert_eq!(worker_count(0), 1);
    assert_eq!(worker_count(1), 1);
    assert_eq!(worker_count(2), 1);
    assert_eq!(worker_count(3), 2);
    assert_eq!(worker_count(8), 7);
    assert_eq!(worker_count(usize::MAX), usize::MAX - 1);
}

#[test]
fn available_workers_is_at_least_one() {
    assert!(available_workers() >= 1);
}

#[test]
fn partition_gives_one_chunk_for_each_worker() {
    let commits = history(5);
    let refs: Vec<&Commit> = commits.iter().collect();
    let sizes = |workers: usize| -> Vec<usize> {
        partition(&refs, workers).iter().map(|p| p.len()).collect()
    };
    assert_eq!(sizes(1), vec![5]);
    assert_eq!(sizes(2), vec![3, 2]);
    assert_eq!(sizes(3), vec![2, 2, 1]);
    assert_eq!(sizes(4), vec![2, 1, 1, 1]);
    assert_eq!(sizes(5), vec![1, 1, 1, 1, 1]);
    assert_eq!(sizes(7), vec![1, 1, 1, 1, 1, 0, 0]);
}

#[test]
fn partition_keeps_every_commit_in_order() {
    let commits = history(11);
    let refs: Vec<&Commit> = commits.iter().collect();
    for workers in 1..=12 {
        let parts = partition(&refs, workers);
        assert_eq!(parts.len(), workers);
        let joined: Vec<&str> = parts.iter().flatten().map(|c| c.id.as_str()).collect();
        let all: Vec<&str> = commits.iter().map(|c| c.id.as_str()).collect();
        assert_eq!(joined, all);
    }
}

#[test]
fn partition_of_no_commit_gives_empty_chunks() {
    let refs: Vec<&Commit> = vec![];
    let parts = partition(&refs, 3);
    assert_eq!(parts.len(), 3);
    assert!(parts.iter().all(|p| p.is_empty()));
}

#[test]
fn diff_request_is_from_the_first_parent_to_the_commit() {
    let root = commit("c1", &[]);
    let child = commit("c2", &["c1"]);
    let merge = commit("c5", &["c3", "c4"]);
    assert!(diff_request(&root).is_none());
    let request = diff_request(&child).unwrap();
    assert_eq!(request.base, "c1");
    assert_eq!(request.head, "c2");
    let request = diff_request(&merge).unwrap();
    assert_eq!(request.base, "c3");
    assert_eq!(request.head, "c5");
}

#[test]
fn measure_skips_commits_without_a_parent() {
    let commits = vec![commit("a", &[]), commit("bb", &["a"]), commit("z", &[]), commit("ccc", &["bb"])];
    let refs: Vec<&Commit> = commits.iter().collect();
    let calls = Cell::new(0usize);
    let provider = |base: &String, head: &String| -> DiffStat {
        calls.set(calls.get() + 1);
        stat_for(base, head)
    };
    let statistic = measure(&refs, &provider);
    assert_eq!(calls.get(), 2);
    let measured: Vec<&str> =
        statistic.statistic_item_vec.iter().map(|i| i.commit.id.as_str()).collect();
    assert_eq!(measured, vec!["bb", "ccc"]);
    let skipped: Vec<&str> = statistic.skipped.iter().map(|c| c.id.as_str()).collect();
    assert_eq!(skipped, vec!["a", "z"]);
    assert_eq!(statistic.statistic_item_vec[0].files, 1);
    assert_eq!(statistic.statistic_item_vec[0].insertion, 20);
    assert_eq!(statistic.statistic_item_vec[0].deletion, 3);
    assert_eq!(statistic.statistic_item_vec[1].files, 2);
    assert_eq!(statistic.statistic_item_vec[1].insertion, 30);
    assert_eq!(statistic.statistic_item_vec[1].deletion, 5);
}

#[test]
fn root_and_child_with_two_workers_give_one_diff() {
    let commits = vec![commit("c_root", &[]), commit("c2", &["c_root"])];
    let refs: Vec<&Commit> = commits.iter().collect();
    let calls = Cell::new(0usize);
    let provider = |base: &String, head: &String| -> DiffStat {
        calls.set(calls.get() + 1);
        assert_eq!(base, "c_root");
        assert_eq!(head, "c2");
        DiffStat { files: 3, insertion: 40, deletion: 5 }
    };
    let parts = partition(&refs, 2);
    assert_eq!(parts.len(), 2);
    let mut statistic = Statistic::new();
    for part in parts.iter() {
        statistic.absorb(measure(part, &provider));
    }
    assert_eq!(calls.get(), 1);
    assert_eq!(statistic.statistic_item_vec.len(), 1);
    assert_eq!(statistic.skipped.len(), 1);
    assert_eq!(statistic.skipped[0].id, "c_root");
    assert_eq!(
        statistic.total(),
        Totals { commits: 1, files: 3, insertion: 40, deletion: 5 }
    );
}

#[test]
fn sums_are_the_same_for_every_number_of_workers() {
    let commits = history(9);
    let refs: Vec<&Commit> = commits.iter().collect();
    let provider = |base: &String, head: &String| -> DiffStat { stat_for(base, head) };
    let alone = measure(&refs, &provider).total();
    assert_eq!(alone.commits, 8);
    for workers in 1..=commits.len() {
        let mut statistic = Statistic::new();
        for part in partition(&refs, workers).iter() {
            statistic.absorb(measure(part, &provider));
        }
        assert_eq!(statistic.total(), alone);
        assert_eq!(statistic.skipped.len(), 1);
    }
}
