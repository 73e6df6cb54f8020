use commit_stats::commit::Commit;
use commit_stats::dedup::dedup_commits;

fn commit(id: &str, author: &str) -> Commit {
    Commit {
        author: String::from(author),
        email: String::new(),
        msg: String::new(),
        id: String::from(id),
        unix_date: 0,
        parents: vec![],
    }
}

#[test]
fn dedup_keeps_the_first_record_of_each_commit() {
    let a = commit("c1", "first");
    let b = commit("c2", "x");
    let c = commit("c1", "second");
    let d = commit("c3", "y");
    let e = commit("c2", "z");
    let kept = dedup_commits(vec![&a, &b, &c, &d, &e]);
    let ids: Vec<&str> = kept.iter().map(|c| c.id.as_str()).collect();
    assert_eq!(ids, vec!["c1", "c2", "c3"]);
    assert_eq!(kept[0].author, "first");
    assert_eq!(kept[1].author, "x");
}

#[test]
fn dedup_of_distinct_commits_keeps_all() {
    let a = commit("c1", "a");
    let b = commit("c2", "a");
    let kept = dedup_commits(vec![&a, &b]);
    assert_eq!(kept.len(), 2);
    assert!(dedup_commits(vec![]).is_empty());
}
