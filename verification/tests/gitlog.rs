use commit_stats::commit::Commit;
use commit_stats::gitlog::{
    git_all_branch_commits, git_commits, linear_history, parse_line, parse_log, BranchLogError,
    Line, LogError,
};

fn chars(text: &str) -> Vec<char> {
    text.chars().collect()
}

fn line(author: &str, id: &str, date: &str, parents: &str) -> String {
    format!("{};;;;{}@example.org;;;;{};;;;{};;;;message of {};;;;{}", author, author, id, date, id, parents)
}

fn commit(id: &str, parents: &[&str]) -> Commit {
    Commit {
        author: String::new(),
        email: String::new(),
        msg: String::new(),
        id: String::from(id),
        unix_date: 0,
        parents: parents.iter().map(|p| String::from(*p)).collect(),
    }
}

fn ids(commits: &Vec<Commit>) -> Vec<&str> {
    commits.iter().map(|c| c.id.as_str()).collect()
}

#[test]
fn line_with_six_fields_is_a_commit() {
    let text = "  Ann Lee;;;;ann@example.org;;;;abc123;;;;1704844800;;;;fix: the thing;;;;aa bb\r";
    match parse_line(&chars(text)) {
        Line::Record(commit) => {
            assert_eq!(commit.author, "Ann Lee");
            assert_eq!(commit.email, "ann@example.org");
            assert_eq!(commit.id, "abc123");
            assert_eq!(commit.unix_date, 1704844800);
            assert_eq!(commit.msg, "fix: the thing");
            assert_eq!(commit.parents, vec!["aa", "bb"]);
        }
        _ => panic!("the line was not read as a commit"),
    }
}

#[test]
fn line_of_a_root_commit_has_no_parent() {
    match parse_line(&chars("a;;;;b;;;;c;;;;5;;;;m;;;;")) {
        Line::Record(commit) => {
            assert!(commit.parents.is_empty());
            assert_eq!(commit.unix_date, 5);
            assert_eq!(commit.msg, "m");
        }
        _ => panic!("the line was not read as a commit"),
    }
}

#[test]
fn line_with_other_field_counts_is_no_commit() {
    assert!(matches!(parse_line(&chars("")), Line::Other));
    assert!(matches!(parse_line(&chars("a;;;;b;;;;c;;;;5;;;;m")), Line::Other));
    assert!(matches!(parse_line(&chars("a;;;;b;;;;c;;;;5;;;;m;;;;p;;;;q")), Line::Other));
    assert!(matches!(parse_line(&chars("a;;;;b;;;;c;;;;5;;;;semi;;;;colons;;;;p")), Line::Other));
}

#[test]
fn line_with_a_bad_date_is_told_apart() {
    assert!(matches!(parse_line(&chars("a;;;;b;;;;c;;;;soon;;;;m;;;;p")), Line::BadDate));
    assert!(matches!(parse_line(&chars("a;;;;b;;;;c;;;;;;;;m;;;;p")), Line::BadDate));
    assert!(matches!(
        parse_line(&chars("a;;;;b;;;;c;;;;18446744073709551616;;;;m;;;;p")),
        Line::BadDate
    ));
}

#[test]
fn log_is_read_oldest_first() {
    let log = [
        line("ann", "c3", "300", "c2"),
        String::from("not a commit"),
        line("bob", "c2", "200", "c1"),
        String::new(),
        line("ann", "c1", "100", ""),
    ]
    .join("\n");
    let commits = parse_log(&log).unwrap();
    assert_eq!(ids(&commits), vec!["c1", "c2", "c3"]);
    assert_eq!(commits[1].author, "bob");
    assert_eq!(commits[1].unix_date, 200);
    assert_eq!(commits[1].parents, vec!["c1"]);
    assert!(parse_log("").unwrap().is_empty());
}

#[test]
fn log_with_a_bad_date_is_an_error() {
    let log = [
        line("ann", "c4", "400", "c3"),
        line("ann", "c3", "x", "c2"),
        line("ann", "c2", "y", "c1"),
        line("ann", "c1", "100", ""),
    ]
    .join("\n");
    assert_eq!(parse_log(&log).err(), Some(LogError::BadDate { line: 2 }));
    assert_eq!(git_commits(&log).err(), Some(LogError::BadDate { line: 2 }));
}

#[test]
fn linear_history_leaves_out_merges_and_what_they_brought() {
    let commits = vec![
        commit("c1", &[]),
        commit("c2", &["c1"]),
        commit("f1", &["c1"]),
        commit("f2", &["f1"]),
        commit("m", &["c2", "f2"]),
        commit("c3", &["m"]),
        commit("c4", &["c3"]),
    ];
    let kept = linear_history(commits);
    assert_eq!(ids(&kept), vec!["c1", "c2", "c3", "c4"]);
}

#[test]
fn linear_history_needs_a_tip_to_go_on() {
    let kept = linear_history(vec![commit("c2", &["c1"]), commit("c3", &["c2"])]);
    assert!(kept.is_empty());
    let kept = linear_history(vec![commit("c1", &[]), commit("r", &[]), commit("c2", &["c1"]), commit("s", &["r"])]);
    assert_eq!(ids(&kept), vec!["c1", "r", "s"]);
    assert!(linear_history(vec![]).is_empty());
}

#[test]
fn git_commits_reads_and_filters() {
    let log = [
        line("ann", "c3", "300", "m"),
        line("ann", "m", "250", "c2 f1"),
        line("bob", "f1", "220", "c1"),
        line("ann", "c2", "200", "c1"),
        line("ann", "c1", "100", ""),
        String::new(),
    ]
    .join("\n");
    let commits = git_commits(&log).unwrap();
    assert_eq!(ids(&commits), vec!["c1", "c2", "c3"]);
    assert_eq!(commits[2].parents, vec!["m"]);
}

#[test]
fn all_branches_are_read_in_order() {
    let logs = vec![
        [line("ann", "c2", "200", "c1"), line("ann", "c1", "100", "")].join("\n"),
        String::new(),
        line("bob", "d1", "50", ""),
    ];
    let all = git_all_branch_commits(&logs).unwrap();
    assert_eq!(all.len(), 3);
    assert_eq!(ids(&all[0]), vec!["c1", "c2"]);
    assert!(all[1].is_empty());
    assert_eq!(ids(&all[2]), vec!["d1"]);
}

#[test]
fn first_unreadable_branch_is_reported() {
    let logs = vec![
        line("ann", "c1", "100", ""),
        [line("ann", "c2", "200", "c1"), line("ann", "c1", "never", "")].join("\n"),
        line("bob", "d1", "bad", ""),
    ];
    assert_eq!(
        git_all_branch_commits(&logs).err(),
        Some(BranchLogError { branch: 1, error: LogError::BadDate { line: 1 } })
    );
}
