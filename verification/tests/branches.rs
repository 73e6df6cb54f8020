use commit_stats::branches::{git_branches, is_remote_line, remote_branches, BranchError};

#[test]
fn remote_branches_are_listed() {
    let output = "* main\n  dev\n  remotes/origin/HEAD -> origin/main\n  remotes/origin/dev\n  remotes/origin/feature/x\n";
    assert_eq!(
        git_branches(output).unwrap(),
        vec!["origin/main", "origin/dev", "origin/feature/x"]
    );
}

#[test]
fn other_remotes_and_local_branches_are_left_out() {
    let output = "  main\n  remotes/upstream/main\n  origin/fake\n";
    assert!(git_branches(output).unwrap().is_empty());
    assert!(git_branches("").unwrap().is_empty());
}

#[test]
fn remote_line_begins_with_the_prefix() {
    let line = |text: &str| -> Vec<char> { text.chars().collect() };
    assert!(is_remote_line(&line("remotes/origin/main")));
    assert!(is_remote_line(&line("remotes/origin/")));
    assert!(!is_remote_line(&line(" remotes/origin/main")));
    assert!(!is_remote_line(&line("remotes/origin")));
    assert!(!is_remote_line(&line("")));
}

#[test]
fn renaming_goes_by_the_pattern() {
    let output = "  remotes/origin/dev\n  local\n  remotes/origin/a/b\n";
    assert_eq!(
        remote_branches(output, "^remotes/", "").unwrap(),
        vec!["origin/dev", "origin/a/b"]
    );
    assert_eq!(
        remote_branches(output, "/", "::").unwrap(),
        vec!["remotes::origin::dev", "remotes::origin::a::b"]
    );
}

#[test]
fn refused_pattern_is_an_error_where_a_branch_is_named() {
    assert_eq!(remote_branches("  remotes/origin/dev\n", "(", "x"), Err(BranchError::Pattern));
    assert_eq!(remote_branches("  dev\n", "(", "x"), Ok(vec![]));
}
