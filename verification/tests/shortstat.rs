use commit_stats::commit::Commit;
use commit_stats::shortstat::{
    count_from, get_commit_diff_by_git, parse_shortstat, scan_count, stat_from_line, ShortstatError,
};
use commit_stats::statistic::DiffStat;

fn stat(files: usize, insertion: usize, deletion: usize) -> DiffStat {
    DiffStat { files, insertion, deletion }
}

#[test]
fn summary_with_all_counts() {
    assert_eq!(
        parse_shortstat(" 3 files changed, 10 insertions(+), 2 deletions(-)\n"),
        Ok(stat(3, 10, 2))
    );
}

#[test]
fn summary_in_the_singular() {
    assert_eq!(parse_shortstat(" 1 file changed, 1 insertion(+), 1 deletion(-)"), Ok(stat(1, 1, 1)));
}

#[test]
fn summary_without_a_count_has_zero() {
    assert_eq!(parse_shortstat(" 2 files changed, 7 deletions(-)\n"), Ok(stat(2, 0, 7)));
    assert_eq!(parse_shortstat(" 4 files changed, 9 insertions(+)\n"), Ok(stat(4, 9, 0)));
    assert_eq!(parse_shortstat(""), Ok(stat(0, 0, 0)));
    assert_eq!(parse_shortstat("\n\n"), Ok(stat(0, 0, 0)));
    assert_eq!(parse_shortstat("nothing to report"), Ok(stat(0, 0, 0)));
}

#[test]
fn later_lines_replace_earlier_counts() {
    let output = " 3 files changed, 10 insertions(+)\n 5 files changed, 2 deletions(-)\n";
    assert_eq!(parse_shortstat(output), Ok(stat(5, 10, 2)));
}

#[test]
fn count_too_large_is_an_error() {
    let output = " 99999999999999999999999 files changed";
    assert_eq!(parse_shortstat(output), Err(ShortstatError::Number));
    assert_eq!(
        parse_shortstat(" 1 file changed, ١٢ insertions(+)"),
        Err(ShortstatError::Number)
    );
}

#[test]
fn count_from_a_capture() {
    assert_eq!(count_from(&None, 7), Ok(7));
    assert_eq!(count_from(&Some(String::from("42")), 7), Ok(42));
    assert_eq!(count_from(&Some(String::from("0")), 7), Ok(0));
    assert_eq!(count_from(&Some(String::from("")), 7), Err(ShortstatError::Number));
    assert_eq!(count_from(&Some(String::from("4x")), 7), Err(ShortstatError::Number));
    assert_eq!(
        count_from(&Some(String::from("340282366920938463463374607431768211456")), 7),
        Err(ShortstatError::Number)
    );
}

#[test]
fn scan_count_takes_the_digits_before_the_word() {
    assert_eq!(scan_count("(\\d+) file", "12 files changed", 0), Ok(12));
    assert_eq!(scan_count("(\\d+) file", "x 7 8 files, 9 file", 0), Ok(8));
    assert_eq!(scan_count("(\\d+) insertion", "12 files changed", 5), Ok(5));
    assert_eq!(scan_count("(\\d+", "12 files changed", 5), Err(ShortstatError::Pattern));
}

#[test]
fn stat_from_line_keeps_what_the_line_does_not_hold() {
    assert_eq!(stat_from_line("6 insertions(+)", stat(1, 2, 3)), Ok(stat(1, 6, 3)));
    assert_eq!(stat_from_line("", stat(1, 2, 3)), Ok(stat(1, 2, 3)));
    assert_eq!(
        stat_from_line("1 file changed, 2 insertions(+), 3 deletions(-)", stat(0, 0, 0)),
        Ok(stat(1, 2, 3))
    );
}

#[test]
fn item_of_a_commit_holds_the_counts_of_its_diff() {
    let commit = Commit {
        author: String::from("ann"),
        email: String::new(),
        msg: String::new(),
        id: String::from("c2"),
        unix_date: 7,
        parents: vec![String::from("c1")],
    };
    let item = get_commit_diff_by_git(&commit, " 2 files changed, 30 insertions(+), 4 deletions(-)\n")
        .unwrap();
    assert_eq!(item.commit.id, "c2");
    assert_eq!(item.files, 2);
    assert_eq!(item.insertion, 30);
    assert_eq!(item.deletion, 4);
    assert_eq!(
        get_commit_diff_by_git(&commit, " 99999999999999999999999 files changed").err(),
        Some(ShortstatError::Number)
    );
}
