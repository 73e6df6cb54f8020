use commit_stats::render::{push_decimal, push_padded};
use commit_stats::commit::Commit;
use commit_stats::statistic::{DiffStat, Row, Statistic, StatisticItem, Totals};

fn text(chars: &Vec<char>) -> String {
    chars.iter().collect()
}

fn row(label: &str, commits: usize, files: u128, insertion: u128, deletion: u128) -> Row {
    Row { label: String::from(label), totals: Totals { commits, files, insertion, deletion } }
}

fn expected(row: &Row) -> String {
    format!(
        "{: <13} commits: {: <10} files: {: <10} insertion: {: <10} deletion: {: <10}",
        row.label, row.totals.commits, row.totals.files, row.totals.insertion, row.totals.deletion
    )
}

#[test]
fn decimal_digits_of_numbers() {
    for (n, digits) in [
        (0u128, "0"),
        (7, "7"),
        (10, "10"),
        (909, "909"),
        (1704844800, "1704844800"),
        (u128::MAX, "340282366920938463463374607431768211455"),
    ] {
        let mut line = vec!['x'];
        push_decimal(&mut line, n);
        assert_eq!(text(&line), format!("x{}", digits));
    }
}

#[test]
fn padding_fills_up_to_the_width() {
    let mut line = vec!['>'];
    push_padded(&mut line, &vec!['a', 'b'], 5);
    assert_eq!(text(&line), ">ab   ");
    push_padded(&mut line, &vec!['c', 'd', 'e'], 3);
    assert_eq!(text(&line), ">ab   cde");
    push_padded(&mut line, &vec!['f', 'g', 'h'], 2);
    assert_eq!(text(&line), ">ab   cdefgh");
    push_padded(&mut line, &vec![], 2);
    assert_eq!(text(&line), ">ab   cdefgh  ");
    push_padded(&mut line, &vec![], 0);
    assert_eq!(text(&line), ">ab   cdefgh  ");
}

#[test]
fn line_of_a_row() {
    let total = row("Total", 12, 34, 5678, 90);
    assert_eq!(
        total.line(),
        "Total         commits: 12         files: 34         insertion: 5678       deletion: 90        "
    );
}

#[test]
fn line_is_what_the_format_gives() {
    for r in [
        row("", 0, 0, 0, 0),
        row("ann", 1, 2, 3, 4),
        row("maximilian...", 10, 200, 3000, 40000),
        row("a-label-of-more-than-13", 1, 1, 1, 1),
        row("éé", usize::MAX, u128::MAX, 12345678901, 1234567890),
    ] {
        assert_eq!(r.line(), expected(&r));
    }
}

#[test]
fn print_gives_the_lines_of_the_rows() {
    let author = |name: &str| Commit {
        author: String::from(name),
        email: String::new(),
        msg: String::new(),
        id: String::from("c"),
        unix_date: 0,
        parents: vec![],
    };
    let bob = author("bob");
    let ann = author("ann");
    let mut statistic = Statistic::new();
    statistic.add(StatisticItem::new(&bob, DiffStat { files: 1, insertion: 10, deletion: 100 }));
    statistic.add(StatisticItem::new(&ann, DiffStat { files: 2, insertion: 20, deletion: 200 }));
    statistic.add(StatisticItem::new(&bob, DiffStat { files: 3, insertion: 30, deletion: 300 }));
    assert_eq!(
        statistic.print(true),
        vec![
            expected(&row("bob", 2, 4, 40, 400)),
            expected(&row("ann", 1, 2, 20, 200)),
            expected(&row("Total", 3, 6, 60, 600)),
        ]
    );
    assert_eq!(statistic.print(false), vec![expected(&row("Total", 3, 6, 60, 600))]);
}

#[test]
fn print_cuts_a_long_name_after_ten_bytes() {
    let commit = Commit {
        author: String::from("éééééabc"),
        email: String::new(),
        msg: String::new(),
        id: String::from("c"),
        unix_date: 0,
        parents: vec![],
    };
    let mut statistic = Statistic::new();
    statistic.add(StatisticItem::new(&commit, DiffStat { files: 1, insertion: 2, deletion: 3 }));
    assert!(statistic.labels_fit());
    assert_eq!(
        statistic.print(true),
        vec![expected(&row("ééééé...", 1, 1, 2, 3)), expected(&row("Total", 1, 1, 2, 3))]
    );
}
