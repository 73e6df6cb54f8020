use commit_stats::commit::Commit;
use commit_stats::statistic::{label_fits, label_of, DiffStat, Statistic, StatisticItem, Totals};

fn commit(id: &str, author: &str) -> Commit {
    Commit {
        author: String::from(author),
        email: String::new(),
        msg: String::new(),
        id: String::from(id),
        unix_date: 0,
        parents: vec![String::from("p")],
    }
}

fn item(commit: &Commit, files: usize, insertion: usize, deletion: usize) -> StatisticItem<'_> {
    StatisticItem::new(commit, DiffStat { files, insertion, deletion })
}

#[test]
fn new_statistic_is_empty() {
    let statistic = Statistic::new();
    assert!(statistic.statistic_item_vec.is_empty());
    assert!(statistic.skipped.is_empty());
    assert_eq!(statistic.total(), Totals { commits: 0, files: 0, insertion: 0, deletion: 0 });
}

#[test]
fn add_appends_the_item() {
    let a = commit("c1", "ann");
    let b = commit("c2", "bob");
    let mut statistic = Statistic::new();
    statistic.add(item(&a, 1, 2, 3));
    statistic.add(item(&b, 4, 5, 6));
    assert_eq!(statistic.statistic_item_vec.len(), 2);
    assert_eq!(statistic.statistic_item_vec[1].commit.id, "c2");
    assert_eq!(statistic.statistic_item_vec[1].files, 4);
    assert_eq!(statistic.statistic_item_vec[1].insertion, 5);
    assert_eq!(statistic.statistic_item_vec[1].deletion, 6);
    assert!(statistic.skipped.is_empty());
}

#[test]
fn skip_notes_the_commit() {
    let a = commit("c1", "ann");
    let mut statistic = Statistic::new();
    statistic.skip(&a);
    assert!(statistic.statistic_item_vec.is_empty());
    assert_eq!(statistic.skipped.len(), 1);
    assert_eq!(statistic.skipped[0].id, "c1");
}

#[test]
fn absorb_appends_what_the_other_holds() {
    let a = commit("c1", "ann");
    let b = commit("c2", "bob");
    let c = commit("c3", "cy");
    let mut first = Statistic::new();
    first.add(item(&a, 1, 1, 1));
    first.skip(&c);
    let mut second = Statistic::new();
    second.add(item(&b, 2, 2, 2));
    second.skip(&a);
    first.absorb(second);
    let ids: Vec<&str> = first.statistic_item_vec.iter().map(|i| i.commit.id.as_str()).collect();
    assert_eq!(ids, vec!["c1", "c2"]);
    let skipped: Vec<&str> = first.skipped.iter().map(|c| c.id.as_str()).collect();
    assert_eq!(skipped, vec!["c3", "c1"]);
}

#[test]
fn total_sums_every_item() {
    let a = commit("c1", "ann");
    let b = commit("c2", "bob");
    let mut statistic = Statistic::new();
    statistic.add(item(&a, 1, 20, 300));
    statistic.add(item(&b, 4, 50, 600));
    statistic.add(item(&a, 7, 80, 900));
    assert_eq!(statistic.total(), Totals { commits: 3, files: 12, insertion: 150, deletion: 1800 });
}

#[test]
fn total_does_not_overflow() {
    let a = commit("c1", "ann");
    let mut statistic = Statistic::new();
    statistic.add(item(&a, usize::MAX, usize::MAX, 1));
    statistic.add(item(&a, usize::MAX, 1, usize::MAX));
    let total = statistic.total();
    assert_eq!(total.files, 2 * (usize::MAX as u128));
    assert_eq!(total.insertion, usize::MAX as u128 + 1);
    assert_eq!(total.deletion, usize::MAX as u128 + 1);
}

#[test]
fn label_is_cut_after_ten_bytes() {
    assert_eq!(label_of("ann"), "ann");
    assert_eq!(label_of(""), "");
    assert_eq!(label_of("0123456789"), "0123456789");
    assert_eq!(label_of("0123456789a"), "0123456789...");
    assert_eq!(label_of("alexandra-the-great"), "alexandra-...");
    assert_eq!(label_of("ééééé"), "ééééé");
    assert_eq!(label_of("éééééabc"), "ééééé...");
    assert_eq!(label_of("ééééééééééé"), "ééééé...");
    assert_eq!(label_of("12345678é"), "12345678é");
    assert_eq!(label_of("12345678éz"), "12345678é...");
    assert_eq!(label_of("日本語"), "日本語");
    assert_eq!(label_of("a日本語日本語"), "a日本語...");
}

#[test]
fn label_fits_where_a_character_begins_at_byte_ten() {
    assert!(label_fits(""));
    assert!(label_fits("0123456789"));
    assert!(label_fits("0123456789abc"));
    assert!(label_fits("éééééabc"));
    assert!(label_fits("aéééé"));
    assert!(label_fits("12345678é"));
    assert!(label_fits("12345678éz"));
    assert!(!label_fits("123456789é"));
    assert!(!label_fits("123456789éz"));
    assert!(!label_fits("aééééééé"));
    assert!(!label_fits("日本語日本語"));
    assert!(!label_fits("日本語日"));
    assert!(label_fits("日本語"));
    assert!(label_fits("a日本語日本語"));
}

#[test]
fn labels_fit_where_every_author_fits() {
    let a = commit("c1", "ann");
    let b = commit("c2", "123456789éz");
    let c = commit("c3", "éééééabc");
    let mut statistic = Statistic::new();
    assert!(statistic.labels_fit());
    statistic.add(item(&a, 1, 1, 1));
    statistic.add(item(&c, 1, 1, 1));
    assert!(statistic.labels_fit());
    statistic.add(item(&b, 1, 1, 1));
    assert!(!statistic.labels_fit());
    let rows = statistic.rows(false);
    assert_eq!(rows.len(), 1);
    assert_eq!(rows[0].totals.commits, 3);
}

#[test]
fn rows_without_authors_is_the_total_alone() {
    let a = commit("c1", "ann");
    let b = commit("c2", "bob");
    let mut statistic = Statistic::new();
    statistic.add(item(&a, 1, 2, 3));
    statistic.add(item(&b, 4, 5, 6));
    let rows = statistic.rows(false);
    assert_eq!(rows.len(), 1);
    assert_eq!(rows[0].label, "Total");
    assert_eq!(rows[0].totals, Totals { commits: 2, files: 5, insertion: 7, deletion: 9 });
}

#[test]
fn rows_with_authors_are_in_order_of_first_occurrence() {
    let a = commit("c1", "bob");
    let b = commit("c2", "ann");
    let c = commit("c3", "bob");
    let d = commit("c4", "Bob");
    let e = commit("c5", "maximilian-the-second");
    let mut statistic = Statistic::new();
    statistic.add(item(&a, 1, 10, 100));
    statistic.add(item(&b, 2, 20, 200));
    statistic.add(item(&c, 3, 30, 300));
    statistic.add(item(&d, 4, 40, 400));
    statistic.add(item(&e, 5, 50, 500));
    let rows = statistic.rows(true);
    let labels: Vec<&str> = rows.iter().map(|r| r.label.as_str()).collect();
    assert_eq!(labels, vec!["bob", "ann", "Bob", "maximilian...", "Total"]);
    assert_eq!(rows[0].totals, Totals { commits: 2, files: 4, insertion: 40, deletion: 400 });
    assert_eq!(rows[1].totals, Totals { commits: 1, files: 2, insertion: 20, deletion: 200 });
    assert_eq!(rows[2].totals, Totals { commits: 1, files: 4, insertion: 40, deletion: 400 });
    assert_eq!(rows[3].totals, Totals { commits: 1, files: 5, insertion: 50, deletion: 500 });
    assert_eq!(rows[4].totals, Totals { commits: 5, files: 15, insertion: 150, deletion: 1500 });
    let by_author = statistic.author_rows();
    assert_eq!(by_author.len(), 4);
}

#[test]
fn rows_of_an_empty_statistic() {
    let statistic = Statistic::new();
    assert!(statistic.author_rows().is_empty());
    let rows = statistic.rows(true);
    assert_eq!(rows.len(), 1);
    assert_eq!(rows[0].label, "Total");
    assert_eq!(rows[0].totals.commits, 0);
}
