//! The diff statistics of commits, and their sums.

use vstd::prelude::*;
use vstd::string::StringExecFns;
use vstd::string::StringSliceAdditionalSpecFns;
use vstd::utf8::{decode_utf8, encode_utf8, encode_utf8_decode_utf8, is_char_boundary};
use crate::commit::Commit;

verus! {

/// What a diff between two commits touched.
#[derive(Debug, Clone, Copy, PartialEq, Eq, Structural)]
pub struct DiffStat {
    pub files: usize,
    pub insertion: usize,
    pub deletion: usize,
}

/// The diff statistics of one commit against its parent.
#[derive(Debug, Clone, Copy)]
pub struct StatisticItem<'a> {
    pub commit: &'a Commit,
    pub files: usize,
    pub insertion: usize,
    pub deletion: usize,
}

/// Sums over diff statistics, as numbers without a bound.
pub struct Sums {
    pub commits: nat,
    pub files: nat,
    pub insertion: nat,
    pub deletion: nat,
}

impl Sums {
    /// The sums over no item.
    pub open spec fn zero() -> Sums {
        Sums { commits: 0, files: 0, insertion: 0, deletion: 0 }
    }

    /// The sums over one item.
    pub open spec fn of(item: StatisticItem) -> Sums {
        Sums {
            commits: 1,
            files: item.files as nat,
            insertion: item.insertion as nat,
            deletion: item.deletion as nat,
        }
    }

    /// The sums over what `self` and `other` cover together.
    pub open spec fn plus(self, other: Sums) -> Sums {
        Sums {
            commits: self.commits + other.commits,
            files: self.files + other.files,
            insertion: self.insertion + other.insertion,
            deletion: self.deletion + other.deletion,
        }
    }

    /// Whether no sum is more than `usize::MAX` for each commit.
    pub open spec fn bounded(self) -> bool {
        &&& self.files <= self.commits * usize::MAX
        &&& self.insertion <= self.commits * usize::MAX
        &&& self.deletion <= self.commits * usize::MAX
    }
}

/// The sums over `items`.
pub open spec fn sums(items: Seq<StatisticItem>) -> Sums
    decreases items.len(),
{
    if items.len() == 0 {
        Sums::zero()
    } else {
        sums(items.drop_last()).plus(Sums::of(items.last()))
    }
}

/// The sums over those of `items` whose commit has the author `name`.
pub open spec fn sums_of_author(items: Seq<StatisticItem>, name: Seq<char>) -> Sums
    decreases items.len(),
{
    if items.len() == 0 {
        Sums::zero()
    } else if items.last().commit.author@ == name {
        sums_of_author(items.drop_last(), name).plus(Sums::of(items.last()))
    } else {
        sums_of_author(items.drop_last(), name)
    }
}

/// The authors of `items`, each once, in the order in which they first
/// occur. Names are told apart character by character.
pub open spec fn authors(items: Seq<StatisticItem>) -> Seq<Seq<char>>
    decreases items.len(),
{
    if items.len() == 0 {
        Seq::empty()
    } else {
        let before = authors(items.drop_last());
        if before.contains(items.last().commit.author@) {
            before
        } else {
            before.push(items.last().commit.author@)
        }
    }
}

/// The longest author name that a row shows in full, in bytes of
/// UTF-8.
pub const LABEL_WIDTH: usize = 10;

/// Whether the name of an author can stand as a label: it has no
/// more than `LABEL_WIDTH` bytes in UTF-8, or a character of it begins
/// at byte `LABEL_WIDTH`, so that it can be cut there.
pub open spec fn can_be_cut(name: Seq<char>) -> bool {
    encode_utf8(name).len() <= LABEL_WIDTH || is_char_boundary(
        encode_utf8(name),
        LABEL_WIDTH as int,
    )
}

/// Whether the name of each author of `items` can stand as a label.
pub open spec fn labels_fit(items: Seq<StatisticItem>) -> bool {
    forall|i: int| 0 <= i < items.len() ==> can_be_cut((#[trigger] items[i]).commit.author@)
}

/// The name under which an author's row stands: the name itself, or,
/// where it has more than `LABEL_WIDTH` bytes in UTF-8, the text of
/// its first `LABEL_WIDTH` bytes and three dots.
pub open spec fn short_label(name: Seq<char>) -> Seq<char> {
    if encode_utf8(name).len() > LABEL_WIDTH {
        decode_utf8(encode_utf8(name).subrange(0, LABEL_WIDTH as int)) + seq!['.', '.', '.']
    } else {
        name
    }
}

/// The label of the row that sums over all commits.
pub open spec fn total_label() -> Seq<char> {
    seq!['T', 'o', 't', 'a', 'l']
}

/// One row of the report, as numbers without a bound.
pub struct RowModel {
    pub label: Seq<char>,
    pub sums: Sums,
}

/// The rows of the report on `items`: where `with_author` holds, one
/// row for each author in the order of `authors`; then, in any case,
/// the row of the sums over all items.
pub open spec fn report(items: Seq<StatisticItem>, with_author: bool) -> Seq<RowModel> {
    let total = RowModel { label: total_label(), sums: sums(items) };
    if with_author {
        Seq::new(
            authors(items).len(),
            |k: int|
                RowModel {
                    label: short_label(authors(items)[k]),
                    sums: sums_of_author(items, authors(items)[k]),
                },
        ).push(total)
    } else {
        seq![total]
    }
}

/// Sums over diff statistics.
#[derive(Debug, Clone, Copy, PartialEq, Eq, Structural)]
pub struct Totals {
    pub commits: usize,
    pub files: u128,
    pub insertion: u128,
    pub deletion: u128,
}

impl View for Totals {
    type V = Sums;

    open spec fn view(&self) -> Sums {
        Sums {
            commits: self.commits as nat,
            files: self.files as nat,
            insertion: self.insertion as nat,
            deletion: self.deletion as nat,
        }
    }
}

/// One row of the report.
#[derive(Debug)]
pub struct Row {
    pub label: String,
    pub totals: Totals,
}

impl View for Row {
    type V = RowModel;

    open spec fn view(&self) -> RowModel {
        RowModel { label: self.label@, sums: self.totals@ }
    }
}

/// The rows behind a sequence of rows.
pub open spec fn row_views(rows: Seq<Row>) -> Seq<RowModel> {
    Seq::new(rows.len(), |k: int| rows[k]@)
}

/// Sums that are bounded stay so when one more item comes in, and
/// then fit the numbers that hold them.
proof fn lemma_bounded_step(before: Sums, item: StatisticItem)
    requires
        before.bounded(),
        before.commits < usize::MAX,
    ensures
        before.plus(Sums::of(item)).bounded(),
        before.plus(Sums::of(item)).files <= u128::MAX,
        before.plus(Sums::of(item)).insertion <= u128::MAX,
        before.plus(Sums::of(item)).deletion <= u128::MAX,
{
    let c = before.commits as int;
    let m = usize::MAX as int;
    assert((c + 1) * m == c * m + m) by (nonlinear_arith);
    assert((c + 1) * m <= m * m) by (nonlinear_arith)
        requires
            c + 1 <= m,
            0 <= m,
    ;
    assert(m * m <= 0xFFFF_FFFF_FFFF_FFFF * 0xFFFF_FFFF_FFFF_FFFF) by (nonlinear_arith)
        requires
            0 <= m <= 0xFFFF_FFFF_FFFF_FFFF,
    ;
}

/// The sums over the items of one author cover no more commits than
/// there are items, and are bounded.
proof fn lemma_sums_bounded(items: Seq<StatisticItem>, name: Seq<char>)
    ensures
        sums(items).commits == items.len(),
        sums(items).bounded(),
        sums_of_author(items, name).commits <= items.len(),
        sums_of_author(items, name).bounded(),
    decreases items.len(),
{
    if items.len() > 0 {
        lemma_sums_bounded(items.drop_last(), name);
        let m = usize::MAX as int;
        let c = sums(items.drop_last()).commits as int;
        let d = sums_of_author(items.drop_last(), name).commits as int;
        assert((c + 1) * m == c * m + m) by (nonlinear_arith);
        assert((d + 1) * m == d * m + m) by (nonlinear_arith);
    }
}

/// The first name that is told apart from none of `names`, if any.
fn find_name<'a>(names: &Vec<&'a String>, name: &String) -> (found: Option<usize>)
    ensures
        match found {
            Some(k) => k < names@.len() && names@[k as int]@ == name@,
            None => forall|j: int| 0 <= j < names@.len() ==> (#[trigger] names@[j])@ != name@,
        },
{
    let n: usize = names.len();
    let mut k: usize = 0;
    while k < n
        invariant
            n == names@.len(),
            k <= n,
            forall|j: int| 0 <= j < k ==> (#[trigger] names@[j])@ != name@,
        decreases n - k,
    {
        if *names[k] == *name {
            return Some(k);
        }
        k = k + 1;
    }
    None
}

/// Decides whether `name` can stand as a label.
pub fn label_fits(name: &str) -> (fits: bool)
    ensures
        fits == can_be_cut(name@),
{
    name.as_bytes().len() <= LABEL_WIDTH || name.is_char_boundary(LABEL_WIDTH)
}

/// The name under which an author's row stands. The name has to be
/// one that can stand as a label.
pub fn label_of(name: &str) -> (label: String)
    requires
        can_be_cut(name@),
    ensures
        label@ == short_label(name@),
{
    if name.as_bytes().len() > LABEL_WIDTH {
        let (head, _) = name.split_at(LABEL_WIDTH);
        let mut label = String::from_str(head);
        label.append("...");
        proof {
            reveal_strlit("...");
            encode_utf8_decode_utf8(head@);
            assert(head.spec_bytes() == encode_utf8(name@).subrange(0, LABEL_WIDTH as int));
        }
        label
    } else {
        String::from_str(name)
    }
}

impl Totals {
    /// The sums over no item.
    pub fn zero() -> (totals: Self)
        ensures
            totals@ == Sums::zero(),
    {
        Totals { commits: 0, files: 0, insertion: 0, deletion: 0 }
    }

    /// The sums with one more item.
    fn with_item(&self, item: &StatisticItem) -> (totals: Self)
        requires
            self@.bounded(),
            self.commits < usize::MAX,
        ensures
            totals@ == self@.plus(Sums::of(*item)),
    {
        proof {
            lemma_bounded_step(self@, *item);
        }
        Totals {
            commits: self.commits + 1,
            files: self.files + item.files as u128,
            insertion: self.insertion + item.insertion as u128,
            deletion: self.deletion + item.deletion as u128,
        }
    }
}

/// The diff statistics of the commits of a run.
#[derive(Debug)]
pub struct Statistic<'a> {
    /// The statistics of each commit that was measured.
    pub statistic_item_vec: Vec<StatisticItem<'a>>,
    /// The commits that were left out because they have no parent to
    /// measure them against.
    pub skipped: Vec<&'a Commit>,
}

impl<'a> StatisticItem<'a> {
    /// The statistics `stat` of `commit`.
    pub fn new(commit: &'a Commit, stat: DiffStat) -> (item: Self)
        ensures
            item.commit == commit,
            item.files == stat.files,
            item.insertion == stat.insertion,
            item.deletion == stat.deletion,
    {
        StatisticItem { commit, files: stat.files, insertion: stat.insertion, deletion: stat.deletion }
    }
}

impl<'a> Statistic<'a> {
    /// The statistics of no commit.
    pub fn new() -> (statistic: Self)
        ensures
            statistic.statistic_item_vec@.len() == 0,
            statistic.skipped@.len() == 0,
    {
        Statistic { statistic_item_vec: Vec::new(), skipped: Vec::new() }
    }

    /// Takes in the statistics of one more commit.
    pub fn add(&mut self, item: StatisticItem<'a>)
        ensures
            final(self).statistic_item_vec@ == old(self).statistic_item_vec@.push(item),
            final(self).skipped@ == old(self).skipped@,
    {
        self.statistic_item_vec.push(item);
    }

    /// Notes that `commit` was left out.
    pub fn skip(&mut self, commit: &'a Commit)
        ensures
            final(self).statistic_item_vec@ == old(self).statistic_item_vec@,
            final(self).skipped@ == old(self).skipped@.push(commit),
    {
        self.skipped.push(commit);
    }

    /// Takes in what `other` holds, after what `self` holds.
    pub fn absorb(&mut self, other: Statistic<'a>)
        ensures
            final(self).statistic_item_vec@ == old(self).statistic_item_vec@
                + other.statistic_item_vec@,
            final(self).skipped@ == old(self).skipped@ + other.skipped@,
    {
        let mut other = other;
        self.statistic_item_vec.append(&mut other.statistic_item_vec);
        self.skipped.append(&mut other.skipped);
    }

    /// Decides whether the name of each author can stand as a label.
    pub fn labels_fit(&self) -> (fit: bool)
        ensures
            fit == labels_fit(self.statistic_item_vec@),
    {
        let n: usize = self.statistic_item_vec.len();
        let mut i: usize = 0;
        while i < n
            invariant
                n == self.statistic_item_vec@.len(),
                i <= n,
                forall|k: int|
                    0 <= k < i ==> can_be_cut((#[trigger] self.statistic_item_vec@[k]).commit.author@),
            decreases n - i,
        {
            if !label_fits(self.statistic_item_vec[i].commit.author.as_str()) {
                return false;
            }
            i = i + 1;
        }
        true
    }

    /// The sums over all commits that were measured.
    pub fn total(&self) -> (totals: Totals)
        ensures
            totals@ == sums(self.statistic_item_vec@),
    {
        let ghost items = self.statistic_item_vec@;
        let mut totals = Totals::zero();
        let n: usize = self.statistic_item_vec.len();
        let mut i: usize = 0;
        while i < n
            invariant
                n == items.len(),
                items == self.statistic_item_vec@,
                i <= n,
                totals@ == sums(items.take(i as int)),
            decreases n - i,
        {
            proof {
                lemma_sums_bounded(items.take(i as int), Seq::empty());
                assert(items.take(i as int + 1).drop_last() =~= items.take(i as int));
            }
            totals = totals.with_item(&self.statistic_item_vec[i]);
            i = i + 1;
        }
        proof {
            assert(items.take(n as int) =~= items);
        }
        totals
    }

    /// The rows of the report: where `with_author` holds, one row for
    /// each author in the order in which the authors first occur; then
    /// the row of the sums over all commits, under the label `Total`.
    ///
    /// For a row of its own, the name of an author has to be one that
    /// can stand as a label.
    pub fn rows(&self, with_author: bool) -> (rows: Vec<Row>)
        requires
            with_author ==> labels_fit(self.statistic_item_vec@),
        ensures
            row_views(rows@) == report(self.statistic_item_vec@, with_author),
    {
        let mut rows: Vec<Row> = Vec::new();
        if with_author {
            rows = self.author_rows();
        }
        let label = String::from_str("Total");
        proof {
            reveal_strlit("Total");
            assert("Total"@ =~= total_label());
        }
        let total = Row { label, totals: self.total() };
        rows.push(total);
        rows
    }

    /// One row for each author, in the order in which the authors
    /// first occur. The name of each author has to be one that can
    /// stand as a label.
    pub fn author_rows(&self) -> (rows: Vec<Row>)
        requires
            labels_fit(self.statistic_item_vec@),
        ensures
            rows@.len() == authors(self.statistic_item_vec@).len(),
            forall|k: int|
                0 <= k < rows@.len() ==> (#[trigger] rows@[k])@ == (RowModel {
                    label: short_label(authors(self.statistic_item_vec@)[k]),
                    sums: sums_of_author(
                        self.statistic_item_vec@,
                        authors(self.statistic_item_vec@)[k],
                    ),
                }),
    {
        let ghost items = self.statistic_item_vec@;
        let mut names: Vec<&'a String> = Vec::new();
        let mut sums_by_name: Vec<Totals> = Vec::new();
        let n: usize = self.statistic_item_vec.len();
        let mut i: usize = 0;
        while i < n
            invariant
                n == items.len(),
                items == self.statistic_item_vec@,
                i <= n,
                names@.len() == authors(items.take(i as int)).len(),
                sums_by_name@.len() == names@.len(),
                labels_fit(items),
                forall|k: int| 0 <= k < names@.len() ==> can_be_cut((#[trigger] names@[k])@),
                forall|k: int|
                    0 <= k < names@.len() ==> (#[trigger] names@[k])@ == authors(
                        items.take(i as int),
                    )[k],
                forall|k: int|
                    0 <= k < names@.len() ==> (#[trigger] sums_by_name@[k])@ == sums_of_author(
                        items.take(i as int),
                        names@[k]@,
                    ),
            decreases n - i,
        {
            let item = &self.statistic_item_vec[i];
            let ghost upto = items.take(i as int);
            let ghost next = items.take(i as int + 1);
            proof {
                assert(next.drop_last() =~= upto);
                lemma_authors_apart(upto);
            }
            match find_name(&names, &item.commit.author) {
                Some(k) => {
                    proof {
                        lemma_sums_bounded(upto, names@[k as int]@);
                    }
                    let updated = sums_by_name[k].with_item(item);
                    sums_by_name.set(k, updated);
                },
                None => {
                    proof {
                        assert(!authors(upto).contains(item.commit.author@)) by {
                            if authors(upto).contains(item.commit.author@) {
                                let j = choose|j: int|
                                    0 <= j < authors(upto).len() && authors(upto)[j]
                                        == item.commit.author@;
                                assert(names@[j]@ == authors(upto)[j]);
                            }
                        }
                        lemma_unknown_author_has_nothing(upto, item.commit.author@);
                    }
                    let first = Totals::zero().with_item(item);
                    names.push(&item.commit.author);
                    sums_by_name.push(first);
                },
            }
            i = i + 1;
        }
        proof {
            assert(items.take(n as int) =~= items);
        }
        let mut rows: Vec<Row> = Vec::new();
        let count: usize = names.len();
        let mut k: usize = 0;
        while k < count
            invariant
                count == names@.len(),
                count == sums_by_name@.len(),
                k <= count,
                rows@.len() == k,
                forall|j: int| 0 <= j < count ==> can_be_cut((#[trigger] names@[j])@),
                forall|j: int|
                    0 <= j < k ==> (#[trigger] rows@[j])@ == (RowModel {
                        label: short_label(names@[j]@),
                        sums: sums_by_name@[j]@,
                    }),
            decreases count - k,
        {
            let label = label_of(names[k].as_str());
            rows.push(Row { label, totals: sums_by_name[k] });
            k = k + 1;
        }
        rows
    }
}

/// No author occurs twice among `authors`.
pub proof fn lemma_authors_apart(items: Seq<StatisticItem>)
    ensures
        forall|j: int, k: int|
            0 <= j < k < authors(items).len() ==> (#[trigger] authors(items)[j]) != (
            #[trigger] authors(items)[k]),
    decreases items.len(),
{
    if items.len() > 0 {
        lemma_authors_apart(items.drop_last());
        assert(authors(items.drop_last()).len() <= authors(items).len());
    }
}

/// The author of each item is among `authors`, and an author who is
/// not among them has no item.
pub proof fn lemma_unknown_author_has_nothing(items: Seq<StatisticItem>, name: Seq<char>)
    requires
        !authors(items).contains(name),
    ensures
        sums_of_author(items, name) == Sums::zero(),
    decreases items.len(),
{
    if items.len() > 0 {
        let before = authors(items.drop_last());
        let last = items.last().commit.author@;
        if !before.contains(last) {
            assert(authors(items).last() == last);
        }
        if before.contains(name) {
            let j = choose|j: int| 0 <= j < before.len() && before[j] == name;
            assert(authors(items)[j] == name);
        }
        lemma_unknown_author_has_nothing(items.drop_last(), name);
    }
}

/// Sums add up over parts: the sums over two runs of items, one after
/// the other, are the sums over each, added.
pub proof fn lemma_sums_add_up(first: Seq<StatisticItem>, second: Seq<StatisticItem>)
    ensures
        sums(first + second) == sums(first).plus(sums(second)),
    decreases second.len(),
{
    if second.len() > 0 {
        lemma_sums_add_up(first, second.drop_last());
        assert((first + second).drop_last() =~= first + second.drop_last());
    }
}

} // verus!
