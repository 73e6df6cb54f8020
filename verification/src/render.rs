//! The rows of the report as lines of text.

use vstd::prelude::*;
use crate::statistic::{labels_fit, report, row_views, Row, RowModel, Statistic};
use crate::text::{chars_of, digits_value, is_number, string_from_chars, string_views};

verus! {

/// The character of the digit `d`.
pub open spec fn digit_char(d: nat) -> char {
    seq!['0', '1', '2', '3', '4', '5', '6', '7', '8', '9'][d as int]
}

/// `n` in decimal: its digits, the first of which is no 0 unless `n`
/// is 0.
pub open spec fn decimal_digits(n: nat) -> Seq<char>
    decreases n,
{
    if n < 10 {
        seq![digit_char(n)]
    } else {
        decimal_digits(n / 10).push(digit_char(n % 10))
    }
}

/// `s`, and after it as many blanks as it takes to make `width`
/// characters; `s` alone where it has that many.
pub open spec fn pad_right(s: Seq<char>, width: nat) -> Seq<char> {
    if s.len() >= width {
        s
    } else {
        s + Seq::new((width - s.len()) as nat, |i: int| ' ')
    }
}

/// The width of the column of labels.
pub const LABEL_COLUMN: usize = 13;

/// The width of each column of numbers.
pub const NUMBER_COLUMN: usize = 10;

/// The line of a row: the label, then the number of commits, of files,
/// of lines that came in and of lines that went out, each under its
/// name and filled up with blanks to the width of its column.
pub open spec fn line_of(row: RowModel) -> Seq<char> {
    pad_right(row.label, LABEL_COLUMN as nat) + " commits: "@ + pad_right(
        decimal_digits(row.sums.commits),
        NUMBER_COLUMN as nat,
    ) + " files: "@ + pad_right(decimal_digits(row.sums.files), NUMBER_COLUMN as nat)
        + " insertion: "@ + pad_right(decimal_digits(row.sums.insertion), NUMBER_COLUMN as nat)
        + " deletion: "@ + pad_right(decimal_digits(row.sums.deletion), NUMBER_COLUMN as nat)
}

/// The digits of a number are a decimal number, and its value is the
/// number.
pub proof fn lemma_digits_read_back(n: nat)
    ensures
        is_number(decimal_digits(n)),
        digits_value(decimal_digits(n)) == n,
    decreases n,
{
    let digits = decimal_digits(n);
    if n < 10 {
        assert(digits_value(digits.drop_last()) == 0);
    } else {
        lemma_digits_read_back(n / 10);
        assert(digits.drop_last() =~= decimal_digits(n / 10));
    }
}

/// The character of the digit `d`.
fn digit_of(d: u8) -> (c: char)
    requires
        d < 10,
    ensures
        c == digit_char(d as nat),
{
    if d == 0 {
        '0'
    } else if d == 1 {
        '1'
    } else if d == 2 {
        '2'
    } else if d == 3 {
        '3'
    } else if d == 4 {
        '4'
    } else if d == 5 {
        '5'
    } else if d == 6 {
        '6'
    } else if d == 7 {
        '7'
    } else if d == 8 {
        '8'
    } else {
        '9'
    }
}

/// Puts the digits of `n` at the end of `line`.
pub fn push_decimal(line: &mut Vec<char>, n: u128)
    ensures
        final(line)@ == old(line)@ + decimal_digits(n as nat),
{
    let mut low_first: Vec<char> = Vec::new();
    let mut rest: u128 = n;
    while rest >= 10
        invariant
            decimal_digits(n as nat) == decimal_digits(rest as nat) + low_first@.reverse(),
        decreases rest,
    {
        let digit = digit_of((rest % 10) as u8);
        low_first.push(digit);
        rest = rest / 10;
    }
    line.push(digit_of(rest as u8));
    let ghost start = old(line)@;
    let count: usize = low_first.len();
    let mut i: usize = count;
    while i > 0
        invariant
            count == low_first@.len(),
            i <= count,
            line@ == start + seq![digit_char(rest as nat)] + low_first@.reverse().take(count - i),
        decreases i,
    {
        i = i - 1;
        line.push(low_first[i]);
    }
}

/// Puts `text` at the end of `line`, and blanks after it until what
/// was put has `width` characters.
pub fn push_padded(line: &mut Vec<char>, text: &Vec<char>, width: usize)
    ensures
        final(line)@ == old(line)@ + pad_right(text@, width as nat),
{
    let ghost start = line@;
    let n: usize = text.len();
    let mut i: usize = 0;
    while i < n
        invariant
            n == text@.len(),
            i <= n,
            line@ == start + text@.take(i as int),
        decreases n - i,
    {
        line.push(text[i]);
        i = i + 1;
    }
    let mut filled: usize = n;
    while filled < width
        invariant
            n == text@.len(),
            n <= filled,
            filled <= width || filled == n,
            line@ == start + text@ + Seq::new((filled - n) as nat, |i: int| ' '),
        decreases width - filled,
    {
        line.push(' ');
        filled = filled + 1;
    }
}

/// Puts the characters of `text` at the end of `line`.
fn push_text(line: &mut Vec<char>, text: &str)
    ensures
        final(line)@ == old(line)@ + text@,
{
    let mut chars = chars_of(text);
    line.append(&mut chars);
}

/// Puts the digits of `n` at the end of `line`, and blanks after them
/// as the column of numbers asks for.
fn push_number(line: &mut Vec<char>, n: u128)
    ensures
        final(line)@ == old(line)@ + pad_right(decimal_digits(n as nat), NUMBER_COLUMN as nat),
{
    let mut digits: Vec<char> = Vec::new();
    push_decimal(&mut digits, n);
    push_padded(line, &digits, NUMBER_COLUMN);
}

impl Row {
    /// The row as a line of text.
    pub fn line(&self) -> (text: String)
        ensures
            text@ == line_of(self@),
    {
        let mut line: Vec<char> = Vec::new();
        let label = chars_of(self.label.as_str());
        push_padded(&mut line, &label, LABEL_COLUMN);
        push_text(&mut line, " commits: ");
        push_number(&mut line, self.totals.commits as u128);
        push_text(&mut line, " files: ");
        push_number(&mut line, self.totals.files);
        push_text(&mut line, " insertion: ");
        push_number(&mut line, self.totals.insertion);
        push_text(&mut line, " deletion: ");
        push_number(&mut line, self.totals.deletion);
        string_from_chars(&line)
    }
}

/// The line of each of `rows`.
pub open spec fn lines_of(rows: Seq<RowModel>) -> Seq<Seq<char>> {
    Seq::new(rows.len(), |k: int| line_of(rows[k]))
}

impl<'a> Statistic<'a> {
    /// The report as the lines to print: where `print_with_author`
    /// holds, one line for each author in the order in which the
    /// authors first occur; then the line of the sums over all
    /// commits.
    ///
    /// For a line of its own, the name of an author has to be one that
    /// can stand as a label.
    pub fn print(&self, print_with_author: bool) -> (lines: Vec<String>)
        requires
            print_with_author ==> labels_fit(self.statistic_item_vec@),
        ensures
            string_views(lines@) == lines_of(report(self.statistic_item_vec@, print_with_author)),
    {
        let rows = self.rows(print_with_author);
        let mut lines: Vec<String> = Vec::new();
        let n: usize = rows.len();
        let mut i: usize = 0;
        while i < n
            invariant
                n == rows@.len(),
                i <= n,
                lines@.len() == i,
                forall|k: int| 0 <= k < i ==> (#[trigger] lines@[k])@ == line_of(rows@[k]@),
            decreases n - i,
        {
            lines.push(rows[i].line());
            i = i + 1;
        }
        lines
    }
}

} // verus!
