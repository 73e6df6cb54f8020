//! Reading the summary line of a diff: how many files changed, how
//! many lines came in and how many went out.

use vstd::prelude::*;
use crate::pattern::{capture_first_group, first_group, pattern_compiles, text_of};
use crate::commit::Commit;
use crate::statistic::{DiffStat, StatisticItem};
use crate::text::{
    chars_of, decimal, parse_decimal, split, split_at_each, string_from_chars, texts, trim, trimmed,
};

verus! {

/// Why the summary of a diff could not be read.
#[derive(Debug, Clone, Copy, PartialEq, Eq, Structural)]
pub enum ShortstatError {
    /// A pattern was refused.
    Pattern,
    /// A count is no decimal number, or one too large to hold.
    Number,
}

/// The pattern that finds the number of files.
pub open spec fn files_pattern() -> Seq<char> {
    "(\\d+) file"@
}

/// The pattern that finds the number of lines that came in.
pub open spec fn insertion_pattern() -> Seq<char> {
    "(\\d+) insertion"@
}

/// The pattern that finds the number of lines that went out.
pub open spec fn deletion_pattern() -> Seq<char> {
    "(\\d+) deletion"@
}

/// The line break.
pub open spec fn line_break() -> Seq<char> {
    seq!['\n']
}

/// The count that a capture stands for: the number that it is in
/// decimal, or `previous` where nothing was captured.
pub open spec fn count_of(capture: Option<Seq<char>>, previous: usize) -> Result<
    usize,
    ShortstatError,
> {
    match capture {
        None => Ok(previous),
        Some(digits) => match decimal(digits) {
            Some(number) => if number <= usize::MAX {
                Ok(number as usize)
            } else {
                Err(ShortstatError::Number)
            },
            None => Err(ShortstatError::Number),
        },
    }
}

/// The count that `pattern` finds in `line`, or `previous` where it
/// finds none.
pub open spec fn count_in(pattern: Seq<char>, line: Seq<char>, previous: usize) -> Result<
    usize,
    ShortstatError,
> {
    if pattern_compiles(pattern) {
        count_of(first_group(pattern, line), previous)
    } else {
        Err(ShortstatError::Pattern)
    }
}

/// `previous` with each count that `line` holds put in its place:
/// first the files, then the lines that came in, then those that went
/// out. The first error ends it.
pub open spec fn line_stat(line: Seq<char>, previous: DiffStat) -> Result<DiffStat, ShortstatError> {
    match count_in(files_pattern(), line, previous.files) {
        Err(error) => Err(error),
        Ok(files) => match count_in(insertion_pattern(), line, previous.insertion) {
            Err(error) => Err(error),
            Ok(insertion) => match count_in(deletion_pattern(), line, previous.deletion) {
                Err(error) => Err(error),
                Ok(deletion) => Ok(DiffStat { files, insertion, deletion }),
            },
        },
    }
}

/// `start` after each of `lines`, trimmed, has put its counts in
/// place, one line after the other. The first error ends it.
pub open spec fn lines_stat(lines: Seq<Seq<char>>, start: DiffStat) -> Result<
    DiffStat,
    ShortstatError,
>
    decreases lines.len(),
{
    if lines.len() == 0 {
        Ok(start)
    } else {
        match lines_stat(lines.drop_last(), start) {
            Err(error) => Err(error),
            Ok(previous) => line_stat(trim(lines.last()), previous),
        }
    }
}

/// The statistics that the summary `output` reports: each count is
/// the one that the last line with such a count holds, and 0 where no
/// line holds one.
pub open spec fn shortstat(output: Seq<char>) -> Result<DiffStat, ShortstatError> {
    lines_stat(split(output, line_break()), DiffStat { files: 0, insertion: 0, deletion: 0 })
}

/// The count that `capture` stands for, or `previous` where nothing
/// was captured.
pub fn count_from(capture: &Option<String>, previous: usize) -> (count: Result<usize, ShortstatError>)
    ensures
        count == count_of(text_of(*capture), previous),
{
    match capture {
        None => Ok(previous),
        Some(text) => {
            let digits = chars_of(text.as_str());
            match parse_decimal(&digits) {
                Some(number) => {
                    if number <= usize::MAX as u64 {
                        Ok(number as usize)
                    } else {
                        Err(ShortstatError::Number)
                    }
                },
                None => Err(ShortstatError::Number),
            }
        },
    }
}

/// The count that `pattern` finds in `line`, or `previous` where it
/// finds none.
pub fn scan_count(pattern: &str, line: &str, previous: usize) -> (count: Result<usize, ShortstatError>)
    ensures
        count == count_in(pattern@, line@, previous),
{
    match capture_first_group(pattern, line) {
        Ok(capture) => count_from(&capture, previous),
        Err(_) => Err(ShortstatError::Pattern),
    }
}

/// `previous` with each count that `line` holds put in its place.
pub fn stat_from_line(line: &str, previous: DiffStat) -> (stat: Result<DiffStat, ShortstatError>)
    ensures
        stat == line_stat(line@, previous),
{
    let files = match scan_count("(\\d+) file", line, previous.files) {
        Ok(count) => count,
        Err(error) => {
            return Err(error);
        },
    };
    let insertion = match scan_count("(\\d+) insertion", line, previous.insertion) {
        Ok(count) => count,
        Err(error) => {
            return Err(error);
        },
    };
    let deletion = match scan_count("(\\d+) deletion", line, previous.deletion) {
        Ok(count) => count,
        Err(error) => {
            return Err(error);
        },
    };
    Ok(DiffStat { files, insertion, deletion })
}

/// The statistics that the summary `output` of a diff reports.
pub fn parse_shortstat(output: &str) -> (stat: Result<DiffStat, ShortstatError>)
    ensures
        stat == shortstat(output@),
{
    let chars = chars_of(output);
    let mut newline: Vec<char> = Vec::new();
    newline.push('\n');
    let lines = split_at_each(&chars, &newline);
    let ghost all = split(output@, line_break());
    let ghost zero = DiffStat { files: 0, insertion: 0, deletion: 0 };
    let mut stat = DiffStat { files: 0, insertion: 0, deletion: 0 };
    let n: usize = lines.len();
    let mut i: usize = 0;
    while i < n
        invariant
            n == lines@.len(),
            i <= n,
            all == texts(lines@),
            all == split(output@, line_break()),
            zero == (DiffStat { files: 0, insertion: 0, deletion: 0 }),
            lines_stat(all.take(i as int), zero) == Ok::<DiffStat, ShortstatError>(stat),
        decreases n - i,
    {
        let line = string_from_chars(&trimmed(&lines[i]));
        proof {
            assert(all.take(i as int + 1).drop_last() =~= all.take(i as int));
        }
        match stat_from_line(line.as_str(), stat) {
            Ok(next) => {
                stat = next;
            },
            Err(error) => {
                proof {
                    lemma_error_stays(all, i as int + 1, zero);
                }
                return Err(error);
            },
        }
        i = i + 1;
    }
    proof {
        assert(all.take(n as int) =~= all);
    }
    Ok(stat)
}

/// The statistics of `commit`, read from the summary `output` of the
/// diff between the commit's parent and the commit. The commit has a
/// parent: one without is not measured.
pub fn get_commit_diff_by_git<'a>(commit: &'a Commit, output: &str) -> (item: Result<
    StatisticItem<'a>,
    ShortstatError,
>)
    requires
        commit.parents@.len() > 0,
    ensures
        match shortstat(output@) {
            Ok(stat) => item matches Ok(found) && found.commit == commit && found.files == stat.files
                && found.insertion == stat.insertion && found.deletion == stat.deletion,
            Err(error) => item matches Err(raised) && raised == error,
        },
{
    match parse_shortstat(output) {
        Ok(stat) => Ok(StatisticItem::new(commit, stat)),
        Err(error) => Err(error),
    }
}

/// An error at one line is the result for all lines.
proof fn lemma_error_stays(lines: Seq<Seq<char>>, i: int, start: DiffStat)
    requires
        0 <= i <= lines.len(),
        lines_stat(lines.take(i), start) is Err,
    ensures
        lines_stat(lines, start) == lines_stat(lines.take(i), start),
    decreases lines.len() - i,
{
    if i < lines.len() {
        assert(lines.take(i + 1).drop_last() =~= lines.take(i));
        lemma_error_stays(lines, i + 1, start);
    } else {
        assert(lines.take(i) =~= lines);
    }
}

} // verus!
