//! Reading the log of a branch, and keeping its linear history.

use vstd::prelude::*;
use crate::commit::{commit_views, Commit, CommitView};
use crate::shortstat::line_break;
use crate::text::{
    chars_of, decimal, parse_decimal, split, split_at_each, split_words, string_from_chars, texts,
    trim, trimmed, words,
};

verus! {

/// What stands between the fields of a line of the log.
pub open spec fn field_separator() -> Seq<char> {
    ";;;;"@
}

/// The fields of a line of the log.
pub open spec fn fields_of(line: Seq<char>) -> Seq<Seq<char>> {
    split(trim(line), field_separator())
}

/// Whether `line` describes a commit: it has six fields.
pub open spec fn is_record(line: Seq<char>) -> bool {
    fields_of(line).len() == 6
}

/// Whether the date of the commit that `line` describes is a number.
pub open spec fn has_date(line: Seq<char>) -> bool {
    decimal(fields_of(line)[3]) is Some
}

/// The commit that `line` describes: the author's name and email, the
/// commit's id, its date in seconds since the Unix epoch, its message,
/// and the ids of its parents, which white space separates.
pub open spec fn record_of(line: Seq<char>) -> CommitView {
    let fields = fields_of(line);
    CommitView {
        author: fields[0],
        email: fields[1],
        id: fields[2],
        unix_date: decimal(fields[3]).unwrap(),
        msg: fields[4],
        parents: words(fields[5]),
    }
}

/// The commits that `lines` describe, oldest first. The log has the
/// newest commit on its first line, so the last line comes first.
/// Lines that describe no commit are passed over.
pub open spec fn history(lines: Seq<Seq<char>>) -> Seq<CommitView>
    decreases lines.len(),
{
    if lines.len() == 0 {
        Seq::empty()
    } else if is_record(lines.first()) {
        history(lines.drop_first()).push(record_of(lines.first()))
    } else {
        history(lines.drop_first())
    }
}

/// Whether line `i` describes a commit whose date is no number.
pub open spec fn bad_date_at(lines: Seq<Seq<char>>, i: int) -> bool {
    0 <= i < lines.len() && is_record(lines[i]) && !has_date(lines[i])
}

/// Whether line `i` is the last that describes a commit whose date is
/// no number.
pub open spec fn is_last_bad_date(lines: Seq<Seq<char>>, i: int) -> bool {
    bad_date_at(lines, i) && forall|j: int| i < j < lines.len() ==> !bad_date_at(lines, j)
}

/// Why a log could not be read.
#[derive(Debug, Clone, Copy, PartialEq, Eq, Structural)]
pub enum LogError {
    /// The line with this index, counted from 0, describes a commit
    /// whose date is no number of seconds that fits.
    BadDate { line: usize },
}

/// What a line of the log turned out to be.
pub enum Line {
    /// It describes no commit.
    Other,
    /// It describes a commit, but the date is no number.
    BadDate,
    /// It describes this commit.
    Record(Commit),
}

/// Reads one line of the log.
pub fn parse_line(line: &Vec<char>) -> (parsed: Line)
    ensures
        match parsed {
            Line::Other => !is_record(line@),
            Line::BadDate => is_record(line@) && !has_date(line@),
            Line::Record(commit) => is_record(line@) && has_date(line@) && commit@ == record_of(
                line@,
            ),
        },
{
    let separator = chars_of(";;;;");
    let fields = split_at_each(&trimmed(line), &separator);
    if fields.len() != 6 {
        return Line::Other;
    }
    let unix_date = match parse_decimal(&fields[3]) {
        Some(seconds) => seconds,
        None => {
            return Line::BadDate;
        },
    };
    let parent_ids = split_words(&fields[5]);
    let mut parents: Vec<String> = Vec::new();
    let n: usize = parent_ids.len();
    let mut i: usize = 0;
    while i < n
        invariant
            n == parent_ids@.len(),
            i <= n,
            parents@.len() == i,
            forall|k: int| 0 <= k < i ==> (#[trigger] parents@[k])@ == parent_ids@[k]@,
        decreases n - i,
    {
        parents.push(string_from_chars(&parent_ids[i]));
        i = i + 1;
    }
    let commit = Commit {
        author: string_from_chars(&fields[0]),
        email: string_from_chars(&fields[1]),
        msg: string_from_chars(&fields[4]),
        id: string_from_chars(&fields[2]),
        unix_date,
        parents,
    };
    proof {
        assert(commit@.parents =~= words(fields_of(line@)[5]));
    }
    Line::Record(commit)
}

/// The commits that the log `output` describes, oldest first.
///
/// A commit whose date is no number is an error; the last such line
/// of the log is the one reported.
pub fn parse_log(output: &str) -> (commits: Result<Vec<Commit>, LogError>)
    ensures
        match commits {
            Ok(found) => {
                &&& commit_views(found@) == history(split(output@, line_break()))
                &&& forall|i: int| !bad_date_at(split(output@, line_break()), i)
            },
            Err(LogError::BadDate { line }) => is_last_bad_date(
                split(output@, line_break()),
                line as int,
            ),
        },
{
    let chars = chars_of(output);
    let mut newline: Vec<char> = Vec::new();
    newline.push('\n');
    let lines = split_at_each(&chars, &newline);
    let ghost all = split(output@, line_break());
    let mut commits: Vec<Commit> = Vec::new();
    let n: usize = lines.len();
    let mut i: usize = n;
    while i > 0
        invariant
            n == lines@.len(),
            i <= n,
            all == texts(lines@),
            all == split(output@, line_break()),
            commit_views(commits@) == history(all.skip(i as int)),
            forall|j: int| i <= j < n ==> !bad_date_at(all, j),
        decreases i,
    {
        i = i - 1;
        proof {
            assert(all.skip(i as int).drop_first() =~= all.skip(i as int + 1));
        }
        match parse_line(&lines[i]) {
            Line::Other => {},
            Line::BadDate => {
                return Err(LogError::BadDate { line: i });
            },
            Line::Record(commit) => {
                commits.push(commit);
            },
        }
    }
    proof {
        assert(all.skip(0) =~= all);
    }
    Ok(commits)
}

/// The id after which the next commit of a linear history has to
/// come: that of the last commit of `records` that went on the
/// history or merged into it.
pub open spec fn tip(records: Seq<CommitView>) -> Option<Seq<char>>
    decreases records.len(),
{
    if records.len() == 0 {
        None
    } else {
        let last = records.last();
        if last.parents.len() != 1 || goes_on(records) {
            Some(last.id)
        } else {
            tip(records.drop_last())
        }
    }
}

/// Whether the last of `records` goes on the linear history of those
/// before it: it has no parent, or its one parent is the tip.
pub open spec fn goes_on(records: Seq<CommitView>) -> bool
    decreases records.len(), 0int,
{
    let last = records.last();
    records.len() > 0 && (last.parents.len() == 0 || (last.parents.len() == 1 && tip(
        records.drop_last(),
    ) == Some(last.parents[0])))
}

/// The linear history among `records`, which are in the order of
/// their dates: the commits without a parent, and the commits whose
/// one parent is the commit that went on the history, or merged into
/// it, last. A commit with more parents than one merges into the
/// history and stays out of it, and so does each commit that came in
/// through a merge.
pub open spec fn linear(records: Seq<CommitView>) -> Seq<CommitView>
    decreases records.len(),
{
    if records.len() == 0 {
        Seq::empty()
    } else if goes_on(records) {
        linear(records.drop_last()).push(records.last())
    } else {
        linear(records.drop_last())
    }
}

/// The linear history among `commits`.
pub fn linear_history(commits: Vec<Commit>) -> (kept: Vec<Commit>)
    ensures
        commit_views(kept@) == linear(commit_views(commits@)),
{
    let ghost all = commit_views(commits@);
    let mut kept: Vec<Commit> = Vec::new();
    let mut last: Option<String> = None;
    for commit in it: commits
        invariant
            all == commit_views(it.seq()),
            commit_views(kept@) == linear(all.take(it.index() as int)),
            match last {
                Some(id) => tip(all.take(it.index() as int)) == Some(id@),
                None => tip(all.take(it.index() as int)) is None,
            },
    {
        let ghost upto = all.take(it.index() as int);
        let ghost next = all.take(it.index() as int + 1);
        proof {
            assert(next.drop_last() =~= upto);
        }
        let parents: usize = commit.parents.len();
        let follows = parents == 1 && match &last {
            Some(id) => commit.parents[0] == *id,
            None => false,
        };
        proof {
            assert(commit@.parents.len() == parents);
        }
        if parents != 1 || follows {
            last = Some(commit.id.clone());
        }
        if parents == 0 || follows {
            kept.push(commit);
        }
    }
    proof {
        assert(all.take(all.len() as int) =~= all);
    }
    kept
}

/// The linear history of the branch whose log is `output`, oldest
/// commit first.
pub fn git_commits(output: &str) -> (commits: Result<Vec<Commit>, LogError>)
    ensures
        match commits {
            Ok(found) => {
                &&& commit_views(found@) == linear(history(split(output@, line_break())))
                &&& forall|i: int| !bad_date_at(split(output@, line_break()), i)
            },
            Err(LogError::BadDate { line }) => is_last_bad_date(
                split(output@, line_break()),
                line as int,
            ),
        },
{
    match parse_log(output) {
        Ok(all) => Ok(linear_history(all)),
        Err(error) => Err(error),
    }
}

/// Why the logs of the branches could not be read.
#[derive(Debug, Clone, Copy, PartialEq, Eq, Structural)]
pub struct BranchLogError {
    /// The index of the branch whose log could not be read.
    pub branch: usize,
    /// What is wrong with that log.
    pub error: LogError,
}

/// The lines of a log.
pub open spec fn log_lines(log: Seq<char>) -> Seq<Seq<char>> {
    split(log, line_break())
}

/// Whether no line of `log` describes a commit whose date is no
/// number.
pub open spec fn is_readable(log: Seq<char>) -> bool {
    forall|i: int| !bad_date_at(log_lines(log), i)
}

/// The linear history of each branch, from the logs of the branches.
///
/// The first log that cannot be read is the error.
pub fn git_all_branch_commits(logs: &Vec<String>) -> (commits: Result<
    Vec<Vec<Commit>>,
    BranchLogError,
>)
    ensures
        match commits {
            Ok(all) => {
                &&& all@.len() == logs@.len()
                &&& forall|b: int|
                    0 <= b < logs@.len() ==> {
                        &&& is_readable((#[trigger] logs@[b])@)
                        &&& commit_views(all@[b]@) == linear(history(log_lines(logs@[b]@)))
                    }
            },
            Err(BranchLogError { branch, error: LogError::BadDate { line } }) => {
                &&& branch < logs@.len()
                &&& is_last_bad_date(log_lines(logs@[branch as int]@), line as int)
                &&& forall|b: int| 0 <= b < branch ==> is_readable((#[trigger] logs@[b])@)
            },
        },
{
    let mut commits: Vec<Vec<Commit>> = Vec::new();
    let n: usize = logs.len();
    let mut b: usize = 0;
    while b < n
        invariant
            n == logs@.len(),
            b <= n,
            commits@.len() == b,
            forall|k: int|
                0 <= k < b ==> {
                    &&& is_readable((#[trigger] logs@[k])@)
                    &&& commit_views(commits@[k]@) == linear(history(log_lines(logs@[k]@)))
                },
        decreases n - b,
    {
        match git_commits(logs[b].as_str()) {
            Ok(found) => {
                commits.push(found);
            },
            Err(error) => {
                return Err(BranchLogError { branch: b, error });
            },
        }
        b = b + 1;
    }
    Ok(commits)
}

} // verus!
