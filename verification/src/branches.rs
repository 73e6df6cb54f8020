//! Reading the list of branches.

use vstd::prelude::*;
use crate::pattern::{pattern_compiles, replace_each_match, replaced_all};
use crate::shortstat::line_break;
use crate::text::{
    chars_of, has_prefix, split, split_at_each, starts_with, string_from_chars, string_views, texts,
    trim, trimmed,
};

verus! {

/// Why the list of branches could not be read.
#[derive(Debug, Clone, Copy, PartialEq, Eq, Structural)]
pub enum BranchError {
    /// The pattern was refused.
    Pattern,
}

/// How the line of a branch of the remote `origin` begins.
pub open spec fn remote_prefix() -> Seq<char> {
    "remotes/origin/"@
}

/// The pattern for what a branch's name loses: all up to `origin/`.
pub open spec fn origin_pattern() -> Seq<char> {
    ".*origin/"@
}

/// What takes its place.
pub open spec fn origin_name() -> Seq<char> {
    "origin/"@
}

/// Whether `line` names a branch of the remote `origin`.
pub open spec fn is_remote(line: Seq<char>) -> bool {
    starts_with(trim(line), remote_prefix())
}

/// The name of the branch that `line` names, after each match of
/// `pattern` in it has given way to `replacement`.
pub open spec fn renamed(line: Seq<char>, pattern: Seq<char>, replacement: Seq<char>) -> Seq<char> {
    replaced_all(pattern, trim(line), replacement)
}

/// The renamed branches of the remote `origin` that `lines` name, in
/// the order of the lines.
pub open spec fn renamed_remotes(
    lines: Seq<Seq<char>>,
    pattern: Seq<char>,
    replacement: Seq<char>,
) -> Seq<Seq<char>>
    decreases lines.len(),
{
    if lines.len() == 0 {
        Seq::empty()
    } else if is_remote(lines.last()) {
        renamed_remotes(lines.drop_last(), pattern, replacement).push(
            renamed(lines.last(), pattern, replacement),
        )
    } else {
        renamed_remotes(lines.drop_last(), pattern, replacement)
    }
}

/// The names of the branches of the remote `origin` that `lines`
/// name: what stands before `origin/` in a line is left out.
pub open spec fn branch_names(lines: Seq<Seq<char>>) -> Seq<Seq<char>> {
    renamed_remotes(lines, origin_pattern(), origin_name())
}

/// Whether one of `lines` names a branch of the remote `origin`.
pub open spec fn names_a_remote(lines: Seq<Seq<char>>) -> bool {
    exists|i: int| 0 <= i < lines.len() && is_remote(#[trigger] lines[i])
}

/// Decides whether the trimmed line `line` names a branch of the
/// remote `origin`.
pub fn is_remote_line(line: &Vec<char>) -> (r: bool)
    ensures
        r == starts_with(line@, remote_prefix()),
{
    let prefix = chars_of("remotes/origin/");
    has_prefix(line, &prefix)
}

/// The branches of the remote `origin` in the list of branches
/// `output`, which names one branch on each line; in each name, every
/// match of `pattern` gives way to `replacement`.
///
/// Nothing is asked of the pattern where no line names such a branch;
/// where one does, and the pattern is refused, that is the error.
pub fn remote_branches(output: &str, pattern: &str, replacement: &str) -> (branches: Result<
    Vec<String>,
    BranchError,
>)
    ensures
        match branches {
            Ok(names) => {
                &&& string_views(names@) == renamed_remotes(
                    split(output@, line_break()),
                    pattern@,
                    replacement@,
                )
                &&& names_a_remote(split(output@, line_break())) ==> pattern_compiles(pattern@)
            },
            Err(_) => {
                &&& names_a_remote(split(output@, line_break()))
                &&& !pattern_compiles(pattern@)
            },
        },
{
    let chars = chars_of(output);
    let mut newline: Vec<char> = Vec::new();
    newline.push('\n');
    let lines = split_at_each(&chars, &newline);
    let ghost all = split(output@, line_break());
    let mut branches: Vec<String> = Vec::new();
    let n: usize = lines.len();
    let mut i: usize = 0;
    while i < n
        invariant
            n == lines@.len(),
            i <= n,
            all == texts(lines@),
            all == split(output@, line_break()),
            string_views(branches@) == renamed_remotes(all.take(i as int), pattern@, replacement@),
            names_a_remote(all.take(i as int)) ==> pattern_compiles(pattern@),
        decreases n - i,
    {
        let line = trimmed(&lines[i]);
        let ghost upto = all.take(i as int);
        let ghost next = all.take(i as int + 1);
        proof {
            assert(next.drop_last() =~= upto);
            assert(next.last() == lines@[i as int]@);
        }
        if is_remote_line(&line) {
            let text = string_from_chars(&line);
            match replace_each_match(pattern, text.as_str(), replacement) {
                Ok(branch) => {
                    branches.push(branch);
                },
                Err(_) => {
                    return Err(BranchError::Pattern);
                },
            }
        }
        i = i + 1;
    }
    proof {
        assert(all.take(n as int) =~= all);
    }
    Ok(branches)
}

/// The names of the branches of the remote `origin` in the list of
/// branches `output`, which names one branch on each line: of each
/// such line, what stands before `origin/` is left out.
pub fn git_branches(output: &str) -> (branches: Result<Vec<String>, BranchError>)
    ensures
        match branches {
            Ok(names) => {
                &&& string_views(names@) == branch_names(split(output@, line_break()))
                &&& names_a_remote(split(output@, line_break())) ==> pattern_compiles(
                    origin_pattern(),
                )
            },
            Err(_) => {
                &&& names_a_remote(split(output@, line_break()))
                &&& !pattern_compiles(origin_pattern())
            },
        },
{
    remote_branches(output, ".*origin/", "origin/")
}

} // verus!
