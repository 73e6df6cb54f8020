//! The commit record.

use vstd::prelude::*;

verus! {

/// One commit as the version-control system reports it.
///
/// A commit is identified by `id` alone: two records with the same id
/// stand for the same commit, whatever their other fields hold.
#[derive(Debug, Clone)]
pub struct Commit {
    pub author: String,
    pub email: String,
    pub msg: String,
    pub id: String,
    /// Seconds since the Unix epoch.
    pub unix_date: u64,
    /// The ids of the parents, first parent first.
    pub parents: Vec<String>,
}

/// The identity of a commit: the characters of its id.
pub type CommitId = Seq<char>;

/// What a commit record holds, as plain text and numbers.
pub struct CommitView {
    pub author: Seq<char>,
    pub email: Seq<char>,
    pub msg: Seq<char>,
    pub id: Seq<char>,
    pub unix_date: u64,
    pub parents: Seq<Seq<char>>,
}

impl View for Commit {
    type V = CommitView;

    open spec fn view(&self) -> CommitView {
        CommitView {
            author: self.author@,
            email: self.email@,
            msg: self.msg@,
            id: self.id@,
            unix_date: self.unix_date,
            parents: Seq::new(self.parents@.len(), |i: int| self.parents@[i]@),
        }
    }
}

/// What each of `commits` holds.
pub open spec fn commit_views(commits: Seq<Commit>) -> Seq<CommitView> {
    Seq::new(commits.len(), |i: int| commits[i]@)
}

impl Commit {
    /// The commit's identity.
    pub open spec fn key(&self) -> CommitId {
        self.id@
    }

    /// Whether `self` and `other` stand for the same commit.
    pub open spec fn same(&self, other: &Commit) -> bool {
        self.id@ == other.id@
    }

    /// Whether the commit's date lies in the closed window `[start, end]`.
    pub open spec fn in_window(&self, start: u64, end: u64) -> bool {
        start <= self.unix_date <= end
    }

    /// Decides whether two records stand for the same commit.
    pub fn is_same(&self, other: &Commit) -> (r: bool)
        ensures
            r == self.same(other),
    {
        self.id == other.id
    }

    /// Decides whether the commit's date lies in `[start, end]`.
    pub fn is_in_window(&self, start: u64, end: u64) -> (r: bool)
        ensures
            r == self.in_window(start, end),
    {
        start <= self.unix_date && self.unix_date <= end
    }
}

/// Two records are equal where they stand for the same commit.
impl PartialEq for Commit {
    fn eq(&self, other: &Commit) -> (r: bool) {
        self.id == other.id
    }
}

impl Eq for Commit {

}

impl vstd::std_specs::cmp::PartialEqSpecImpl for Commit {
    open spec fn obeys_eq_spec() -> bool {
        true
    }

    open spec fn eq_spec(&self, other: &Commit) -> bool {
        self.id@ == other.id@
    }
}

} // verus!
