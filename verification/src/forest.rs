//! The forest that the histories of all branches form together.

use vstd::prelude::*;
use crate::commit::Commit;
use crate::dedup::{dedup_commits, distinct, lemma_distinct_keeps_each_once, no_duplicates};
use crate::merge_laws::lemma_merge_all_well_formed;
use crate::tree::{
    commits_of, flatten_commit_tree_node, group_tree_views, lemma_first_root_is_unique,
    ref_views, views, CommitTreeNode, Tree,
};

verus! {

/// The forest that results from merging `chains` one after the other,
/// in their order, starting from no tree at all.
pub open spec fn merge_all(chains: Seq<Tree>) -> Seq<Tree>
    decreases chains.len(),
{
    if chains.len() == 0 {
        Seq::empty()
    } else {
        Tree::absorb(merge_all(chains.drop_last()), chains.last())
    }
}

/// The commits of each branch, as sequences.
pub open spec fn branch_seqs(branches: Seq<Vec<Commit>>) -> Seq<Seq<Commit>> {
    Seq::new(branches.len(), |i: int| branches[i]@)
}

/// The linear history of each branch.
pub open spec fn chains_of(branches: Seq<Seq<Commit>>) -> Seq<Tree> {
    Seq::new(branches.len(), |i: int| Tree::chain(branches[i]))
}

/// Whether `i` is the first branch without a commit.
pub open spec fn is_first_empty(branches: Seq<Seq<Commit>>, i: int) -> bool {
    &&& 0 <= i < branches.len()
    &&& branches[i].len() == 0
    &&& forall|j: int| 0 <= j < i ==> (#[trigger] branches[j]).len() > 0
}

/// Why no forest could be built.
#[derive(Debug, Clone, Copy, PartialEq, Eq, Structural)]
pub enum ForestError {
    /// The branch with this index has no commit.
    EmptyBranch(usize),
}

/// The commits of all branches as one forest: what the branches share
/// from their first commit on is held once, and the forest forks where
/// they part.
pub struct CommitTree<'a> {
    pub children: Vec<CommitTreeNode<'a>>,
}

impl<'a> View for CommitTree<'a> {
    type V = Seq<Tree>;

    open spec fn view(&self) -> Seq<Tree> {
        views(self.children@)
    }
}

/// Merges `candidate` into `accepted`: into the first tree that starts
/// with the same commit, or as a new last tree where none does.
pub fn absorb<'a>(accepted: &mut Vec<CommitTreeNode<'a>>, candidate: &CommitTreeNode<'a>)
    ensures
        views(final(accepted)@) == Tree::absorb(views(old(accepted)@), candidate@),
{
    broadcast use group_tree_views;

    let ghost before = views(accepted@);
    let n: usize = accepted.len();
    let mut j: usize = 0;
    while j < n
        invariant
            n == accepted@.len(),
            j <= n,
            before == views(old(accepted)@),
            views(accepted@) == before,
            forall|k: int| 0 <= k < j ==> (#[trigger] before[k]).key() != candidate@.key(),
        decreases n - j,
    {
        broadcast use group_tree_views;

        let merged = accepted[j].merge(candidate);
        if merged {
            proof {
                lemma_first_root_is_unique(before, candidate@.key(), j as int);
            }
            return;
        }
        j = j + 1;
    }
    let copy = candidate.clone();
    accepted.push(copy);
}

impl<'a> CommitTree<'a> {
    /// Builds the forest of `commits`, which holds the commits of each
    /// branch, oldest first.
    ///
    /// A branch without a commit is an error: the first such branch is
    /// reported, and no forest is built.
    pub fn new(commits: &'a Vec<Vec<Commit>>) -> (result: Result<Self, ForestError>)
        ensures
            match result {
                Ok(tree) => {
                    &&& forall|i: int| 0 <= i < commits@.len() ==> (#[trigger] commits@[i])@.len() > 0
                    &&& tree@ == merge_all(chains_of(branch_seqs(commits@)))
                    &&& Tree::well_formed_forest(tree@)
                },
                Err(ForestError::EmptyBranch(i)) => is_first_empty(branch_seqs(commits@), i as int),
            },
    {
        broadcast use group_tree_views;

        let mut chains: Vec<CommitTreeNode<'a>> = Vec::new();
        let n: usize = commits.len();
        let mut i: usize = 0;
        while i < n
            invariant
                n == commits@.len(),
                i <= n,
                forall|j: int| 0 <= j < i ==> (#[trigger] commits@[j])@.len() > 0,
                views(chains@) == chains_of(branch_seqs(commits@)).take(i as int),
            decreases n - i,
        {
            broadcast use group_tree_views;

            if commits[i].len() == 0 {
                return Err(ForestError::EmptyBranch(i));
            }
            let chain = CommitTreeNode::chain(&commits[i]);
            chains.push(chain);
            i = i + 1;
        }
        proof {
            let all = chains_of(branch_seqs(commits@));
            assert(all.take(n as int) =~= all);
            lemma_merge_all_well_formed(branch_seqs(commits@));
        }
        let mut tree = CommitTree { children: chains };
        tree.merge();
        Ok(tree)
    }

    /// Merges the trees of the forest into each other, in their order:
    /// each tree goes into the first earlier result that starts with
    /// the same commit, or stays a tree of its own.
    pub fn merge(&mut self)
        ensures
            final(self)@ == merge_all(old(self)@),
    {
        broadcast use group_tree_views;

        let mut waiting: Vec<CommitTreeNode<'a>> = Vec::new();
        core::mem::swap(&mut self.children, &mut waiting);
        let ghost chains = views(waiting@);
        let n: usize = waiting.len();
        let mut i: usize = 0;
        while i < n
            invariant
                n == waiting@.len(),
                i <= n,
                chains == views(waiting@),
                views(self.children@) == merge_all(chains.take(i as int)),
            decreases n - i,
        {
            broadcast use group_tree_views;

            absorb(&mut self.children, &waiting[i]);
            proof {
                let upto = chains.take(i as int + 1);
                assert(upto.drop_last() =~= chains.take(i as int));
            }
            i = i + 1;
        }
        proof {
            assert(chains.take(n as int) =~= chains);
        }
    }

    /// The shallowest subtrees of the forest whose root commit is dated
    /// within `[start_unix_date, end_unix_date]`, tree by tree. The
    /// window does not end before it starts.
    pub fn sub_tree_vec_by_unix_date<'b>(&'b self, start_unix_date: u64, end_unix_date: u64) -> (result:
        Vec<&'b CommitTreeNode<'a>>)
        requires
            start_unix_date <= end_unix_date,
        ensures
            ref_views(result@) == Tree::select_all(self@, start_unix_date, end_unix_date),
    {
        broadcast use group_tree_views;

        let mut sub_tree_vec: Vec<&'b CommitTreeNode<'a>> = Vec::new();
        let n: usize = self.children.len();
        let mut i: usize = 0;
        while i < n
            invariant
                start_unix_date <= end_unix_date,
                n == self.children@.len(),
                i <= n,
                ref_views(sub_tree_vec@) == Tree::select_all(
                    self@.take(i as int),
                    start_unix_date,
                    end_unix_date,
                ),
            decreases n - i,
        {
            broadcast use group_tree_views;

            let mut found = self.children[i].sub_tree_by_unix_date(start_unix_date, end_unix_date);
            sub_tree_vec.append(&mut found);
            proof {
                let upto = self@.take(i as int + 1);
                assert(upto.drop_last() =~= self@.take(i as int));
            }
            i = i + 1;
        }
        proof {
            assert(self@.take(n as int) =~= self@);
        }
        sub_tree_vec
    }

    /// The commits of the selected subtrees, each commit once. The
    /// window does not end before it starts.
    ///
    /// The subtrees are those of `sub_tree_vec_by_unix_date`. Their
    /// commits are taken in pre-order, subtree by subtree, and a commit
    /// that came before is left out.
    pub fn commit_vec_by_unix(&self, start_unix_date: u64, end_unix_date: u64) -> (commits: Vec<
        &'a Commit,
    >)
        requires
            start_unix_date <= end_unix_date,
        ensures
            commits_of(commits@) == distinct(
                Tree::flatten_all(Tree::select_all(self@, start_unix_date, end_unix_date)),
            ),
            no_duplicates(commits_of(commits@)),
    {
        let tree_vec = self.sub_tree_vec_by_unix_date(start_unix_date, end_unix_date);
        let ghost trees = ref_views(tree_vec@);
        let mut commits: Vec<&'a Commit> = Vec::new();
        let n: usize = tree_vec.len();
        let mut i: usize = 0;
        while i < n
            invariant
                n == tree_vec@.len(),
                i <= n,
                trees == ref_views(tree_vec@),
                commits_of(commits@) == Tree::flatten_all(trees.take(i as int)),
            decreases n - i,
        {
            let mut below = flatten_commit_tree_node(tree_vec[i]);
            commits.append(&mut below);
            proof {
                let upto = trees.take(i as int + 1);
                assert(upto.drop_last() =~= trees.take(i as int));
            }
            i = i + 1;
        }
        proof {
            assert(trees.take(n as int) =~= trees);
            lemma_distinct_keeps_each_once(commits_of(commits@));
        }
        dedup_commits(commits)
    }
}

} // verus!
