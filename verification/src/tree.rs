//! The tree of commits that one or more branch histories form.
//!
//! `Tree` is the mathematical model; `CommitTreeNode` is the tree that
//! runs, and its view is a `Tree`.

use vstd::prelude::*;
use crate::commit::{Commit, CommitId};

verus! {

/// The mathematical tree behind a `CommitTreeNode`.
pub struct Tree {
    pub commit: Commit,
    pub children: Seq<Tree>,
}

impl Tree {
    /// The identity of the commit at the root.
    pub open spec fn key(self) -> CommitId {
        self.commit.id@
    }

    /// The number of nodes.
    pub open spec fn size(self) -> nat
        decreases self,
    {
        1 + Tree::size_all(self.children)
    }

    /// The number of nodes of several trees together.
    pub open spec fn size_all(trees: Seq<Tree>) -> nat
        decreases trees,
    {
        if trees.len() == 0 {
            0
        } else {
            Tree::size_all(trees.drop_last()) + trees.last().size()
        }
    }

    /// A tree with nothing below its root.
    pub open spec fn leaf(commit: Commit) -> Tree {
        Tree { commit, children: Seq::empty() }
    }

    /// The path through `prefix`, oldest commit first, whose last node
    /// has `below` as its children. `prefix` is not empty.
    pub open spec fn trunk(prefix: Seq<Commit>, below: Seq<Tree>) -> Tree
        decreases prefix.len(),
    {
        if prefix.len() <= 1 {
            Tree { commit: prefix[0], children: below }
        } else {
            Tree { commit: prefix[0], children: seq![Tree::trunk(prefix.drop_first(), below)] }
        }
    }

    /// The linear history of one branch: each commit is the only child
    /// of the one before it. `commits` is not empty.
    pub open spec fn chain(commits: Seq<Commit>) -> Tree {
        Tree::trunk(commits, Seq::empty())
    }

    /// Whether every node has at most one child.
    pub open spec fn is_linear(self) -> bool
        decreases self,
    {
        self.children.len() == 0 || (self.children.len() == 1 && self.children[0].is_linear())
    }

    /// Whether one of `trees` has `key` at its root.
    pub open spec fn has_root(trees: Seq<Tree>, key: CommitId) -> bool {
        exists|i: int| 0 <= i < trees.len() && #[trigger] trees[i].key() == key
    }

    /// Whether `trees[i]` is the first of `trees` with `key` at its root.
    pub open spec fn is_first_root(trees: Seq<Tree>, key: CommitId, i: int) -> bool {
        &&& 0 <= i < trees.len()
        &&& trees[i].key() == key
        &&& forall|j: int| 0 <= j < i ==> #[trigger] trees[j].key() != key
    }

    /// The index of the first of `trees` with `key` at its root, where
    /// there is one.
    pub open spec fn first_root(trees: Seq<Tree>, key: CommitId) -> int {
        choose|i: int| Tree::is_first_root(trees, key, i)
    }

    /// `self` after the history below the root of `chain` has been
    /// laid over it.
    ///
    /// The walk follows the first child of `chain` at each step. While
    /// a child of the current node has the same commit, it goes down
    /// into the first such child. Where none has, what is left of
    /// `chain` becomes a new last child, and the walk ends.
    pub open spec fn splice(self, chain: Tree) -> Tree
        decreases chain, 0int,
    {
        if chain.children.len() == 0 {
            self
        } else {
            Tree { commit: self.commit, children: Tree::absorb(self.children, chain.children[0]) }
        }
    }

    /// `trees` after `chain` has been merged into them: spliced into
    /// the first tree that starts with the same commit, or added at
    /// the end where no tree does.
    pub open spec fn absorb(trees: Seq<Tree>, chain: Tree) -> Seq<Tree>
        decreases chain, 1int,
    {
        if Tree::has_root(trees, chain.key()) {
            let i = Tree::first_root(trees, chain.key());
            trees.update(i, trees[i].splice(chain))
        } else {
            trees.push(chain)
        }
    }

    /// `self` after an attempt to merge `other` into it: unchanged
    /// where the two start with different commits.
    pub open spec fn merge(self, other: Tree) -> Tree {
        if self.key() == other.key() {
            self.splice(other)
        } else {
            self
        }
    }

    /// The shallowest subtrees whose root commit is dated within
    /// `[start, end]`, in depth-first order.
    pub open spec fn select(self, start: u64, end: u64) -> Seq<Tree>
        decreases self,
    {
        if self.commit.in_window(start, end) {
            seq![self]
        } else {
            Tree::select_all(self.children, start, end)
        }
    }

    /// The selections of several trees, one after the other.
    pub open spec fn select_all(trees: Seq<Tree>, start: u64, end: u64) -> Seq<Tree>
        decreases trees,
    {
        if trees.len() == 0 {
            Seq::empty()
        } else {
            Tree::select_all(trees.drop_last(), start, end) + trees.last().select(start, end)
        }
    }

    /// The commits of the tree in pre-order.
    pub open spec fn flatten(self) -> Seq<Commit>
        decreases self,
    {
        seq![self.commit] + Tree::flatten_all(self.children)
    }

    /// The commits of several trees, each in pre-order, one tree after
    /// the other.
    pub open spec fn flatten_all(trees: Seq<Tree>) -> Seq<Commit>
        decreases trees,
    {
        if trees.len() == 0 {
            Seq::empty()
        } else {
            Tree::flatten_all(trees.drop_last()) + trees.last().flatten()
        }
    }

    /// Whether no two of `trees` start with the same commit.
    pub open spec fn distinct_roots(trees: Seq<Tree>) -> bool {
        forall|i: int, j: int|
            0 <= i < j < trees.len() ==> #[trigger] trees[i].key() != #[trigger] trees[j].key()
    }

    /// Whether, at every node, no two children hold the same commit.
    pub open spec fn well_formed(self) -> bool
        decreases self,
    {
        &&& Tree::distinct_roots(self.children)
        &&& forall|i: int|
            0 <= i < self.children.len() ==> (#[trigger] self.children[i]).well_formed()
    }

    /// Whether `trees` are well formed and start with different commits.
    pub open spec fn well_formed_forest(trees: Seq<Tree>) -> bool {
        &&& Tree::distinct_roots(trees)
        &&& forall|i: int| 0 <= i < trees.len() ==> (#[trigger] trees[i]).well_formed()
    }
}

/// A commit and the commits that follow it, one subtree per line of
/// history that continues from it.
pub struct CommitTreeNode<'a> {
    pub commit: &'a Commit,
    pub children: Vec<CommitTreeNode<'a>>,
}

impl<'a> View for CommitTreeNode<'a> {
    type V = Tree;

    open spec fn view(&self) -> Tree
        decreases self,
    {
        Tree { commit: *self.commit, children: views(self.children@) }
    }
}

/// The trees behind a sequence of nodes.
pub open spec fn views<'a>(nodes: Seq<CommitTreeNode<'a>>) -> Seq<Tree>
    decreases nodes,
{
    if nodes.len() == 0 {
        Seq::empty()
    } else {
        views(nodes.drop_last()).push(nodes.last()@)
    }
}

/// The induction behind `lemma_views`.
proof fn lemma_views_index<'a>(nodes: Seq<CommitTreeNode<'a>>)
    ensures
        views(nodes).len() == nodes.len(),
        forall|i: int| 0 <= i < nodes.len() ==> (#[trigger] views(nodes)[i]) == nodes[i]@,
    decreases nodes.len(),
{
    if nodes.len() > 0 {
        lemma_views_index(nodes.drop_last());
        assert(views(nodes) == views(nodes.drop_last()).push(nodes.last()@));
    }
}

/// `views` keeps the length and takes each node to its view.
pub broadcast proof fn lemma_views<'a>(nodes: Seq<CommitTreeNode<'a>>)
    ensures
        #![trigger views(nodes)]
        views(nodes).len() == nodes.len(),
        forall|i: int| 0 <= i < nodes.len() ==> (#[trigger] views(nodes)[i]) == nodes[i]@,
{
    lemma_views_index(nodes);
}

/// The view of a node holds its commit and the views of its children.
pub broadcast proof fn lemma_view<'a>(node: CommitTreeNode<'a>)
    ensures
        #![trigger node@]
        node@.commit == *node.commit,
        node@.children == views(node.children@),
{
}

pub broadcast group group_tree_views {
    lemma_views,
    lemma_view,
}

/// The trees behind a sequence of borrowed nodes.
pub open spec fn ref_views<'a, 'b>(nodes: Seq<&'b CommitTreeNode<'a>>) -> Seq<Tree> {
    Seq::new(nodes.len(), |i: int| nodes[i]@)
}

/// The commits behind a sequence of borrowed commits.
pub open spec fn commits_of<'a>(refs: Seq<&'a Commit>) -> Seq<Commit> {
    Seq::new(refs.len(), |i: int| *refs[i])
}

/// Two nodes are equal where they hold the same commit.
impl<'a> PartialEq for CommitTreeNode<'a> {
    fn eq(&self, other: &CommitTreeNode<'a>) -> (r: bool) {
        self.commit.is_same(other.commit)
    }
}

impl<'a> Eq for CommitTreeNode<'a> {

}

impl<'a> vstd::std_specs::cmp::PartialEqSpecImpl for CommitTreeNode<'a> {
    open spec fn obeys_eq_spec() -> bool {
        true
    }

    open spec fn eq_spec(&self, other: &CommitTreeNode<'a>) -> bool {
        self.commit.id@ == other.commit.id@
    }
}

impl<'a> Clone for CommitTreeNode<'a> {
    fn clone(&self) -> (copy: Self)
        ensures
            copy@ == self@,
        decreases self,
    {
        broadcast use group_tree_views;

        let mut children: Vec<CommitTreeNode<'a>> = Vec::new();
        let n: usize = self.children.len();
        let mut i: usize = 0;
        while i < n
            invariant
                n == self.children@.len(),
                i <= n,
                children@.len() == i,
                forall|j: int| 0 <= j < i ==> (#[trigger] children@[j])@ == self.children@[j]@,
            decreases n - i,
        {
            broadcast use group_tree_views;

            let child = self.children[i].clone();
            children.push(child);
            i = i + 1;
        }
        let copy = CommitTreeNode { commit: self.commit, children };
        proof {
            assert(copy@.children =~= self@.children);
        }
        copy
    }
}

impl<'a> CommitTreeNode<'a> {
    /// A node for `commit` with no children.
    pub fn new(commit: &'a Commit) -> (node: Self)
        ensures
            node@ == Tree::leaf(*commit),
    {
        broadcast use group_tree_views;

        let node = CommitTreeNode { commit, children: Vec::new() };
        node
    }

    /// Adds a node for `commit` as the last child.
    pub fn add_child(&mut self, commit: &'a Commit)
        ensures
            final(self)@.commit == old(self)@.commit,
            final(self)@.children == old(self)@.children.push(Tree::leaf(*commit)),
    {
        broadcast use group_tree_views;

        let child = CommitTreeNode::new(commit);
        self.children.push(child);
    }

    /// The linear history of one branch: a node for the first commit
    /// of `commits`, with each later commit as the only child of the
    /// one before it.
    pub fn chain(commits: &'a Vec<Commit>) -> (root: Self)
        requires
            commits@.len() > 0,
        ensures
            root@ == Tree::chain(commits@),
    {
        broadcast use group_tree_views;

        let n: usize = commits.len();
        let mut i: usize = n - 1;
        let mut node = CommitTreeNode::new(&commits[i]);
        while i > 0
            invariant
                n == commits@.len(),
                i < n,
                node@ == Tree::chain(commits@.subrange(i as int, n as int)),
            decreases i,
        {
            broadcast use group_tree_views;

            i = i - 1;
            let mut parent = CommitTreeNode::new(&commits[i]);
            let ghost below = node@;
            parent.children.push(node);
            node = parent;
            proof {
                let rest = commits@.subrange(i as int, n as int);
                assert(rest.drop_first() =~= commits@.subrange(i as int + 1, n as int));
                assert(node@.children =~= seq![below]);
            }
        }
        proof {
            assert(commits@.subrange(0, n as int) =~= commits@);
        }
        node
    }

    /// The index of the first child that holds the same commit as
    /// `commit`, if there is one.
    pub fn position(&self, commit: &Commit) -> (found: Option<usize>)
        ensures
            found is Some <==> Tree::has_root(self@.children, commit.key()),
            found matches Some(i) ==> i == Tree::first_root(self@.children, commit.key()),
    {
        broadcast use group_tree_views;

        find_root(&self.children, commit)
    }

    /// Merges the linear history `tree_node` into `self`, and says
    /// whether it did.
    ///
    /// Nothing is merged, and nothing changes, where the two start with
    /// different commits. Where they start with the same commit, the
    /// history below it is laid over `self` as `Tree::splice` says.
    pub fn merge(&mut self, tree_node: &CommitTreeNode<'a>) -> (merged: bool)
        ensures
            merged == (old(self)@.key() == tree_node@.key()),
            final(self)@ == old(self)@.merge(tree_node@),
    {
        if !self.commit.is_same(tree_node.commit) {
            return false;
        }
        self.splice(tree_node);
        true
    }

    /// Lays the history below the root of `chain` over `self`.
    pub fn splice(&mut self, chain: &CommitTreeNode<'a>)
        ensures
            final(self)@ == old(self)@.splice(chain@),
        decreases chain,
    {
        broadcast use group_tree_views;

        if chain.children.len() == 0 {
            return;
        }
        let next = &chain.children[0];
        match find_root(&self.children, next.commit) {
            None => {
                let copy = next.clone();
                self.children.push(copy);
                proof {
                    assert(self@.children =~= old(self)@.children.push(next@));
                }
            },
            Some(i) => {
                let ghost before = self.children@[i as int]@;
                self.children[i].splice(next);
                proof {
                    assert(self@.children =~= old(self)@.children.update(
                        i as int,
                        before.splice(next@),
                    ));
                }
            },
        }
    }

    /// The shallowest subtrees whose root commit is dated within
    /// `[start_unix_date, end_unix_date]`, in depth-first order. The
    /// window does not end before it starts.
    ///
    /// The search does not go below a node that qualifies.
    pub fn sub_tree_by_unix_date<'b>(&'b self, start_unix_date: u64, end_unix_date: u64) -> (result:
        Vec<&'b CommitTreeNode<'a>>)
        requires
            start_unix_date <= end_unix_date,
        ensures
            ref_views(result@) == self@.select(start_unix_date, end_unix_date),
        decreases self,
    {
        broadcast use group_tree_views;

        let mut result: Vec<&'b CommitTreeNode<'a>> = Vec::new();
        if self.commit.is_in_window(start_unix_date, end_unix_date) {
            result.push(self);
        } else {
            let n: usize = self.children.len();
            let mut i: usize = 0;
            while i < n
                invariant
                    start_unix_date <= end_unix_date,
                    n == self.children@.len(),
                    i <= n,
                    self@.children == views(self.children@),
                    ref_views(result@) == Tree::select_all(
                        self@.children.take(i as int),
                        start_unix_date,
                        end_unix_date,
                    ),
                decreases n - i,
            {
                broadcast use group_tree_views;

                let mut child_result = self.children[i].sub_tree_by_unix_date(
                    start_unix_date,
                    end_unix_date,
                );
                result.append(&mut child_result);
                proof {
                    let upto = self@.children.take(i as int + 1);
                    assert(upto.drop_last() =~= self@.children.take(i as int));
                }
                i = i + 1;
            }
            proof {
                assert(self@.children.take(n as int) =~= self@.children);
            }
        }
        result
    }
}

/// The index of the first of `nodes` that holds the same commit as
/// `commit`, if there is one.
pub fn find_root<'a>(nodes: &Vec<CommitTreeNode<'a>>, commit: &Commit) -> (found: Option<usize>)
    ensures
        found is Some <==> Tree::has_root(views(nodes@), commit.key()),
        found matches Some(i) ==> Tree::is_first_root(views(nodes@), commit.key(), i as int),
        found matches Some(i) ==> i == Tree::first_root(views(nodes@), commit.key()),
{
    broadcast use group_tree_views;

    let n: usize = nodes.len();
    let mut i: usize = 0;
    while i < n
        invariant
            n == nodes@.len(),
            i <= n,
            forall|j: int| 0 <= j < i ==> (#[trigger] views(nodes@)[j]).key() != commit.key(),
        decreases n - i,
    {
        broadcast use group_tree_views;

        if nodes[i].commit.is_same(commit) {
            proof {
                lemma_first_root_is_unique(views(nodes@), commit.key(), i as int);
            }
            return Some(i);
        }
        i = i + 1;
    }
    None
}

/// Only one index is that of the first tree with `key` at its root.
pub proof fn lemma_first_root_is_unique(trees: Seq<Tree>, key: CommitId, i: int)
    requires
        Tree::is_first_root(trees, key, i),
    ensures
        Tree::has_root(trees, key),
        Tree::first_root(trees, key) == i,
{
}

/// Where some tree has `key` at its root, one of them is the first.
pub proof fn lemma_first_root_exists(trees: Seq<Tree>, key: CommitId)
    requires
        Tree::has_root(trees, key),
    ensures
        Tree::is_first_root(trees, key, Tree::first_root(trees, key)),
    decreases trees.len(),
{
    let w = choose|i: int| 0 <= i < trees.len() && #[trigger] trees[i].key() == key;
    lemma_least_root(trees, key, w);
}

/// Below any tree with `key` at its root there is a first one.
proof fn lemma_least_root(trees: Seq<Tree>, key: CommitId, w: int)
    requires
        0 <= w < trees.len(),
        trees[w].key() == key,
    ensures
        exists|i: int| Tree::is_first_root(trees, key, i),
        Tree::is_first_root(trees, key, Tree::first_root(trees, key)),
    decreases w,
{
    if exists|j: int| 0 <= j < w && #[trigger] trees[j].key() == key {
        let j = choose|j: int| 0 <= j < w && #[trigger] trees[j].key() == key;
        lemma_least_root(trees, key, j);
    } else {
        assert(Tree::is_first_root(trees, key, w));
    }
}

/// The commits of the tree under `commit_tree`, in pre-order.
pub fn flatten_commit_tree_node<'a, 'b>(commit_tree: &'b CommitTreeNode<'a>) -> (commits: Vec<
    &'a Commit,
>)
    ensures
        commits_of(commits@) == commit_tree@.flatten(),
    decreases commit_tree,
{
    broadcast use group_tree_views;

    let mut commits: Vec<&'a Commit> = Vec::new();
    commits.push(commit_tree.commit);
    let n: usize = commit_tree.children.len();
    let mut i: usize = 0;
    while i < n
        invariant
            n == commit_tree.children@.len(),
            i <= n,
            commit_tree@.children == views(commit_tree.children@),
            commits_of(commits@) == seq![commit_tree@.commit] + Tree::flatten_all(
                commit_tree@.children.take(i as int),
            ),
        decreases n - i,
    {
        broadcast use group_tree_views;

        let mut below = flatten_commit_tree_node(&commit_tree.children[i]);
        let ghost before = commits@;
        let ghost added = below@;
        commits.append(&mut below);
        proof {
            let upto = commit_tree@.children.take(i as int + 1);
            assert(upto.drop_last() =~= commit_tree@.children.take(i as int));
            assert(commits_of(commits@) =~= commits_of(before) + commits_of(added));
        }
        i = i + 1;
    }
    proof {
        assert(commit_tree@.children.take(n as int) =~= commit_tree@.children);
    }
    commits
}

} // verus!
