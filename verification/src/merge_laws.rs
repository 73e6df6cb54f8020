//! What holds of merging branch histories.

use vstd::prelude::*;
use crate::commit::Commit;
use crate::forest::{chains_of, merge_all};
use crate::tree::{lemma_first_root_exists, lemma_first_root_is_unique, Tree};

verus! {

/// Whether no commit of one branch stands for a commit of another.
pub open spec fn share_no_commit(branches: Seq<Seq<Commit>>) -> bool {
    forall|i: int, j: int, a: int, b: int|
        0 <= i < branches.len() && 0 <= j < branches.len() && i != j && 0 <= a < branches[i].len()
            && 0 <= b < branches[j].len() ==> (#[trigger] branches[i][a]).key()
            != (#[trigger] branches[j][b]).key()
}

/// Whether the first `k` commits of `a` and of `b` stand for the same
/// commits, and the two go on with different commits after them.
pub open spec fn fork_after(a: Seq<Commit>, b: Seq<Commit>, k: int) -> bool {
    &&& 1 <= k < a.len()
    &&& k < b.len()
    &&& forall|i: int| 0 <= i < k ==> (#[trigger] a[i]).key() == b[i].key()
    &&& a[k].key() != b[k].key()
}

/// Whether each commit of `b` stands for the commit of `a` at the same
/// place: `b` is a history that `a` continues.
pub open spec fn continues(a: Seq<Commit>, b: Seq<Commit>) -> bool {
    &&& 0 < b.len() <= a.len()
    &&& forall|i: int| 0 <= i < b.len() ==> (#[trigger] a[i]).key() == b[i].key()
}

impl Tree {
    /// Whether the history below the root of `chain` is already in
    /// `self`: each of its commits, one after the other, is found among
    /// the children of the node that holds the commit before it.
    pub open spec fn covers(self, chain: Tree) -> bool
        decreases chain,
    {
        chain.children.len() == 0 || exists|i: int|
            0 <= i < self.children.len() && (#[trigger] self.children[i]).key()
                == chain.children[0].key() && self.children[i].covers(chain.children[0])
    }
}

/// The history of a branch starts with the branch's first commit, is
/// linear and is well formed.
pub proof fn lemma_chain_shape(commits: Seq<Commit>)
    requires
        commits.len() > 0,
    ensures
        Tree::chain(commits).commit == commits[0],
        Tree::chain(commits).is_linear(),
        Tree::chain(commits).well_formed(),
        Tree::chain(commits).size() == commits.len(),
        Tree::chain(commits).flatten() == commits,
    decreases commits.len(),
{
    let chain = Tree::chain(commits);
    if commits.len() > 1 {
        let rest = commits.drop_first();
        lemma_chain_shape(rest);
        assert(Tree::size_all(chain.children.drop_last()) == 0);
        assert(Tree::flatten_all(chain.children.drop_last()) =~= Seq::<Commit>::empty());
    }
}

/// Splicing keeps a tree well formed and keeps its root commit.
pub proof fn lemma_splice_well_formed(base: Tree, chain: Tree)
    requires
        base.well_formed(),
        chain.well_formed(),
    ensures
        base.splice(chain).well_formed(),
        base.splice(chain).commit == base.commit,
    decreases chain, 0int,
{
    if chain.children.len() > 0 {
        lemma_absorb_well_formed(base.children, chain.children[0]);
    }
}

/// Merging a well-formed history into a well-formed forest leaves a
/// well-formed forest: no two of its trees start with the same commit,
/// and no two children of a node hold the same commit.
pub proof fn lemma_absorb_well_formed(trees: Seq<Tree>, chain: Tree)
    requires
        Tree::well_formed_forest(trees),
        chain.well_formed(),
    ensures
        Tree::well_formed_forest(Tree::absorb(trees, chain)),
    decreases chain, 1int,
{
    if Tree::has_root(trees, chain.key()) {
        lemma_first_root_exists(trees, chain.key());
        let i = Tree::first_root(trees, chain.key());
        lemma_splice_well_formed(trees[i], chain);
    }
}

/// The forest built from the histories of branches is well formed.
pub proof fn lemma_merge_all_well_formed(branches: Seq<Seq<Commit>>)
    requires
        forall|i: int| 0 <= i < branches.len() ==> (#[trigger] branches[i]).len() > 0,
    ensures
        Tree::well_formed_forest(merge_all(chains_of(branches))),
    decreases branches.len(),
{
    let chains = chains_of(branches);
    if branches.len() > 0 {
        let earlier = branches.drop_last();
        assert(chains.drop_last() =~= chains_of(earlier));
        lemma_merge_all_well_formed(earlier);
        lemma_chain_shape(branches.last());
        lemma_absorb_well_formed(merge_all(chains.drop_last()), chains.last());
    }
}

/// Branches that share no commit stay apart: the forest has one tree
/// for each branch, in the order of the branches, and each tree is the
/// linear history of its branch.
pub proof fn lemma_apart_branches_stay_apart(branches: Seq<Seq<Commit>>)
    requires
        forall|i: int| 0 <= i < branches.len() ==> (#[trigger] branches[i]).len() > 0,
        share_no_commit(branches),
    ensures
        merge_all(chains_of(branches)) == chains_of(branches),
    decreases branches.len(),
{
    let chains = chains_of(branches);
    if branches.len() > 0 {
        let earlier = branches.drop_last();
        assert(chains.drop_last() =~= chains_of(earlier));
        lemma_apart_branches_stay_apart(earlier);
    }
}

/// Splicing one branch's history into that of a branch with which it
/// shares its first `k` commits leaves the shared commits as one path,
/// whose last node has two children: what is left of the first branch,
/// and what is left of the second.
pub proof fn lemma_splice_forks(a: Seq<Commit>, b: Seq<Commit>, k: int)
    requires
        fork_after(a, b, k),
    ensures
        Tree::chain(a).splice(Tree::chain(b)) == Tree::trunk(
            a.take(k),
            seq![Tree::chain(a.skip(k)), Tree::chain(b.skip(k))],
        ),
    decreases k,
{
    let rest_a = a.drop_first();
    let rest_b = b.drop_first();
    let below = seq![Tree::chain(a.skip(k)), Tree::chain(b.skip(k))];
    let base = Tree::chain(a);
    let chain = Tree::chain(b);
    lemma_chain_shape(rest_a);
    lemma_chain_shape(rest_b);
    if k == 1 {
        assert(Tree::absorb(base.children, chain.children[0]) =~= below);
    } else {
        lemma_first_root_is_unique(base.children, chain.children[0].key(), 0);
        lemma_splice_forks(rest_a, rest_b, k - 1);
        assert(rest_a.skip(k - 1) =~= a.skip(k));
        assert(rest_b.skip(k - 1) =~= b.skip(k));
        assert(rest_a.take(k - 1) =~= a.take(k).drop_first());
        assert(Tree::absorb(base.children, chain.children[0]) =~= seq![
            Tree::trunk(rest_a.take(k - 1), below),
        ]);
    }
}

/// Two branches that share their first `k` commits and then part make
/// one tree: the shared commits as one path, whose last node has two
/// children, one for what is left of each branch.
pub proof fn lemma_forked_branches_share_a_trunk(a: Seq<Commit>, b: Seq<Commit>, k: int)
    requires
        fork_after(a, b, k),
    ensures
        merge_all(chains_of(seq![a, b])) == seq![
            Tree::trunk(a.take(k), seq![Tree::chain(a.skip(k)), Tree::chain(b.skip(k))]),
        ],
{
    let chains = chains_of(seq![a, b]);
    assert(chains =~= seq![Tree::chain(a), Tree::chain(b)]);
    lemma_merge_pair(Tree::chain(a), Tree::chain(b));
    lemma_splice_forks(a, b, k);
}

/// Merging two histories that start with the same commit gives one
/// tree: the first with the second spliced into it.
pub proof fn lemma_merge_pair(first: Tree, second: Tree)
    ensures
        first.key() == second.key() ==> merge_all(seq![first, second]) == seq![
            first.splice(second),
        ],
        first.key() != second.key() ==> merge_all(seq![first, second]) == seq![first, second],
{
    let chains = seq![first, second];
    let one = chains.drop_last();
    assert(merge_all(one.drop_last()) =~= Seq::<Tree>::empty());
    assert(merge_all(one) =~= seq![first]);
    if first.key() == second.key() {
        lemma_first_root_is_unique(seq![first], second.key(), 0);
    }
}

/// Splicing a history whose commits are all in the tree already
/// changes nothing: no node is added.
pub proof fn lemma_covered_history_adds_nothing(base: Tree, chain: Tree)
    requires
        base.well_formed(),
        base.covers(chain),
    ensures
        base.splice(chain) == base,
        base.key() == chain.key() ==> base.merge(chain) == base,
    decreases chain,
{
    if chain.children.len() > 0 {
        let next = chain.children[0];
        let i = choose|i: int|
            0 <= i < base.children.len() && (#[trigger] base.children[i]).key() == next.key()
                && base.children[i].covers(next);
        lemma_first_root_exists(base.children, next.key());
        lemma_covered_history_adds_nothing(base.children[i], next);
        assert(Tree::absorb(base.children, next) =~= base.children);
    }
}

/// The history of a branch covers the history of each branch that it
/// continues.
pub proof fn lemma_longer_branch_covers(a: Seq<Commit>, b: Seq<Commit>)
    requires
        continues(a, b),
    ensures
        Tree::chain(a).key() == Tree::chain(b).key(),
        Tree::chain(a).covers(Tree::chain(b)),
    decreases b.len(),
{
    lemma_chain_shape(a);
    if b.len() > 1 {
        let rest_a = a.drop_first();
        let rest_b = b.drop_first();
        lemma_longer_branch_covers(rest_a, rest_b);
    }
}

/// A branch that another branch continues adds nothing to the forest:
/// the forest of the two is the history of the longer one alone.
pub proof fn lemma_continued_branch_adds_nothing(a: Seq<Commit>, b: Seq<Commit>)
    requires
        continues(a, b),
    ensures
        merge_all(chains_of(seq![a, b])) == seq![Tree::chain(a)],
{
    let chains = chains_of(seq![a, b]);
    assert(chains =~= seq![Tree::chain(a), Tree::chain(b)]);
    lemma_merge_pair(Tree::chain(a), Tree::chain(b));
    lemma_chain_shape(a);
    lemma_longer_branch_covers(a, b);
    lemma_covered_history_adds_nothing(Tree::chain(a), Tree::chain(b));
}

/// Whether the history `chain` is in the forest `trees`: one of the
/// trees starts with the same commit and covers what follows it.
pub open spec fn forest_covers(trees: Seq<Tree>, chain: Tree) -> bool {
    exists|r: int|
        0 <= r < trees.len() && (#[trigger] trees[r]).key() == chain.key() && trees[r].covers(chain)
}

/// A tree covers the history along its own first children.
pub proof fn lemma_covers_itself(tree: Tree)
    ensures
        tree.covers(tree),
    decreases tree,
{
    if tree.children.len() > 0 {
        lemma_covers_itself(tree.children[0]);
    }
}

/// After a history has been spliced into a tree, the tree covers it,
/// and it still covers each history that it covered before.
pub proof fn lemma_splice_covers(base: Tree, chain: Tree, other: Tree)
    ensures
        base.splice(chain).key() == base.key(),
        base.splice(chain).covers(chain),
        base.covers(other) ==> base.splice(chain).covers(other),
    decreases chain, 0int,
{
    if chain.children.len() > 0 {
        let next = chain.children[0];
        let after = Tree::absorb(base.children, next);
        lemma_absorb_covers(base.children, next, next);
        let r = choose|r: int|
            0 <= r < after.len() && (#[trigger] after[r]).key() == next.key() && after[r].covers(next);
        assert(base.splice(chain).children[r].key() == next.key());
        if base.covers(other) && other.children.len() > 0 {
            let below = other.children[0];
            lemma_absorb_covers(base.children, next, below);
        }
    }
}

/// After a history has been merged into a forest, the forest covers
/// it, and it still covers each history that it covered before.
pub proof fn lemma_absorb_covers(trees: Seq<Tree>, chain: Tree, other: Tree)
    ensures
        forest_covers(Tree::absorb(trees, chain), chain),
        forest_covers(trees, other) ==> forest_covers(Tree::absorb(trees, chain), other),
    decreases chain, 1int,
{
    let after = Tree::absorb(trees, chain);
    if Tree::has_root(trees, chain.key()) {
        lemma_first_root_exists(trees, chain.key());
        let i = Tree::first_root(trees, chain.key());
        lemma_splice_covers(trees[i], chain, other);
        assert(after[i].key() == chain.key() && after[i].covers(chain));
        if forest_covers(trees, other) {
            let r = choose|r: int|
                0 <= r < trees.len() && (#[trigger] trees[r]).key() == other.key() && trees[r].covers(
                    other,
                );
            assert(after[r].key() == other.key() && after[r].covers(other));
        }
    } else {
        lemma_covers_itself(chain);
        assert(after[trees.len() as int].key() == chain.key() && after[trees.len() as int].covers(
            chain,
        ));
        if forest_covers(trees, other) {
            let r = choose|r: int|
                0 <= r < trees.len() && (#[trigger] trees[r]).key() == other.key() && trees[r].covers(
                    other,
                );
            assert(after[r].key() == other.key() && after[r].covers(other));
        }
    }
}

/// No history is lost: the forest built from histories covers each of
/// them.
pub proof fn lemma_forest_covers_every_history(chains: Seq<Tree>, i: int)
    requires
        0 <= i < chains.len(),
    ensures
        forest_covers(merge_all(chains), chains[i]),
    decreases chains.len(),
{
    let earlier = chains.drop_last();
    if i < chains.len() - 1 {
        lemma_forest_covers_every_history(earlier, i);
        lemma_absorb_covers(merge_all(earlier), chains.last(), chains[i]);
    } else {
        lemma_absorb_covers(merge_all(earlier), chains.last(), chains.last());
    }
}

} // verus!
