//! Keeping each commit once.

use vstd::prelude::*;
use crate::commit::{Commit, CommitId};
use crate::tree::{commits_of, Tree};

verus! {

/// Whether one of `commits` has the identity `key`.
pub open spec fn has_key(commits: Seq<Commit>, key: CommitId) -> bool {
    exists|i: int| 0 <= i < commits.len() && (#[trigger] commits[i]).key() == key
}

/// Whether no two of `commits` stand for the same commit.
pub open spec fn no_duplicates(commits: Seq<Commit>) -> bool {
    forall|i: int, j: int|
        0 <= i < j < commits.len() ==> (#[trigger] commits[i]).key() != (#[trigger] commits[j]).key()
}

/// `commits` without those that stand for a commit that came before:
/// of the records of one commit, the first stays.
pub open spec fn distinct(commits: Seq<Commit>) -> Seq<Commit>
    decreases commits.len(),
{
    if commits.len() == 0 {
        Seq::empty()
    } else {
        let before = distinct(commits.drop_last());
        if has_key(before, commits.last().key()) {
            before
        } else {
            before.push(commits.last())
        }
    }
}

/// Whether one of `kept` stands for the same commit as `commit`.
fn holds_commit<'a>(kept: &Vec<&'a Commit>, commit: &Commit) -> (found: bool)
    ensures
        found == has_key(commits_of(kept@), commit.key()),
{
    let n: usize = kept.len();
    let mut i: usize = 0;
    while i < n
        invariant
            n == kept@.len(),
            i <= n,
            forall|j: int| 0 <= j < i ==> (#[trigger] commits_of(kept@)[j]).key() != commit.key(),
        decreases n - i,
    {
        if kept[i].is_same(commit) {
            proof {
                assert(commits_of(kept@)[i as int].key() == commit.key());
            }
            return true;
        }
        i = i + 1;
    }
    false
}

/// Leaves out of `commits` each record of a commit that came before.
pub fn dedup_commits<'a>(commits: Vec<&'a Commit>) -> (kept: Vec<&'a Commit>)
    ensures
        commits_of(kept@) == distinct(commits_of(commits@)),
{
    let ghost all = commits_of(commits@);
    let mut kept: Vec<&'a Commit> = Vec::new();
    let n: usize = commits.len();
    let mut i: usize = 0;
    while i < n
        invariant
            n == commits@.len(),
            i <= n,
            all == commits_of(commits@),
            commits_of(kept@) == distinct(all.take(i as int)),
        decreases n - i,
    {
        let commit: &'a Commit = commits[i];
        let seen = holds_commit(&kept, commit);
        if !seen {
            kept.push(commit);
        }
        proof {
            let upto = all.take(i as int + 1);
            assert(upto.drop_last() =~= all.take(i as int));
        }
        i = i + 1;
    }
    proof {
        assert(all.take(n as int) =~= all);
    }
    kept
}

/// What `distinct` keeps: no commit twice, a record of every commit
/// that was there, and nothing else.
pub proof fn lemma_distinct_keeps_each_once(commits: Seq<Commit>)
    ensures
        no_duplicates(distinct(commits)),
        distinct(commits).len() <= commits.len(),
        forall|key: CommitId| #[trigger] has_key(distinct(commits), key) <==> has_key(commits, key),
    decreases commits.len(),
{
    if commits.len() > 0 {
        let earlier = commits.drop_last();
        let last = commits.last();
        let before = distinct(earlier);
        let kept = distinct(commits);
        lemma_distinct_keeps_each_once(earlier);
        assert forall|key: CommitId| #[trigger] has_key(kept, key) <==> has_key(commits, key) by {
            assert(has_key(before, key) <==> has_key(earlier, key));
            if has_key(commits, key) {
                let i = choose|i: int| 0 <= i < commits.len() && (#[trigger] commits[i]).key() == key;
                if i < earlier.len() {
                    assert(earlier[i].key() == key);
                    lemma_has_key_grows(before, kept, key);
                } else {
                    if !has_key(before, last.key()) {
                        assert(kept[kept.len() - 1].key() == key);
                    }
                }
            }
        }
    }
}

/// A commit that is among `shorter` is among each sequence that
/// starts with `shorter`.
proof fn lemma_has_key_grows(shorter: Seq<Commit>, longer: Seq<Commit>, key: CommitId)
    requires
        has_key(shorter, key),
        shorter.len() <= longer.len(),
        forall|i: int| 0 <= i < shorter.len() ==> shorter[i] == longer[i],
    ensures
        has_key(longer, key),
{
}

/// Where no commit occurs twice, `distinct` leaves out nothing.
pub proof fn lemma_distinct_of_apart(commits: Seq<Commit>)
    requires
        no_duplicates(commits),
    ensures
        distinct(commits) == commits,
    decreases commits.len(),
{
    if commits.len() > 0 {
        let earlier = commits.drop_last();
        lemma_distinct_of_apart(earlier);
    }
}

/// A tree has as many commits as nodes, and so have several trees
/// together.
pub proof fn lemma_flatten_counts_nodes(trees: Seq<Tree>)
    ensures
        Tree::flatten_all(trees).len() == Tree::size_all(trees),
        forall|i: int| 0 <= i < trees.len() ==> (#[trigger] trees[i]).flatten().len() == trees[i].size(),
    decreases trees,
{
    if trees.len() > 0 {
        lemma_flatten_counts_nodes(trees.drop_last());
        lemma_flatten_counts_nodes(trees.last().children);
        assert forall|i: int| 0 <= i < trees.len() implies (#[trigger] trees[i]).flatten().len()
            == trees[i].size() by {
            if i < trees.len() - 1 {
                assert(trees[i] == trees.drop_last()[i]);
            }
        }
    }
}

/// Subtrees that share no commit give all their commits: what is left
/// after flattening and leaving out repeated commits is every commit of
/// every subtree, and they are as many as the subtrees have nodes.
pub proof fn lemma_apart_subtrees_keep_all(trees: Seq<Tree>)
    requires
        no_duplicates(Tree::flatten_all(trees)),
    ensures
        distinct(Tree::flatten_all(trees)) == Tree::flatten_all(trees),
        distinct(Tree::flatten_all(trees)).len() == Tree::size_all(trees),
{
    lemma_distinct_of_apart(Tree::flatten_all(trees));
    lemma_flatten_counts_nodes(trees);
}

} // verus!
