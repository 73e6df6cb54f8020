//! What holds of the subtrees that a date window selects.

use vstd::prelude::*;
use crate::tree::Tree;

verus! {

impl Tree {
    /// Whether `path` leads from the root to a node: each number in it
    /// is the index of a child of the node before.
    pub open spec fn has_path(self, path: Seq<int>) -> bool
        decreases path.len(),
    {
        path.len() == 0 || (0 <= path[0] < self.children.len() && self.children[path[0]].has_path(
            path.drop_first(),
        ))
    }

    /// The subtree that `path` leads to.
    pub open spec fn at(self, path: Seq<int>) -> Tree
        decreases path.len(),
    {
        if path.len() == 0 {
            self
        } else {
            self.children[path[0]].at(path.drop_first())
        }
    }

    /// Whether `path` leads to a node dated within `[start, end]`
    /// through nodes that are all dated outside of it.
    pub open spec fn is_shallowest(self, path: Seq<int>, start: u64, end: u64) -> bool {
        &&& self.has_path(path)
        &&& self.at(path).commit.in_window(start, end)
        &&& forall|m: int|
            0 <= m < path.len() ==> !(#[trigger] self.at(path.take(m))).commit.in_window(start, end)
    }

    /// The paths to the subtrees that `select` gives, in its order.
    pub open spec fn select_paths(self, start: u64, end: u64) -> Seq<Seq<int>>
        decreases self,
    {
        if self.commit.in_window(start, end) {
            seq![Seq::empty()]
        } else {
            Tree::select_paths_all(self.children, start, end)
        }
    }

    /// The paths to the subtrees that `select_all` gives, in its order;
    /// each starts with the index of the tree that it leads into.
    pub open spec fn select_paths_all(trees: Seq<Tree>, start: u64, end: u64) -> Seq<Seq<int>>
        decreases trees,
    {
        if trees.len() == 0 {
            Seq::empty()
        } else {
            Tree::select_paths_all(trees.drop_last(), start, end) + Tree::through(
                trees.len() - 1,
                trees.last().select_paths(start, end),
            )
        }
    }

    /// `paths`, each with `i` put before it.
    pub open spec fn through(i: int, paths: Seq<Seq<int>>) -> Seq<Seq<int>> {
        Seq::new(paths.len(), |k: int| seq![i] + paths[k])
    }
}

/// Whether `path` leads into one of `trees` and on to a node of it.
pub open spec fn forest_has_path(trees: Seq<Tree>, path: Seq<int>) -> bool {
    &&& path.len() > 0
    &&& 0 <= path[0] < trees.len()
    &&& trees[path[0]].has_path(path.drop_first())
}

/// The subtree of `trees` that `path` leads to.
pub open spec fn forest_at(trees: Seq<Tree>, path: Seq<int>) -> Tree {
    trees[path[0]].at(path.drop_first())
}

/// Whether `path` leads into one of `trees` and there to a node dated
/// within `[start, end]`, through nodes that are all dated outside.
pub open spec fn forest_is_shallowest(trees: Seq<Tree>, path: Seq<int>, start: u64, end: u64) -> bool {
    &&& forest_has_path(trees, path)
    &&& trees[path[0]].is_shallowest(path.drop_first(), start, end)
}

/// Whether `short` is the beginning of the longer `long`.
pub open spec fn is_proper_prefix(short: Seq<int>, long: Seq<int>) -> bool {
    short.len() < long.len() && long.take(short.len() as int) == short
}

/// Each subtree that a tree's selection gives is dated within the
/// window and stands below nodes dated outside of it, at the path that
/// `select_paths` gives for it.
pub proof fn lemma_select_is_shallowest(tree: Tree, start: u64, end: u64)
    ensures
        tree.select_paths(start, end).len() == tree.select(start, end).len(),
        forall|k: int|
            0 <= k < tree.select(start, end).len() ==> {
                &&& tree.is_shallowest(#[trigger] tree.select_paths(start, end)[k], start, end)
                &&& tree.at(tree.select_paths(start, end)[k]) == tree.select(start, end)[k]
            },
    decreases tree,
{
    let paths = tree.select_paths(start, end);
    let found = tree.select(start, end);
    if !tree.commit.in_window(start, end) {
        lemma_select_all_is_shallowest(tree.children, start, end);
        assert forall|k: int| 0 <= k < found.len() implies {
            &&& tree.is_shallowest(#[trigger] paths[k], start, end)
            &&& tree.at(paths[k]) == found[k]
        } by {
            let path = paths[k];
            let child = tree.children[path[0]];
            let rest = path.drop_first();
            assert forall|m: int| 0 <= m < path.len() implies !(#[trigger] tree.at(
                path.take(m),
            )).commit.in_window(start, end) by {
                if m > 0 {
                    assert(path.take(m).drop_first() =~= rest.take(m - 1));
                    assert(tree.at(path.take(m)) == child.at(rest.take(m - 1)));
                }
            }
        }
    }
}

/// Each subtree that a forest's selection gives is dated within the
/// window and stands below nodes dated outside of it, at the path that
/// `select_paths_all` gives for it.
pub proof fn lemma_select_all_is_shallowest(trees: Seq<Tree>, start: u64, end: u64)
    ensures
        Tree::select_paths_all(trees, start, end).len() == Tree::select_all(trees, start, end).len(),
        forall|k: int|
            0 <= k < Tree::select_all(trees, start, end).len() ==> {
                &&& forest_is_shallowest(
                    trees,
                    #[trigger] Tree::select_paths_all(trees, start, end)[k],
                    start,
                    end,
                )
                &&& forest_at(trees, Tree::select_paths_all(trees, start, end)[k])
                    == Tree::select_all(trees, start, end)[k]
            },
    decreases trees,
{
    let paths = Tree::select_paths_all(trees, start, end);
    let found = Tree::select_all(trees, start, end);
    if trees.len() > 0 {
        let earlier = trees.drop_last();
        let last = trees.last();
        lemma_select_all_is_shallowest(earlier, start, end);
        lemma_select_is_shallowest(last, start, end);
        let earlier_paths = Tree::select_paths_all(earlier, start, end);
        let last_paths = last.select_paths(start, end);
        assert forall|k: int| 0 <= k < found.len() implies {
            &&& forest_is_shallowest(trees, #[trigger] paths[k], start, end)
            &&& forest_at(trees, paths[k]) == found[k]
        } by {
            let path = paths[k];
            if k >= earlier_paths.len() {
                let inner = last_paths[k - earlier_paths.len()];
                assert(path.drop_first() =~= inner);
            }
        }
    }
}

/// A date window never selects a node together with a node above it:
/// no path to a selected subtree is the beginning of the path to
/// another.
pub proof fn lemma_no_selected_ancestor(trees: Seq<Tree>, start: u64, end: u64, k: int, l: int)
    requires
        0 <= k < Tree::select_all(trees, start, end).len(),
        0 <= l < Tree::select_all(trees, start, end).len(),
    ensures
        !is_proper_prefix(
            Tree::select_paths_all(trees, start, end)[k],
            Tree::select_paths_all(trees, start, end)[l],
        ),
{
    let paths = Tree::select_paths_all(trees, start, end);
    lemma_select_all_is_shallowest(trees, start, end);
    let short = paths[k];
    let long = paths[l];
    if is_proper_prefix(short, long) {
        let m = short.len() as int;
        assert(long.drop_first().take(m - 1) =~= short.drop_first());
    }
}

} // verus!
