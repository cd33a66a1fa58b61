//! Hidden entries: which names are hidden, and a listing without them.

use vstd::prelude::*;
use vstd::string::*;
use crate::node::Tree;
use crate::paths::{is_path, node_at};

verus! {

/// A name is hidden when it starts with a dot.
pub open spec fn hidden(name: Seq<char>) -> bool {
    name.len() > 0 && name[0] == '.'
}

/// Whether an entry of this name is listed: every entry is when hidden
/// entries were asked for, otherwise only those whose name is not hidden.
pub open spec fn shown(name: Seq<char>, read_hidden_files: bool) -> bool {
    read_hidden_files || !hidden(name)
}

impl Tree {
    /// The tree without the hidden entries beneath it.
    pub open spec fn pruned(self) -> Tree
        decreases self,
    {
        match self {
            Tree::Directory { name, children } => Tree::Directory {
                name,
                children: visible(children),
            },
            _ => self,
        }
    }
}

/// The listing without its hidden entries, at every depth. A hidden
/// directory goes with all that it holds; the order of the others stays.
pub open spec fn visible(forest: Seq<Tree>) -> Seq<Tree>
    decreases forest,
{
    if forest.len() == 0 {
        Seq::empty()
    } else if hidden(forest.last().name()) {
        visible(forest.drop_last())
    } else {
        visible(forest.drop_last()).push(forest.last().pruned())
    }
}

/// Whether `name` is hidden.
pub fn is_hidden(name: &str) -> (result: bool)
    ensures
        result == hidden(name@),
{
    !name.is_empty() && name.get_char(0) == '.'
}

/// Whether an entry called `name` is listed under the given setting. What
/// lies beneath an entry that is not listed is never looked at.
pub fn is_shown(name: &str, read_hidden_files: bool) -> (result: bool)
    ensures
        result == shown(name@, read_hidden_files),
{
    read_hidden_files || !is_hidden(name)
}

/// Each entry at the top of the visible listing is an entry of the full
/// listing whose name is not hidden, without the hidden entries beneath it.
proof fn lemma_visible_member(forest: Seq<Tree>, at: int) -> (origin: int)
    requires
        0 <= at < visible(forest).len(),
    ensures
        0 <= origin < forest.len(),
        !hidden(forest[origin].name()),
        visible(forest)[at] == forest[origin].pruned(),
    decreases forest,
{
    if !hidden(forest.last().name()) && at == visible(forest.drop_last()).len() {
        forest.len() - 1
    } else {
        lemma_visible_member(forest.drop_last(), at)
    }
}

/// Leaving out hidden entries leaves none behind: no entry of the visible
/// listing, at any depth, has a hidden name.
pub proof fn lemma_visible_shows_no_hidden(forest: Seq<Tree>, path: Seq<int>)
    requires
        is_path(visible(forest), path),
    ensures
        !hidden(node_at(visible(forest), path).name()),
    decreases path.len(),
{
    let origin = lemma_visible_member(forest, path.first());
    if path.len() > 1 {
        lemma_visible_shows_no_hidden(forest[origin].children(), path.drop_first());
    }
}

/// Leaving out hidden entries twice is the same as leaving them out once.
pub proof fn lemma_visible_idempotent(forest: Seq<Tree>)
    ensures
        visible(visible(forest)) == visible(forest),
    decreases forest,
{
    if forest.len() > 0 {
        let before = forest.drop_last();
        let last = forest.last();
        lemma_visible_idempotent(before);
        if !hidden(last.name()) {
            lemma_pruned_idempotent(last);
            assert(visible(forest).drop_last() =~= visible(before));
        }
    }
}

/// Pruning a tree twice is the same as pruning it once.
pub proof fn lemma_pruned_idempotent(tree: Tree)
    ensures
        tree.pruned().pruned() == tree.pruned(),
    decreases tree,
{
    match tree {
        Tree::Directory { children, .. } => {
            lemma_visible_idempotent(children);
        },
        _ => {},
    }
}

} // verus!
