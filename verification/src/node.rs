//! The entries of a directory hierarchy and their mathematical model.

use vstd::prelude::*;

verus! {

/// The mathematical model of one entry: names are sequences of characters and
/// a directory holds the sequence of its children in listing order.
pub enum Tree {
    File { name: Seq<char> },
    Directory { name: Seq<char>, children: Seq<Tree> },
    Symlink { name: Seq<char>, target: Seq<char> },
}

/// The characters that separate a symbolic link's name from its target.
pub open spec fn arrow() -> Seq<char> {
    seq![' ', '=', '>', ' ']
}

impl Tree {
    /// The entry's base name.
    pub open spec fn name(self) -> Seq<char> {
        match self {
            Tree::File { name } => name,
            Tree::Directory { name, .. } => name,
            Tree::Symlink { name, .. } => name,
        }
    }

    /// The text shown for the entry: its name, followed for a symbolic link
    /// by the arrow and the target.
    pub open spec fn label(self) -> Seq<char> {
        match self {
            Tree::File { name } => name,
            Tree::Directory { name, .. } => name,
            Tree::Symlink { name, target } => name + arrow() + target,
        }
    }

    /// The entries directly beneath this one; only a directory has any.
    pub open spec fn children(self) -> Seq<Tree> {
        match self {
            Tree::Directory { children, .. } => children,
            _ => Seq::empty(),
        }
    }

    /// The number of entries in the tree, the root included.
    pub open spec fn size(self) -> nat
        decreases self,
    {
        match self {
            Tree::Directory { children, .. } => 1 + forest_size(children),
            _ => 1,
        }
    }
}

/// The number of entries in a list of sibling trees, at every depth.
pub open spec fn forest_size(forest: Seq<Tree>) -> nat
    decreases forest,
{
    if forest.len() == 0 {
        0
    } else {
        forest.first().size() + forest_size(forest.drop_first())
    }
}

/// One entry of a directory hierarchy.
#[derive(Debug, PartialEq, Eq)]
pub enum Node {
    /// A plain file.
    File { name: String },
    /// A directory with its children in listing order.
    Directory { name: String, children: Vec<Node> },
    /// A symbolic link and the path it points at; a link is never expanded.
    Symlink { name: String, target: String },
}

impl View for Node {
    type V = Tree;

    open spec fn view(&self) -> Tree
        decreases self,
    {
        match self {
            Node::File { name } => Tree::File { name: name@ },
            Node::Directory { name, children } => Tree::Directory {
                name: name@,
                children: forest_view(children@),
            },
            Node::Symlink { name, target } => Tree::Symlink { name: name@, target: target@ },
        }
    }
}

impl Node {
    /// The entry's base name.
    pub fn name(&self) -> (name: &str)
        ensures
            name@ == self@.name(),
    {
        match self {
            Node::File { name } => name.as_str(),
            Node::Directory { name, .. } => name.as_str(),
            Node::Symlink { name, .. } => name.as_str(),
        }
    }
}

/// The models of a list of sibling nodes, in the same order.
pub open spec fn forest_view(nodes: Seq<Node>) -> Seq<Tree>
    decreases nodes,
{
    Seq::new(nodes.len(), |i: int| if 0 <= i < nodes.len() { nodes[i]@ } else { arbitrary() })
}

} // verus!
