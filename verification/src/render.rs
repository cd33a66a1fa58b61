//! The connector state machine: turns a tree into its lines of text.

use vstd::prelude::*;
use vstd::string::*;
use crate::node::{Node, Tree, arrow, forest_size, forest_view};

verus! {

/// The glyph drawn just before an entry's name: the corner for the last
/// sibling, the tee for one that has siblings after it.
pub open spec fn branch(last: bool) -> Seq<char> {
    if last {
        seq!['└', '─', '─', ' ']
    } else {
        seq!['├', '─', '─', ' ']
    }
}

/// The three characters drawn for one ancestor: blank when that ancestor was
/// the last of its siblings, a vertical bar when more siblings follow it.
pub open spec fn segment(is_final: bool) -> Seq<char> {
    if is_final {
        seq![' ', ' ', ' ']
    } else {
        seq!['│', ' ', ' ']
    }
}

/// The continuation prefix: one segment per ancestor, outermost first.
pub open spec fn prefix(are_final: Seq<bool>) -> Seq<char>
    decreases are_final.len(),
{
    if are_final.len() == 0 {
        Seq::empty()
    } else {
        prefix(are_final.drop_last()) + segment(are_final.last())
    }
}

/// The line of one entry: prefix, branch glyph, label.
pub open spec fn line(are_final: Seq<bool>, last: bool, label: Seq<char>) -> Seq<char> {
    prefix(are_final) + branch(last) + label
}

/// The lines of one tree: its own line, then the lines of its children drawn
/// one level deeper, with this entry's own status added to the ancestors'.
pub open spec fn tree_lines(tree: Tree, are_final: Seq<bool>, last: bool) -> Seq<Seq<char>>
    decreases tree,
{
    let own = seq![line(are_final, last, tree.label())];
    match tree {
        Tree::Directory { children, .. } => own + forest_lines(children, are_final.push(last)),
        _ => own,
    }
}

/// The lines of a list of siblings, in order. The first of them is the last
/// sibling exactly when no other follows it.
pub open spec fn forest_lines(forest: Seq<Tree>, are_final: Seq<bool>) -> Seq<Seq<char>>
    decreases forest,
{
    if forest.len() == 0 {
        Seq::empty()
    } else {
        tree_lines(forest.first(), are_final, forest.len() == 1) + forest_lines(
            forest.drop_first(),
            are_final,
        )
    }
}

/// The two branch glyphs differ, and so do the two segments: what is drawn
/// tells which was meant.
pub proof fn lemma_glyphs_differ()
    ensures
        branch(true) != branch(false),
        segment(true) != segment(false),
        branch(true).len() == 4,
        branch(false).len() == 4,
        segment(true).len() == 3,
        segment(false).len() == 3,
{
    assert(branch(true)[0] != branch(false)[0]);
    assert(segment(true)[0] != segment(false)[0]);
}

/// The prefix holds three characters for each ancestor, and the three at an
/// ancestor's depth are the segment chosen by that ancestor's status alone.
pub proof fn lemma_prefix_segment(are_final: Seq<bool>, depth: int)
    requires
        0 <= depth < are_final.len(),
    ensures
        prefix(are_final).len() == 3 * are_final.len(),
        prefix(are_final).subrange(3 * depth, 3 * depth + 3) == segment(are_final[depth]),
    decreases are_final.len(),
{
    let outer = are_final.drop_last();
    lemma_prefix_len(outer);
    lemma_prefix_len(are_final);
    if depth == are_final.len() - 1 {
        assert(prefix(are_final).subrange(3 * depth, 3 * depth + 3) =~= segment(are_final.last()));
    } else {
        lemma_prefix_segment(outer, depth);
        assert(prefix(are_final).subrange(3 * depth, 3 * depth + 3) =~= prefix(outer).subrange(
            3 * depth,
            3 * depth + 3,
        ));
    }
}

/// The prefix holds three characters for each ancestor.
pub proof fn lemma_prefix_len(are_final: Seq<bool>)
    ensures
        prefix(are_final).len() == 3 * are_final.len(),
    decreases are_final.len(),
{
    if are_final.len() > 0 {
        lemma_prefix_len(are_final.drop_last());
    }
}

/// A line falls into its three parts: the prefix, then the four characters
/// of the branch glyph, then the label.
pub proof fn lemma_line_parts(are_final: Seq<bool>, last: bool, label: Seq<char>)
    ensures
        ({
            let text = line(are_final, last, label);
            let width = 3 * (are_final.len() as int);
            &&& text.len() == width + 4 + label.len()
            &&& text.subrange(0, width) == prefix(are_final)
            &&& text.subrange(width, width + 4) == branch(last)
            &&& text.skip(width + 4) == label
        }),
{
    lemma_prefix_len(are_final);
    let text = line(are_final, last, label);
    let width = 3 * (are_final.len() as int);
    assert(text.subrange(0, width) =~= prefix(are_final));
    assert(text.subrange(width, width + 4) =~= branch(last));
    assert(text.skip(width + 4) =~= label);
}

/// A tree is drawn on as many lines as it has entries.
pub proof fn lemma_tree_line_count(tree: Tree, are_final: Seq<bool>, last: bool)
    ensures
        tree_lines(tree, are_final, last).len() == tree.size(),
    decreases tree,
{
    match tree {
        Tree::Directory { children, .. } => {
            lemma_forest_line_count(children, are_final.push(last));
        },
        _ => {},
    }
}

/// A listing is drawn on as many lines as it has entries, at every depth:
/// one for each file and symbolic link, and for each directory one of its own
/// besides those of its children.
pub proof fn lemma_forest_line_count(forest: Seq<Tree>, are_final: Seq<bool>)
    ensures
        forest_lines(forest, are_final).len() == forest_size(forest),
    decreases forest,
{
    if forest.len() > 0 {
        lemma_tree_line_count(forest.first(), are_final, forest.len() == 1);
        lemma_forest_line_count(forest.drop_first(), are_final);
    }
}

/// A symbolic link is drawn on exactly one line, whatever it points at:
/// its name, the arrow and its target behind the prefix and the branch glyph.
pub proof fn lemma_symlink_is_one_line(
    name: Seq<char>,
    target: Seq<char>,
    are_final: Seq<bool>,
    last: bool,
)
    ensures
        tree_lines(Tree::Symlink { name, target }, are_final, last) == seq![
            prefix(are_final) + branch(last) + name + arrow() + target,
        ],
{
    let link = Tree::Symlink { name, target };
    assert(line(are_final, last, link.label()) =~= prefix(are_final) + branch(last) + name + arrow()
        + target);
}

/// Builds the line of one entry from the status of its ancestors, its own
/// status among its siblings and its label.
pub fn render_line(are_final: &Vec<bool>, last: bool, label: &str) -> (buffer: String)
    ensures
        buffer@ == line(are_final@, last, label@),
{
    let mut buffer = String::new();
    let mut depth: usize = 0;
    while depth < are_final.len()
        invariant
            depth <= are_final.len(),
            buffer@ == prefix(are_final@.take(depth as int)),
        decreases are_final.len() - depth,
    {
        proof {
            reveal_strlit("   ");
            reveal_strlit("│  ");
            assert(are_final@.take(depth + 1).drop_last() =~= are_final@.take(depth as int));
        }
        if are_final[depth] {
            buffer.append("   ");
        } else {
            buffer.append("│  ");
        }
        assert(buffer@ =~= prefix(are_final@.take(depth as int)) + segment(are_final@[depth as int]));
        depth += 1;
    }
    proof {
        reveal_strlit("└── ");
        reveal_strlit("├── ");
        assert(are_final@.take(depth as int) =~= are_final@);
    }
    if last {
        buffer.append("└── ");
    } else {
        buffer.append("├── ");
    }
    assert(buffer@ =~= prefix(are_final@) + branch(last));
    buffer.append(label);
    buffer
}

/// The texts of a list of lines.
pub open spec fn texts(lines: Seq<String>) -> Seq<Seq<char>> {
    lines.map_values(|s: String| s@)
}

/// Appends to `out` the lines of the siblings `files`, whose ancestors'
/// status is `are_final`, outermost first. The status vector is used as a
/// stack while the walk descends and is handed back as it came.
pub fn display_tree(files: &Vec<Node>, are_final: &mut Vec<bool>, out: &mut Vec<String>)
    ensures
        final(are_final)@ == old(are_final)@,
        texts(final(out)@) == texts(old(out)@) + forest_lines(
            forest_view(files@),
            old(are_final)@,
        ),
    decreases files,
{
    let ghost forest = forest_view(files@);
    let ghost flags = are_final@;
    let total = files.len();
    let mut position: usize = 0;
    assert(forest.skip(0) =~= forest);
    while position < total
        invariant
            position <= total,
            total == files.len(),
            forest == forest_view(files@),
            are_final@ == flags,
            texts(out@) + forest_lines(forest.skip(position as int), flags) == texts(old(out)@)
                + forest_lines(forest, flags),
        decreases total - position,
    {
        let last = position + 1 == total;
        let ghost rest = forest.skip(position as int);
        let ghost before = texts(out@);
        proof {
            assert(rest.first() == files@[position as int]@);
            assert(rest.drop_first() =~= forest.skip(position + 1));
            assert((rest.len() == 1) == last);
        }
        match &files[position] {
            Node::File { name } => {
                let text = render_line(are_final, last, name.as_str());
                out.push(text);
                assert(texts(out@) =~= before + tree_lines(rest.first(), flags, last));
            },
            Node::Symlink { name, target } => {
                proof {
                    reveal_strlit(" => ");
                }
                let mut label = name.clone();
                label.append(" => ");
                label.append(target.as_str());
                assert(label@ =~= rest.first().label());
                let text = render_line(are_final, last, label.as_str());
                out.push(text);
                assert(texts(out@) =~= before + tree_lines(rest.first(), flags, last));
            },
            Node::Directory { name, children } => {
                let text = render_line(are_final, last, name.as_str());
                out.push(text);
                let ghost own = texts(out@);
                assert(own =~= before + seq![line(flags, last, rest.first().label())]);
                if children.len() > 0 {
                    are_final.push(last);
                    display_tree(children, are_final, out);
                    are_final.pop();
                    assert(are_final@ =~= flags);
                }
                assert(texts(out@) =~= before + tree_lines(rest.first(), flags, last));
            },
        }
        assert(texts(out@) + forest_lines(forest.skip(position + 1), flags) =~= before
            + forest_lines(rest, flags));
        position += 1;
    }
    assert(texts(out@) + forest_lines(forest.skip(position as int), flags) =~= texts(out@));
}

/// The lines of a whole listing: the siblings `files` drawn at the top level,
/// beneath no ancestor.
pub fn render(files: &Vec<Node>) -> (lines: Vec<String>)
    ensures
        texts(lines@) == forest_lines(forest_view(files@), Seq::empty()),
        lines@.len() == forest_size(forest_view(files@)),
{
    let mut are_final: Vec<bool> = Vec::new();
    let mut lines: Vec<String> = Vec::new();
    display_tree(files, &mut are_final, &mut lines);
    proof {
        assert(texts(Seq::<String>::empty()) =~= Seq::<Seq<char>>::empty());
        lemma_forest_line_count(forest_view(files@), Seq::empty());
    }
    lines
}

} // verus!
