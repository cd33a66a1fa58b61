//! Where each entry of a listing is drawn, and what its line holds.
//!
//! An entry is named by its path: the position taken among the siblings at
//! each level, from the top of the listing down to the entry itself.

use vstd::prelude::*;
use crate::node::{Tree, forest_size};
use crate::render::{
    branch, forest_lines, lemma_forest_line_count, lemma_glyphs_differ, lemma_line_parts,
    lemma_prefix_segment, lemma_tree_line_count, line, prefix, segment, tree_lines,
};

verus! {

/// Whether `path` names an entry of the listing.
pub open spec fn is_path(forest: Seq<Tree>, path: Seq<int>) -> bool
    decreases path.len(),
{
    &&& path.len() > 0
    &&& 0 <= path.first() < forest.len()
    &&& path.len() > 1 ==> is_path(forest[path.first()].children(), path.drop_first())
}

/// The entry that `path` names.
pub open spec fn node_at(forest: Seq<Tree>, path: Seq<int>) -> Tree
    recommends
        is_path(forest, path),
    decreases path.len(),
{
    if path.len() <= 1 {
        forest[path.first()]
    } else {
        node_at(forest[path.first()].children(), path.drop_first())
    }
}

/// Whether the entry that `path` names is the last of its siblings.
pub open spec fn is_last_at(forest: Seq<Tree>, path: Seq<int>) -> bool
    recommends
        is_path(forest, path),
    decreases path.len(),
{
    if path.len() <= 1 {
        path.first() == forest.len() - 1
    } else {
        is_last_at(forest[path.first()].children(), path.drop_first())
    }
}

/// For each ancestor of the entry that `path` names, outermost first,
/// whether that ancestor is the last of its own siblings.
pub open spec fn ancestors_final(forest: Seq<Tree>, path: Seq<int>) -> Seq<bool>
    recommends
        is_path(forest, path),
{
    Seq::new((path.len() - 1) as nat, |depth: int| is_last_at(forest, path.take(depth + 1)))
}

/// The number of the line, counted from zero, on which the entry that `path`
/// names is drawn: every entry that comes before it in a depth-first walk
/// takes one line.
pub open spec fn line_number(forest: Seq<Tree>, path: Seq<int>) -> int
    recommends
        is_path(forest, path),
    decreases path.len(),
{
    forest_size(forest.take(path.first())) + if path.len() <= 1 {
        0
    } else {
        1 + line_number(forest[path.first()].children(), path.drop_first())
    }
}

/// The lines of the sibling at position `at` follow those of the entries
/// before it, without a gap.
proof fn lemma_lines_of_sibling(forest: Seq<Tree>, are_final: Seq<bool>, at: int, offset: int)
    requires
        0 <= at < forest.len(),
        0 <= offset < forest[at].size(),
    ensures
        forest_size(forest.take(at)) + offset < forest_lines(forest, are_final).len(),
        forest_lines(forest, are_final)[forest_size(forest.take(at)) + offset] == tree_lines(
            forest[at],
            are_final,
            at == forest.len() - 1,
        )[offset],
    decreases at,
{
    let rest = forest.drop_first();
    lemma_tree_line_count(forest.first(), are_final, forest.len() == 1);
    lemma_forest_line_count(rest, are_final);
    if at == 0 {
        assert(forest.take(0) =~= Seq::<Tree>::empty());
    } else {
        lemma_lines_of_sibling(rest, are_final, at - 1, offset);
        assert(forest.take(at).first() == forest.first());
        assert(forest.take(at).drop_first() =~= rest.take(at - 1));
    }
}

/// The status of the ancestors below the top level is that of the ancestors
/// seen from the first ancestor's children.
proof fn lemma_ancestors_final_step(forest: Seq<Tree>, path: Seq<int>)
    requires
        path.len() > 1,
    ensures
        ancestors_final(forest, path) == seq![path.first() == forest.len() - 1] + ancestors_final(
            forest[path.first()].children(),
            path.drop_first(),
        ),
{
    let below = ancestors_final(forest[path.first()].children(), path.drop_first());
    let joined = seq![path.first() == forest.len() - 1] + below;
    assert forall|depth: int| 0 <= depth < path.len() - 1 implies ancestors_final(
        forest,
        path,
    )[depth] == joined[depth] by {
        if depth > 0 {
            assert(path.take(depth + 1).drop_first() =~= path.drop_first().take(depth));
        }
    }
    assert(ancestors_final(forest, path) =~= joined);
}

/// Every entry of a listing has its line, and that line is made of one
/// segment for each ancestor, chosen by whether that ancestor is the last of
/// its siblings, then the branch glyph chosen by whether the entry itself is
/// the last of its siblings, then the entry's label.
pub proof fn lemma_line_of_node(forest: Seq<Tree>, are_final: Seq<bool>, path: Seq<int>)
    requires
        is_path(forest, path),
    ensures
        0 <= line_number(forest, path) < forest_lines(forest, are_final).len(),
        forest_lines(forest, are_final)[line_number(forest, path)] == line(
            are_final + ancestors_final(forest, path),
            is_last_at(forest, path),
            node_at(forest, path).label(),
        ),
    decreases path.len(),
{
    let at = path.first();
    let last = at == forest.len() - 1;
    if path.len() == 1 {
        lemma_lines_of_sibling(forest, are_final, at, 0);
        assert(are_final + ancestors_final(forest, path) =~= are_final);
    } else {
        let children = forest[at].children();
        let below = path.drop_first();
        lemma_line_of_node(children, are_final.push(last), below);
        lemma_forest_line_count(children, are_final.push(last));
        lemma_lines_of_sibling(forest, are_final, at, 1 + line_number(children, below));
        lemma_ancestors_final_step(forest, path);
        assert(are_final.push(last) + ancestors_final(children, below) =~= are_final
            + ancestors_final(forest, path));
    }
}

/// The path one level up: the same entry seen from a listing that has one
/// more sibling in front.
pub open spec fn shifted(path: Seq<int>) -> Seq<int> {
    seq![path.first() + 1] + path.drop_first()
}

/// An entry keeps its place when a sibling is put in front of its listing:
/// its line moves down by the lines of that sibling.
proof fn lemma_shifted_path(forest: Seq<Tree>, path: Seq<int>)
    requires
        forest.len() > 0,
        is_path(forest.drop_first(), path),
    ensures
        is_path(forest, shifted(path)),
        line_number(forest, shifted(path)) == forest.first().size() + line_number(
            forest.drop_first(),
            path,
        ),
{
    let rest = forest.drop_first();
    let at = path.first();
    let moved = shifted(path);
    assert(moved.first() == at + 1);
    assert(moved.drop_first() =~= path.drop_first());
    assert(moved.len() == path.len());
    assert(forest[at + 1] == rest[at]);
    assert(forest.take(at + 1).first() == forest.first());
    assert(forest.take(at + 1).drop_first() =~= rest.take(at));
}

/// Every line of a listing is the line of one of its entries: the path that
/// is returned names the entry drawn on line `number`.
pub proof fn lemma_node_of_line(forest: Seq<Tree>, number: int) -> (path: Seq<int>)
    requires
        0 <= number < forest_size(forest),
    ensures
        is_path(forest, path),
        line_number(forest, path) == number,
    decreases forest_size(forest),
{
    let first = forest.first();
    let rest = forest.drop_first();
    assert(forest.take(0) =~= Seq::<Tree>::empty());
    if number == 0 {
        seq![0int]
    } else if number < first.size() {
        let below = lemma_node_of_line(first.children(), number - 1);
        let path = seq![0int] + below;
        assert(path.drop_first() =~= below);
        path
    } else {
        let beside = lemma_node_of_line(rest, number - first.size());
        lemma_shifted_path(forest, beside);
        shifted(beside)
    }
}

/// Two entries are never drawn on the same line.
pub proof fn lemma_line_number_injective(forest: Seq<Tree>, one: Seq<int>, other: Seq<int>)
    requires
        is_path(forest, one),
        is_path(forest, other),
        line_number(forest, one) == line_number(forest, other),
    ensures
        one == other,
    decreases one.len(),
{
    let a = one.first();
    let b = other.first();
    lemma_line_number_bounds(forest, one);
    lemma_line_number_bounds(forest, other);
    if a < b {
        lemma_forest_size_take(forest, a + 1, b);
        lemma_forest_size_take(forest, a, a + 1);
    } else if b < a {
        lemma_forest_size_take(forest, b + 1, a);
        lemma_forest_size_take(forest, b, b + 1);
    } else {
        if one.len() > 1 && other.len() > 1 {
            lemma_line_number_injective(forest[a].children(), one.drop_first(), other.drop_first());
            assert(one =~= seq![a] + one.drop_first());
            assert(other =~= seq![b] + other.drop_first());
        } else if one.len() == 1 && other.len() == 1 {
            assert(one =~= other);
        } else if one.len() > 1 {
            lemma_line_number_bounds(forest[a].children(), one.drop_first());
        } else {
            lemma_line_number_bounds(forest[b].children(), other.drop_first());
        }
    }
}

/// An entry's line lies among the lines of the sibling it is in, or is, at
/// the top level.
proof fn lemma_line_number_bounds(forest: Seq<Tree>, path: Seq<int>)
    requires
        is_path(forest, path),
    ensures
        forest_size(forest.take(path.first())) <= line_number(forest, path) < forest_size(
            forest.take(path.first() + 1),
        ),
        path.len() > 1 ==> forest_size(forest.take(path.first())) < line_number(forest, path),
        0 <= line_number(forest, path),
    decreases path.len(),
{
    let at = path.first();
    lemma_forest_size_take(forest, at, at + 1);
    if path.len() > 1 {
        let children = forest[at].children();
        let below = path.drop_first();
        assert(is_path(children, below));
        assert(0 <= below.first() < children.len());
        lemma_line_number_bounds(children, below);
        lemma_forest_size_take(children, below.first() + 1, children.len() as int);
        assert(children.take(children.len() as int) =~= children);
    }
}

/// The entries of the first `upto` siblings are those of the first `from`
/// and those of the siblings between; with one sibling between, its own.
proof fn lemma_forest_size_take(forest: Seq<Tree>, from: int, upto: int)
    requires
        0 <= from <= upto <= forest.len(),
    ensures
        forest_size(forest.take(from)) <= forest_size(forest.take(upto)),
        upto == from + 1 ==> forest_size(forest.take(upto)) == forest_size(forest.take(from))
            + forest[from].size(),
    decreases from,
{
    if from == 0 {
        assert(forest.take(0) =~= Seq::<Tree>::empty());
        if upto == 1 {
            assert(forest.take(1).drop_first() =~= Seq::<Tree>::empty());
        }
    } else {
        let rest = forest.drop_first();
        lemma_forest_size_take(rest, from - 1, upto - 1);
        assert(forest.take(from).drop_first() =~= rest.take(from - 1));
        assert(forest.take(upto).drop_first() =~= rest.take(upto - 1));
        assert(forest.take(from).first() == forest.first());
        assert(forest.take(upto).first() == forest.first());
    }
}

/// The branch glyph of every entry's line is the corner exactly when the
/// entry is the last of its siblings, and the tee exactly when it is not.
pub proof fn lemma_branch_of_node(forest: Seq<Tree>, are_final: Seq<bool>, path: Seq<int>)
    requires
        is_path(forest, path),
    ensures
        ({
            let text = forest_lines(forest, are_final)[line_number(forest, path)];
            let start: int = 3 * (are_final.len() + path.len() - 1);
            &&& text.subrange(start, start + 4) == branch(true) <==> is_last_at(forest, path)
            &&& text.subrange(start, start + 4) == branch(false) <==> !is_last_at(forest, path)
        }),
{
    lemma_line_of_node(forest, are_final, path);
    lemma_line_parts(
        are_final + ancestors_final(forest, path),
        is_last_at(forest, path),
        node_at(forest, path).label(),
    );
    lemma_glyphs_differ();
}

/// In every entry's line, the segment at the depth of each ancestor is
/// blank exactly when that ancestor is the last of its siblings, and the
/// vertical bar exactly when it is not: the entries' names play no part.
pub proof fn lemma_segment_of_node(forest: Seq<Tree>, path: Seq<int>, depth: int)
    requires
        is_path(forest, path),
        0 <= depth < path.len() - 1,
    ensures
        ({
            let text = forest_lines(forest, Seq::empty())[line_number(forest, path)];
            let ancestor_last = is_last_at(forest, path.take(depth + 1));
            &&& text.subrange(3 * depth, 3 * depth + 3) == segment(true) <==> ancestor_last
            &&& text.subrange(3 * depth, 3 * depth + 3) == segment(false) <==> !ancestor_last
        }),
{
    let are_final = ancestors_final(forest, path);
    let last = is_last_at(forest, path);
    let label = node_at(forest, path).label();
    lemma_line_of_node(forest, Seq::empty(), path);
    assert(Seq::<bool>::empty() + are_final =~= are_final);
    lemma_line_parts(are_final, last, label);
    lemma_prefix_segment(are_final, depth);
    lemma_glyphs_differ();
    let text = line(are_final, last, label);
    assert(text.subrange(3 * depth, 3 * depth + 3) =~= prefix(are_final).subrange(
        3 * depth,
        3 * depth + 3,
    ));
}

} // verus!
