//! The tree builder: from what a walk of the filesystem reported to the tree
//! that is drawn, with a diagnostic for each thing that could not be read.

use vstd::prelude::*;
use vstd::string::*;
use crate::hidden::{
    hidden, is_shown, lemma_visible_idempotent, lemma_visible_shows_no_hidden, shown, visible,
};
use crate::node::{Node, Tree, forest_view};
use crate::paths::{is_path, node_at};
use crate::render::texts;

verus! {

/// The kinds of directory entry that a listing tells apart.
#[derive(Clone, Copy, Debug, PartialEq, Eq, Structural)]
pub enum Kind {
    File,
    Directory,
    Symlink,
    /// Anything else: a socket, a pipe, a device.
    Other,
}

/// The kind of an entry, from what the filesystem says of it. A symbolic
/// link is a link whatever it points at, so that it is never walked into.
pub fn classify(is_file: bool, is_dir: bool, is_symlink: bool) -> (kind: Kind)
    ensures
        kind == if is_symlink {
            Kind::Symlink
        } else if is_file {
            Kind::File
        } else if is_dir {
            Kind::Directory
        } else {
            Kind::Other
        },
{
    if is_symlink {
        Kind::Symlink
    } else if is_file {
        Kind::File
    } else if is_dir {
        Kind::Directory
    } else {
        Kind::Other
    }
}

/// What a walk of the filesystem reported of one directory entry.
#[derive(Debug, PartialEq, Eq)]
pub enum Entry {
    /// The listing failed before it could name the entry.
    Unreadable { error: String },
    /// The entry has a name, but its kind could not be determined.
    Unknown { name: String, error: String },
    /// A plain file.
    File { name: String },
    /// A directory and what its own listing reported, in listing order.
    Directory { name: String, entries: Vec<Entry> },
    /// A directory whose own listing could not be read.
    UnreadableDirectory { name: String, error: String },
    /// A symbolic link and the path it points at.
    Symlink { name: String, target: String },
    /// A symbolic link at `path` whose target could not be read.
    UnreadableSymlink { name: String, path: String, error: String },
    /// An entry that is neither file, directory nor symbolic link.
    Other { name: String },
}

/// The diagnostic for an entry whose kind could not be determined.
pub open spec fn unknown_kind_message(name: Seq<char>, error: Seq<char>) -> Seq<char> {
    "Couldn't detect file_type of "@ + name + ": "@ + error
}

/// The diagnostic for a directory whose listing could not be read.
pub open spec fn unreadable_directory_message(name: Seq<char>, error: Seq<char>) -> Seq<char> {
    "Couldn't read contents of directory "@ + name + ": "@ + error
}

/// The diagnostic for a symbolic link whose target could not be read.
pub open spec fn unreadable_symlink_message(path: Seq<char>, error: Seq<char>) -> Seq<char> {
    "Couldn't read symlink "@ + path + ": "@ + error
}

/// The diagnostic for a root directory that could not be read.
pub open spec fn invalid_root_message(path: Seq<char>, error: Seq<char>) -> Seq<char> {
    "Invalid directory name \""@ + path + "\": "@ + error
}

impl Entry {
    /// The entry's name, where the listing could give one.
    pub open spec fn name(self) -> Option<Seq<char>> {
        match self {
            Entry::Unreadable { .. } => None,
            Entry::Unknown { name, .. } => Some(name@),
            Entry::File { name } => Some(name@),
            Entry::Directory { name, .. } => Some(name@),
            Entry::UnreadableDirectory { name, .. } => Some(name@),
            Entry::Symlink { name, .. } => Some(name@),
            Entry::UnreadableSymlink { name, .. } => Some(name@),
            Entry::Other { name } => Some(name@),
        }
    }

    /// The tree that stands for the entry in a listing that leaves nothing
    /// out, if it can be drawn: a file, a directory or a symbolic link whose
    /// target is known. A directory that could not be read is drawn empty.
    pub open spec fn tree(self) -> Option<Tree>
        decreases self,
    {
        match self {
            Entry::File { name } => Some(Tree::File { name: name@ }),
            Entry::Directory { name, entries } => Some(
                Tree::Directory { name: name@, children: forest_of(entries@) },
            ),
            Entry::UnreadableDirectory { name, .. } => Some(
                Tree::Directory { name: name@, children: Seq::empty() },
            ),
            Entry::Symlink { name, target } => Some(
                Tree::Symlink { name: name@, target: target@ },
            ),
            _ => None,
        }
    }

    /// The diagnostics that the entry and all beneath it give rise to, in
    /// the order of a depth-first walk. An entry that is not listed is not
    /// looked into; one without a kind is reported whatever its name.
    pub open spec fn diagnostics(self, read_hidden_files: bool) -> Seq<Seq<char>>
        decreases self,
    {
        match self {
            Entry::Unreadable { error } => seq![error@],
            Entry::Unknown { name, error } => seq![unknown_kind_message(name@, error@)],
            Entry::Directory { name, entries } => if shown(name@, read_hidden_files) {
                diagnostics_of(entries@, read_hidden_files)
            } else {
                Seq::empty()
            },
            Entry::UnreadableDirectory { name, error } => if shown(name@, read_hidden_files) {
                seq![unreadable_directory_message(name@, error@)]
            } else {
                Seq::empty()
            },
            Entry::UnreadableSymlink { name, path, error } => if shown(name@, read_hidden_files) {
                seq![unreadable_symlink_message(path@, error@)]
            } else {
                Seq::empty()
            },
            _ => Seq::empty(),
        }
    }
}

/// The listing that leaves nothing out: the trees of the entries that can be
/// drawn, in the order in which they were reported.
pub open spec fn forest_of(entries: Seq<Entry>) -> Seq<Tree>
    decreases entries,
{
    if entries.len() == 0 {
        Seq::empty()
    } else {
        match entries.last().tree() {
            Some(tree) => forest_of(entries.drop_last()).push(tree),
            None => forest_of(entries.drop_last()),
        }
    }
}

/// The listing under the given setting: all that can be drawn when hidden
/// entries were asked for, otherwise the same without the hidden entries.
pub open spec fn scanned(entries: Seq<Entry>, read_hidden_files: bool) -> Seq<Tree> {
    if read_hidden_files {
        forest_of(entries)
    } else {
        visible(forest_of(entries))
    }
}

/// The diagnostics of a list of entries, in order.
pub open spec fn diagnostics_of(entries: Seq<Entry>, read_hidden_files: bool) -> Seq<Seq<char>>
    decreases entries,
{
    if entries.len() == 0 {
        Seq::empty()
    } else {
        diagnostics_of(entries.drop_last(), read_hidden_files) + entries.last().diagnostics(
            read_hidden_files,
        )
    }
}

/// One more entry adds its tree to the listing when it can be drawn and is
/// listed under the setting, and nothing otherwise.
proof fn lemma_scanned_step(entries: Seq<Entry>, read_hidden_files: bool)
    requires
        entries.len() > 0,
    ensures
        scanned(entries, read_hidden_files) == match entries.last().tree() {
            Some(tree) => if shown(tree.name(), read_hidden_files) {
                scanned(entries.drop_last(), read_hidden_files).push(
                    if read_hidden_files {
                        tree
                    } else {
                        tree.pruned()
                    },
                )
            } else {
                scanned(entries.drop_last(), read_hidden_files)
            },
            None => scanned(entries.drop_last(), read_hidden_files),
        },
{
    match entries.last().tree() {
        Some(tree) => {
            let all = forest_of(entries.drop_last());
            assert(all.push(tree).drop_last() =~= all);
            assert(all.push(tree).last() == tree);
        },
        None => {},
    }
}

/// An entry that is not listed adds nothing to the listing, whatever was
/// reported beneath it, and nothing to the diagnostics unless its kind is
/// unknown: a walk need not read what such an entry holds.
pub proof fn lemma_unlisted_entry_adds_nothing(
    entries: Seq<Entry>,
    entry: Entry,
    read_hidden_files: bool,
)
    requires
        entry.name() matches Some(name) && !shown(name, read_hidden_files),
    ensures
        scanned(entries.push(entry), read_hidden_files) == scanned(entries, read_hidden_files),
        !(entry is Unknown) ==> diagnostics_of(entries.push(entry), read_hidden_files)
            == diagnostics_of(entries, read_hidden_files),
{
    let all = entries.push(entry);
    assert(all.drop_last() =~= entries);
    assert(all.last() == entry);
    lemma_scanned_step(all, read_hidden_files);
    if !(entry is Unknown) {
        assert(entry.diagnostics(read_hidden_files) =~= Seq::<Seq<char>>::empty());
        assert(diagnostics_of(entries, read_hidden_files) + Seq::<Seq<char>>::empty()
            =~= diagnostics_of(entries, read_hidden_files));
    }
}

/// With hidden entries asked for, every entry that can be drawn is in
/// the listing, behind those reported before it.
pub proof fn lemma_scan_shows_all(entries: Seq<Entry>, at: int)
    requires
        0 <= at < entries.len(),
        entries[at].tree() is Some,
    ensures
        forest_of(entries.take(at)).len() < scanned(entries, true).len(),
        scanned(entries, true)[forest_of(entries.take(at)).len() as int] == entries[at].tree()->0,
    decreases entries.len(),
{
    let before = entries.drop_last();
    if at == entries.len() - 1 {
        assert(entries.take(at) =~= before);
    } else {
        lemma_scan_shows_all(before, at);
        assert(before.take(at) =~= entries.take(at));
    }
}

/// Without hidden entries asked for, no entry of the listing, at any depth,
/// has a hidden name.
pub proof fn lemma_scan_shows_no_hidden(entries: Seq<Entry>, path: Seq<int>)
    requires
        is_path(scanned(entries, false), path),
    ensures
        !hidden(node_at(scanned(entries, false), path).name()),
{
    lemma_visible_shows_no_hidden(forest_of(entries), path);
}

/// The listing without hidden entries is the full listing with its hidden
/// entries taken out, and taking them out again changes nothing.
pub proof fn lemma_scan_filter_idempotent(entries: Seq<Entry>)
    ensures
        scanned(entries, false) == visible(scanned(entries, true)),
        visible(scanned(entries, false)) == scanned(entries, false),
{
    lemma_visible_idempotent(forest_of(entries));
}

/// Joins a message's opening words, its subject and the error's own text.
fn message(opening: &str, subject: &str, error: &str) -> (text: String)
    ensures
        text@ == opening@ + subject@ + ": "@ + error@,
{
    let mut text = String::from_str(opening);
    text.append(subject);
    text.append(": ");
    text.append(error);
    text
}

/// The diagnostic for a root directory at `path` that could not be read.
pub fn invalid_root(path: &str, error: &str) -> (text: String)
    ensures
        text@ == invalid_root_message(path@, error@),
{
    let mut text = String::from_str("Invalid directory name \"");
    text.append(path);
    text.append("\": ");
    text.append(error);
    text
}

/// Builds the nodes of one directory from what its listing reported, and
/// appends to `diagnostics` a message for each thing that could not be read.
///
/// Entries that are not listed under the setting are left out before they
/// count as anybody's sibling. An entry that cannot be read is reported and
/// left out, except a directory whose listing failed: it stays, empty.
pub fn get_all_files(paths: &Vec<Entry>, read_hidden_files: bool, diagnostics: &mut Vec<String>) -> (res:
    Vec<Node>)
    ensures
        forest_view(res@) == scanned(paths@, read_hidden_files),
        texts(final(diagnostics)@) == texts(old(diagnostics)@) + diagnostics_of(
            paths@,
            read_hidden_files,
        ),
    decreases paths,
{
    let mut res: Vec<Node> = Vec::new();
    let mut at: usize = 0;
    assert(forest_view(res@) =~= Seq::<Tree>::empty());
    assert(texts(diagnostics@) + Seq::<Seq<char>>::empty() =~= texts(diagnostics@));
    while at < paths.len()
        invariant
            at <= paths.len(),
            forest_view(res@) == scanned(paths@.take(at as int), read_hidden_files),
            texts(diagnostics@) == texts(old(diagnostics)@) + diagnostics_of(
                paths@.take(at as int),
                read_hidden_files,
            ),
        decreases paths.len() - at,
    {
        let ghost before = paths@.take(at as int);
        let ghost nodes = forest_view(res@);
        let ghost said = texts(diagnostics@);
        let ghost entry = paths@[at as int];
        proof {
            assert(paths@.take(at + 1).drop_last() =~= before);
            assert(paths@.take(at + 1).last() == entry);
            assert(said + Seq::<Seq<char>>::empty() =~= said);
            lemma_scanned_step(paths@.take(at + 1), read_hidden_files);
        }
        match &paths[at] {
            Entry::Unreadable { error } => {
                diagnostics.push(error.clone());
                assert(texts(diagnostics@) =~= said + entry.diagnostics(read_hidden_files));
            },
            Entry::Unknown { name, error } => {
                let text = message("Couldn't detect file_type of ", name.as_str(), error.as_str());
                diagnostics.push(text);
                assert(texts(diagnostics@) =~= said + entry.diagnostics(read_hidden_files));
            },
            Entry::File { name } => {
                if is_shown(name.as_str(), read_hidden_files) {
                    res.push(Node::File { name: name.clone() });
                    assert(forest_view(res@) =~= nodes.push(entry.tree().unwrap()));
                }
            },
            Entry::Directory { name, entries } => {
                if is_shown(name.as_str(), read_hidden_files) {
                    let children = get_all_files(entries, read_hidden_files, diagnostics);
                    res.push(Node::Directory { name: name.clone(), children });
                    assert(forest_view(res@) =~= nodes.push(
                        Tree::Directory {
                            name: name@,
                            children: scanned(entries@, read_hidden_files),
                        },
                    ));
                }
            },
            Entry::UnreadableDirectory { name, error } => {
                if is_shown(name.as_str(), read_hidden_files) {
                    let text = message(
                        "Couldn't read contents of directory ",
                        name.as_str(),
                        error.as_str(),
                    );
                    diagnostics.push(text);
                    assert(texts(diagnostics@) =~= said + entry.diagnostics(read_hidden_files));
                    let children: Vec<Node> = Vec::new();
                    assert(forest_view(children@) =~= Seq::<Tree>::empty());
                    res.push(Node::Directory { name: name.clone(), children });
                    assert(forest_view(res@) =~= nodes.push(entry.tree().unwrap()));
                }
            },
            Entry::Symlink { name, target } => {
                if is_shown(name.as_str(), read_hidden_files) {
                    res.push(Node::Symlink { name: name.clone(), target: target.clone() });
                    assert(forest_view(res@) =~= nodes.push(entry.tree().unwrap()));
                }
            },
            Entry::UnreadableSymlink { name, path, error } => {
                if is_shown(name.as_str(), read_hidden_files) {
                    let text = message("Couldn't read symlink ", path.as_str(), error.as_str());
                    diagnostics.push(text);
                    assert(texts(diagnostics@) =~= said + entry.diagnostics(read_hidden_files));
                }
            },
            Entry::Other { .. } => {},
        }
        proof {
            let step = entry.diagnostics(read_hidden_files);
            let earlier = diagnostics_of(before, read_hidden_files);
            assert(texts(diagnostics@) == said + step);
            assert(diagnostics_of(paths@.take(at + 1), read_hidden_files) == earlier + step);
            assert((texts(old(diagnostics)@) + earlier) + step =~= texts(old(diagnostics)@) + (
            earlier + step));
        }
        at += 1;
    }
    assert(paths@.take(at as int) =~= paths@);
    res
}

} // verus!
