use dirtree::hidden::{is_hidden, is_shown};
use dirtree::node::Node;
use dirtree::render::render;
use dirtree::scan::{classify, get_all_files, invalid_root, Entry, Kind};

fn file(name: &str) -> Entry {
    Entry::File { name: name.to_string() }
}

fn dir(name: &str, entries: Vec<Entry>) -> Entry {
    Entry::Directory { name: name.to_string(), entries }
}

fn link(name: &str, target: &str) -> Entry {
    Entry::Symlink { name: name.to_string(), target: target.to_string() }
}

fn sample() -> Vec<Entry> {
    vec![
        file(".profile"),
        dir(".git", vec![file("HEAD"), dir("objects", vec![file(".keep")])]),
        dir("src", vec![file(".hidden"), file("main.rs"), link(".link", "x")]),
        link("latest", "src/main.rs"),
        file("README"),
    ]
}

fn names(files: &[Node], into: &mut Vec<String>) {
    for node in files {
        into.push(node.name().to_string());
        if let Node::Directory { children, .. } = node {
            names(children, into);
        }
    }
}

#[test]
fn unreadable_subdirectory_stays_empty() {
    let entries = vec![Entry::UnreadableDirectory {
        name: "broken".to_string(),
        error: "Permission denied (os error 13)".to_string(),
    }];
    let mut diagnostics = Vec::new();
    let files = get_all_files(&entries, false, &mut diagnostics);
    assert_eq!(files, vec![Node::Directory { name: "broken".to_string(), children: vec![] }]);
    assert_eq!(
        diagnostics,
        vec!["Couldn't read contents of directory broken: Permission denied (os error 13)"]
    );
    assert_eq!(render(&files), vec!["└── broken"]);
}

#[test]
fn symlink_to_directory_is_one_line() {
    let entries = vec![link("link", "target/dir")];
    let mut diagnostics = Vec::new();
    let files = get_all_files(&entries, false, &mut diagnostics);
    assert_eq!(
        files,
        vec![Node::Symlink { name: "link".to_string(), target: "target/dir".to_string() }]
    );
    assert!(diagnostics.is_empty());
    assert_eq!(render(&files), vec!["└── link => target/dir"]);
}

#[test]
fn hidden_entries_left_out() {
    let mut diagnostics = Vec::new();
    let files = get_all_files(&sample(), false, &mut diagnostics);
    assert_eq!(
        files,
        vec![
            Node::Directory {
                name: "src".to_string(),
                children: vec![Node::File { name: "main.rs".to_string() }],
            },
            Node::Symlink { name: "latest".to_string(), target: "src/main.rs".to_string() },
            Node::File { name: "README".to_string() },
        ]
    );
    let mut seen = Vec::new();
    names(&files, &mut seen);
    assert!(seen.iter().all(|name| !name.starts_with('.')));
    assert_eq!(render(&files), vec!["├── src", "│  └── main.rs", "├── latest => src/main.rs", "└── README"]);
}

#[test]
fn hidden_entries_shown_on_request() {
    let mut diagnostics = Vec::new();
    let files = get_all_files(&sample(), true, &mut diagnostics);
    let mut seen = Vec::new();
    names(&files, &mut seen);
    assert_eq!(
        seen,
        vec![
            ".profile", ".git", "HEAD", "objects", ".keep", "src", ".hidden", "main.rs", ".link",
            "latest", "README",
        ]
    );
    assert_eq!(
        render(&files),
        vec![
            "├── .profile",
            "├── .git",
            "│  ├── HEAD",
            "│  └── objects",
            "│     └── .keep",
            "├── src",
            "│  ├── .hidden",
            "│  ├── main.rs",
            "│  └── .link => x",
            "├── latest => src/main.rs",
            "└── README",
        ]
    );
}

#[test]
fn hidden_last_entry_does_not_count_as_sibling() {
    let entries = vec![file("a"), file("b"), file(".c")];
    let mut diagnostics = Vec::new();
    let files = get_all_files(&entries, false, &mut diagnostics);
    assert_eq!(render(&files), vec!["├── a", "└── b"]);
    let files = get_all_files(&entries, true, &mut diagnostics);
    assert_eq!(render(&files), vec!["├── a", "├── b", "└── .c"]);
}

#[test]
fn filtering_twice_changes_nothing() {
    fn back(files: &[Node]) -> Vec<Entry> {
        files
            .iter()
            .map(|node| match node {
                Node::File { name } => Entry::File { name: name.clone() },
                Node::Directory { name, children } => {
                    Entry::Directory { name: name.clone(), entries: back(children) }
                }
                Node::Symlink { name, target } => {
                    Entry::Symlink { name: name.clone(), target: target.clone() }
                }
            })
            .collect()
    }
    let mut diagnostics = Vec::new();
    let once = get_all_files(&sample(), false, &mut diagnostics);
    let twice = get_all_files(&back(&once), false, &mut diagnostics);
    assert_eq!(once, twice);
    let all = get_all_files(&sample(), true, &mut diagnostics);
    let pruned = get_all_files(&back(&all), false, &mut diagnostics);
    assert_eq!(once, pruned);
}

#[test]
fn each_failure_is_reported_once_in_order() {
    let entries = vec![
        Entry::Unreadable { error: "Input/output error (os error 5)".to_string() },
        file("a"),
        Entry::Unknown { name: "b".to_string(), error: "gone".to_string() },
        dir(
            "c",
            vec![
                Entry::UnreadableSymlink {
                    name: "d".to_string(),
                    path: "./c/d".to_string(),
                    error: "denied".to_string(),
                },
                Entry::UnreadableDirectory { name: "e".to_string(), error: "denied".to_string() },
            ],
        ),
        Entry::Other { name: "socket".to_string() },
        file("f"),
    ];
    let mut diagnostics = vec!["earlier".to_string()];
    let files = get_all_files(&entries, false, &mut diagnostics);
    assert_eq!(
        diagnostics,
        vec![
            "earlier",
            "Input/output error (os error 5)",
            "Couldn't detect file_type of b: gone",
            "Couldn't read symlink ./c/d: denied",
            "Couldn't read contents of directory e: denied",
        ]
    );
    assert_eq!(render(&files), vec!["├── a", "├── c", "│  └── e", "└── f"]);
}

#[test]
fn hidden_failures_are_silent_but_for_the_kind() {
    let entries = vec![
        Entry::Unknown { name: ".a".to_string(), error: "gone".to_string() },
        Entry::UnreadableDirectory { name: ".b".to_string(), error: "denied".to_string() },
        Entry::UnreadableSymlink {
            name: ".c".to_string(),
            path: "./.c".to_string(),
            error: "denied".to_string(),
        },
        dir(".d", vec![Entry::Unreadable { error: "lost".to_string() }]),
    ];
    let mut diagnostics = Vec::new();
    let files = get_all_files(&entries, false, &mut diagnostics);
    assert!(files.is_empty());
    assert_eq!(diagnostics, vec!["Couldn't detect file_type of .a: gone"]);

    let mut diagnostics = Vec::new();
    let files = get_all_files(&entries, true, &mut diagnostics);
    assert_eq!(
        files,
        vec![
            Node::Directory { name: ".b".to_string(), children: vec![] },
            Node::Directory { name: ".d".to_string(), children: vec![] },
        ]
    );
    assert_eq!(
        diagnostics,
        vec![
            "Couldn't detect file_type of .a: gone",
            "Couldn't read contents of directory .b: denied",
            "Couldn't read symlink ./.c: denied",
            "lost",
        ]
    );
}

#[test]
fn what_lies_beneath_an_unlisted_entry_is_ignored() {
    let read = vec![dir(".git", vec![file("HEAD")]), file("a")];
    let unread = vec![dir(".git", vec![]), file("a")];
    let mut diagnostics = Vec::new();
    assert_eq!(
        get_all_files(&read, false, &mut diagnostics),
        get_all_files(&unread, false, &mut diagnostics)
    );
    assert!(diagnostics.is_empty());
}

#[test]
fn names_that_are_hidden() {
    assert!(is_hidden(".git"));
    assert!(is_hidden("."));
    assert!(is_hidden(".."));
    assert!(!is_hidden(""));
    assert!(!is_hidden("a.b"));
    assert!(!is_hidden("été"));
    assert!(!is_hidden(" .x"));
}

#[test]
fn names_that_are_shown() {
    assert!(is_shown("a", false));
    assert!(is_shown("a", true));
    assert!(is_shown(".a", true));
    assert!(!is_shown(".a", false));
    assert!(is_shown("", false));
}

#[test]
fn kinds() {
    assert_eq!(classify(true, false, false), Kind::File);
    assert_eq!(classify(false, true, false), Kind::Directory);
    assert_eq!(classify(false, false, true), Kind::Symlink);
    assert_eq!(classify(false, false, false), Kind::Other);
    assert_eq!(classify(false, true, true), Kind::Symlink);
    assert_eq!(classify(true, false, true), Kind::Symlink);
    assert_eq!(classify(true, true, false), Kind::File);
}

#[test]
fn unreadable_root_message() {
    assert_eq!(
        invalid_root("no/such", "No such file or directory (os error 2)"),
        "Invalid directory name \"no/such\": No such file or directory (os error 2)"
    );
}
