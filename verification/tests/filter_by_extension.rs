use bytecode::filter_by_extension::{classify_entry, has_extension, WalkAction};

#[test]
fn names_ending_in_the_extension_are_kept() {
    assert!(has_extension(b"file1.rs", ".rs"));
    assert!(has_extension(b"a.tar.gz", ".gz"));
    assert!(!has_extension(b"file2.txt", ".rs"));
    assert!(!has_extension(b".rs", ".rs"));
    assert!(!has_extension(b"rs", ".rs"));
    assert!(has_extension(b"x", ""));
    assert!(!has_extension(b"", ""));
}

#[test]
fn entries_are_classified() {
    assert_eq!(classify_entry(true, false, b"dir.rs", ".rs"), WalkAction::Descend);
    assert_eq!(classify_entry(false, true, b"main.rs", ".rs"), WalkAction::Keep);
    assert_eq!(classify_entry(false, true, b"main.txt", ".rs"), WalkAction::Skip);
    assert_eq!(classify_entry(false, false, b"link.rs", ".rs"), WalkAction::Skip);
}

enum Entry {
    File(&'static str),
    Dir(&'static str, Vec<Entry>),
}

fn walk(entries: &[Entry], ext: &str, kept: &mut Vec<&'static str>) {
    for e in entries {
        let (is_dir, is_file, name) = match e {
            Entry::File(n) => (false, true, *n),
            Entry::Dir(n, _) => (true, false, *n),
        };
        match classify_entry(is_dir, is_file, name.as_bytes(), ext) {
            WalkAction::Descend => {
                if let Entry::Dir(_, children) = e {
                    walk(children, ext, kept);
                }
            }
            WalkAction::Keep => kept.push(name),
            WalkAction::Skip => {}
        }
    }
}

#[test]
fn mock_tree_walk_keeps_rs_files_in_order() {
    // The tree root/{dir/{file1.rs, file2.txt, dir2/{file3.rs}}, file4.rs}.
    let root = vec![
        Entry::Dir(
            "dir",
            vec![
                Entry::File("file1.rs"),
                Entry::File("file2.txt"),
                Entry::Dir("dir2", vec![Entry::File("file3.rs")]),
            ],
        ),
        Entry::File("file4.rs"),
    ];
    let mut kept = Vec::new();
    walk(&root, ".rs", &mut kept);
    assert_eq!(kept.len(), 3);
    assert_eq!(kept, vec!["file1.rs", "file3.rs", "file4.rs"]);
}
