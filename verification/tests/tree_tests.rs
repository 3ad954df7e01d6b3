use music_organizer::tree::{
    analysis_paths, count_files, count_files_by_extension, file_extension, file_has_extension,
    path_join, set_extension_path, validate_dir, walk, DirEntry, EntryKind, FsEntry, FsNode,
    PathError,
};

fn exts() -> Vec<String> {
    vec!["flac".to_string()]
}

fn file(name: &str) -> FsEntry {
    FsEntry {
        name: name.to_string(),
        node: FsNode::File,
    }
}

fn dir(name: &str, children: Vec<FsEntry>) -> FsEntry {
    FsEntry {
        name: name.to_string(),
        node: FsNode::Dir(children),
    }
}

#[test]
fn extensions_follow_the_last_period() {
    assert!(file_has_extension("a.flac", &exts()));
    assert!(!file_has_extension("a.txt", &exts()));
    assert!(!file_has_extension(".flac", &exts()));
    assert!(!file_has_extension("a", &exts()));
    assert!(file_has_extension("a.b.flac", &exts()));
    assert_eq!(file_extension("a.b.flac"), Some("flac".to_string()));
    assert_eq!(file_extension(".hidden"), None);
    assert_eq!(file_extension("plain"), None);
}

#[test]
fn validate_dir_accepts_only_existing_directories() {
    assert!(validate_dir("music", true, true).is_ok());
    match validate_dir("gone", false, false) {
        Err(e @ PathError::DoesNotExist(_)) => {
            assert_eq!(e.message(), "Path 'gone' does not exist");
        }
        _ => panic!("expected a missing-path error"),
    }
    match validate_dir("notes.txt", true, false) {
        Err(e @ PathError::NotADirectory(_)) => {
            assert_eq!(e.message(), "Path 'notes.txt' must be a directory");
        }
        _ => panic!("expected a non-directory error"),
    }
}

#[test]
fn counts_recurse_and_filter() {
    let tree = vec![
        file("1.flac"),
        file("cover.jpg"),
        dir("cd2", vec![file("2.flac"), file("notes.txt")]),
        dir("empty", vec![]),
    ];
    assert_eq!(count_files(&tree), 4);
    assert_eq!(count_files_by_extension(&tree, &exts()), 2);
}

#[test]
fn walk_partitions_and_orders() {
    let listing = vec![
        DirEntry {
            name: "cover.jpg".to_string(),
            kind: EntryKind::File,
        },
        DirEntry {
            name: "10.flac".to_string(),
            kind: EntryKind::File,
        },
        DirEntry {
            name: "2.flac".to_string(),
            kind: EntryKind::File,
        },
        DirEntry {
            name: "cd2".to_string(),
            kind: EntryKind::Dir,
        },
    ];
    let copy_order = walk(&listing, &exts(), true);
    assert_eq!(
        copy_order.audio_files,
        vec!["2.flac".to_string(), "10.flac".to_string()]
    );
    assert_eq!(copy_order.other_files, vec!["cover.jpg".to_string()]);
    assert_eq!(copy_order.subdirs, vec!["cd2".to_string()]);

    let analysis_order = walk(&listing, &exts(), false);
    assert_eq!(
        analysis_order.audio_files,
        vec!["10.flac".to_string(), "2.flac".to_string()]
    );
}

#[test]
fn analysis_visits_three_matched_files_and_skips_the_cover() {
    let tree = vec![
        file("03.flac"),
        file("1.flac"),
        file("2.flac"),
        file("cover.jpg"),
    ];
    assert_eq!(count_files_by_extension(&tree, &exts()), 3);
    let paths = analysis_paths(&tree, "src", &exts());
    assert_eq!(
        paths,
        vec![
            "src/03.flac".to_string(),
            "src/1.flac".to_string(),
            "src/2.flac".to_string(),
        ]
    );
    assert!(!paths.iter().any(|p| p.contains("cover.jpg")));
}

#[test]
fn analysis_recurses_depth_first_in_name_order() {
    let tree = vec![
        dir("b", vec![file("x.flac")]),
        dir("a", vec![file("y.flac")]),
        file("top.flac"),
    ];
    let paths = analysis_paths(&tree, ".", &exts());
    assert_eq!(
        paths,
        vec![
            "./top.flac".to_string(),
            "./a/y.flac".to_string(),
            "./b/x.flac".to_string(),
        ]
    );
}

#[test]
fn joining_and_reextending_paths() {
    assert_eq!(path_join("a/b", "c.flac"), "a/b/c.flac");
    assert_eq!(set_extension_path("dest/01 Intro", "flac"), "dest/01 Intro.flac");
    // A period inside the rendered name counts as an extension separator.
    assert_eq!(
        set_extension_path("dest/01 Mr. Blue", "flac"),
        "dest/01 Mr.flac"
    );
    assert_eq!(set_extension_path("dest/.hidden", "flac"), "dest/.hidden.flac");
}
