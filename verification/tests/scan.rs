use dedupe::binary64::Binary64;
use dedupe::cli::{Cli, HashAlgo};
use dedupe::path::{FilePath, PathPart};
use dedupe::scan::{
    extension_filter, matches_excluded_dir, matches_excluded_path, matches_extension, prunes, scan,
    walk_depth, FileMeta, Root, ScanResult, WalkEvent,
};
use std::path::{Component, Path};

fn file_path(text: &str) -> FilePath {
    let path = Path::new(text);
    let parts = path
        .components()
        .map(|c| match c {
            Component::Prefix(p) => PathPart::Prefix(p.as_os_str().as_encoded_bytes().to_vec()),
            Component::RootDir => PathPart::RootDir,
            Component::CurDir => PathPart::CurDir,
            Component::ParentDir => PathPart::ParentDir,
            Component::Normal(n) => PathPart::Normal(n.as_encoded_bytes().to_vec()),
        })
        .collect();
    FilePath {
        raw: path.as_os_str().as_encoded_bytes().to_vec(),
        text: path.to_string_lossy().into_owned(),
        parts,
    }
}

/// A directory tree: directories end in a slash, files have a size.
struct Tree {
    root: &'static str,
    nodes: Vec<(&'static str, u64)>,
}

/// What a walk over a tree brings up: everything down to the deepest level
/// that is asked for, but for what is below a pruned directory.
fn walk(tree: &Tree, cli: &Cli) -> Root {
    let deepest = walk_depth(cli.max_depth);
    let mut events = vec![WalkEvent::Found {
        depth: 0,
        path: file_path(tree.root),
        is_dir: true,
        is_file: false,
        meta: None,
    }];
    let mut pruned: Vec<String> = Vec::new();
    for (name, size) in &tree.nodes {
        let is_dir = name.ends_with('/');
        let trimmed = name.trim_end_matches('/');
        let depth = trimmed.matches('/').count() + 1;
        if depth > deepest || pruned.iter().any(|p| trimmed.starts_with(p.as_str())) {
            continue;
        }
        let path = file_path(&format!("{}/{trimmed}", tree.root));
        if prunes(depth, is_dir, &path, cli) {
            pruned.push(format!("{trimmed}/"));
        }
        events.push(WalkEvent::Found {
            depth,
            meta: Some(FileMeta { size: *size, modified_secs: Some(7), real_path: path.clone() }),
            path,
            is_dir,
            is_file: !is_dir,
        });
    }
    Root::Tree { events }
}

fn names(result: &ScanResult) -> Vec<String> {
    result
        .entries
        .iter()
        .map(|e| e.path.file_name().unwrap())
        .collect()
}

fn zero_cli() -> Cli {
    Cli {
        paths: vec![],
        max_depth: None,
        types: vec![],
        keep_smaller: false,
        delete: false,
        yes: false,
        hash: HashAlgo::Blake3,
        exact: false,
        similarity: Some(Binary64::from_u64(97)),
        no_cache: false,
        min_size: None,
        max_size: None,
        exclude_dir: vec![],
        exclude_path: vec![],
        json: false,
        verbose: false,
        quiet: true,
    }
}

#[test]
fn parse_extension_filter() {
    let set = extension_filter(&vec![".JPG".into(), "png".into(), " MP4 ".into()]);
    assert!(set.contains("jpg"));
    assert!(set.contains("png"));
    assert!(set.contains("mp4"));
    assert_eq!(set.len(), 3);
}

#[test]
fn extension_filters_drop_blanks_and_repetitions() {
    let set = extension_filter(&vec!["".into(), " ".into(), "...".into()]);
    assert!(set.is_empty());
    assert_eq!(set.len(), 0);
    let set = extension_filter(&vec!["jpg".into(), "..JPG".into(), "\tjpg\n".into()]);
    assert_eq!(set.len(), 1);
    assert!(!set.is_empty());
    assert!(!set.contains("JPG"));
    assert!(matches_extension(&file_path("x/A.JpG"), &set));
    assert!(!matches_extension(&file_path("x/jpg"), &set));
    assert!(!matches_extension(&file_path("x/a.png"), &set));
}

#[test]
fn scan_filters_by_type_and_size() {
    let tree = Tree {
        root: "/tmp/filters",
        nodes: vec![
            ("a.jpg", 100),
            ("b.png", 100),
            ("c.txt", 100),
            ("big.png", 5000),
            ("sub/", 0),
            ("sub/d.JPG", 100),
        ],
    };
    let cli = Cli {
        paths: vec![tree.root.to_string()],
        max_depth: None,
        types: vec!["jpg".into()],
        ..zero_cli()
    };
    let result = scan(&cli, 0, 0, &vec![walk(&tree, &cli)]);
    let mut found = names(&result);
    found.sort();
    assert_eq!(found, vec!["a.jpg", "d.JPG"]);

    // Size filter: only files >= 1KB and <= 100KB.
    let cli = Cli {
        paths: vec![tree.root.to_string()],
        max_depth: None,
        types: vec!["png".into()],
        min_size: Some("1KB".into()),
        max_size: Some("100KB".into()),
        ..zero_cli()
    };
    let result = scan(&cli, 1_000, 102_400, &vec![walk(&tree, &cli)]);
    assert_eq!(result.entries.len(), 1);
    assert_eq!(result.entries[0].size, 5_000);
    assert_eq!(result.files_skipped, 4);
}

#[test]
fn max_depth_zero_does_not_descend() {
    let tree = Tree {
        root: "/tmp/depth",
        nodes: vec![("root.txt", 1), ("sub/", 0), ("sub/child.txt", 1)],
    };
    let cli = Cli {
        paths: vec![tree.root.to_string()],
        max_depth: Some(0),
        ..zero_cli()
    };
    let result = scan(&cli, 0, 0, &vec![walk(&tree, &cli)]);
    assert_eq!(names(&result), vec!["root.txt"]);
}

#[test]
fn the_root_counts_as_a_level_of_the_walk() {
    assert_eq!(walk_depth(Some(0)), 1);
    assert_eq!(walk_depth(Some(41)), 42);
    assert_eq!(walk_depth(None), usize::MAX);
}

#[test]
fn exclude_dir_prunes_subtrees() {
    let tree = Tree {
        root: "/tmp/exclude",
        nodes: vec![
            ("a.txt", 1),
            ("node_modules/", 0),
            ("node_modules/b.txt", 1),
            ("node_modules/deep/", 0),
            ("node_modules/deep/c.txt", 1),
            ("notes.txt", 1),
        ],
    };
    let cli = Cli {
        paths: vec![tree.root.to_string()],
        max_depth: None,
        exclude_dir: vec!["node_modules".into()],
        ..zero_cli()
    };
    let result = scan(&cli, 0, 0, &vec![walk(&tree, &cli)]);
    assert_eq!(names(&result), vec!["a.txt", "notes.txt"]);
    assert_eq!(result.dirs_skipped, 1);
}

#[test]
fn the_root_itself_and_files_are_never_pruned() {
    let cli = Cli { exclude_dir: vec!["node".into()], ..zero_cli() };
    assert!(!prunes(0, true, &file_path("/x/node_modules"), &cli));
    assert!(prunes(1, true, &file_path("/x/node_modules"), &cli));
    assert!(!prunes(1, false, &file_path("/x/node_modules"), &cli));
    assert!(!prunes(1, true, &file_path("/x/node_modules/y"), &cli));
    assert!(matches_excluded_dir(&file_path("/x/my_nodes"), &cli));
    assert!(!matches_excluded_dir(&file_path("/"), &cli));
    assert!(!matches_excluded_dir(&file_path("/x/node_modules"), &zero_cli()));
}

#[test]
fn exclude_path_filters_files() {
    let tree = Tree {
        root: "/tmp/exclude-path",
        nodes: vec![("report-final.txt", 1), ("report-draft.txt", 1)],
    };
    let cli = Cli {
        paths: vec![tree.root.to_string()],
        max_depth: None,
        exclude_path: vec!["draft".into()],
        ..zero_cli()
    };
    let result = scan(&cli, 0, 0, &vec![walk(&tree, &cli)]);
    assert_eq!(result.entries.len(), 1);
    assert_eq!(result.entries[0].path.file_name().unwrap(), "report-final.txt");
    assert!(matches_excluded_path(&file_path("/draft/a"), &cli));
    assert!(!matches_excluded_path(&file_path("/final/a"), &cli));
}

#[test]
fn the_same_path_is_taken_once() {
    let cli = zero_cli();
    let file = |p: &str, size: u64| Root::File {
        path: file_path(p),
        meta: Some(FileMeta { size, modified_secs: None, real_path: file_path(p) }),
    };
    let roots = vec![file("/a/./b", 3), file("/a/b", 3), file("/a//b", 3), file("/a/c", 4)];
    let result = scan(&cli, 0, 0, &roots);
    assert_eq!(result.entries.len(), 2);
    assert_eq!(result.entries[0].path.text, "/a/./b");
    assert_eq!(result.entries[0].mtime_secs, None);
    assert_eq!(result.files_skipped, 0);
}

#[test]
fn what_cannot_be_read_is_noted() {
    let cli = zero_cli();
    let roots = vec![
        Root::Missing { path: file_path("nowhere") },
        Root::Tree {
            events: vec![
                WalkEvent::Failed("no entry".to_string()),
                WalkEvent::Found {
                    depth: 1,
                    path: file_path("t/pipe"),
                    is_dir: false,
                    is_file: false,
                    meta: None,
                },
                WalkEvent::Found {
                    depth: 1,
                    path: file_path("t/gone"),
                    is_dir: false,
                    is_file: true,
                    meta: None,
                },
            ],
        },
        Root::File {
            path: file_path("f"),
            meta: Some(FileMeta {
                size: 9,
                modified_secs: Some(u64::MAX),
                real_path: file_path("/home/f"),
            }),
        },
    ];
    let result = scan(&cli, 0, 0, &roots);
    assert_eq!(
        result.dir_read_errors,
        vec!["path does not exist: nowhere", "cannot read: no entry"]
    );
    assert_eq!(result.files_skipped, 1);
    assert_eq!(result.dirs_skipped, 0);
    assert_eq!(result.entries.len(), 1);
    assert_eq!(result.entries[0].mtime_secs, Some(-1));
}

#[test]
fn size_limits_take_in_their_ends() {
    let cli = zero_cli();
    let file = |p: &str, size: u64| Root::File {
        path: file_path(p),
        meta: Some(FileMeta { size, modified_secs: Some(1), real_path: file_path(p) }),
    };
    let roots = vec![file("a", 9), file("b", 10), file("c", 20), file("d", 21)];
    let sizes = |min: u64, max: u64| -> Vec<u64> {
        scan(&cli, min, max, &roots).entries.iter().map(|e| e.size).collect()
    };
    assert_eq!(sizes(10, 20), vec![10, 20]);
    assert_eq!(sizes(10, 0), vec![10, 20, 21]);
    assert_eq!(sizes(0, 20), vec![9, 10, 20]);
    let empty = ScanResult::new();
    assert!(empty.entries.is_empty() && empty.dir_read_errors.is_empty());
}

#[test]
fn one_file_is_taken_once_however_its_path_is_spelled() {
    let cli = zero_cli();
    let found = |p: &str, real: &str| WalkEvent::Found {
        depth: 1,
        path: file_path(p),
        is_dir: false,
        is_file: true,
        meta: Some(FileMeta { size: 5, modified_secs: Some(1), real_path: file_path(real) }),
    };
    // The roots `.` and `sub`, from within `/home`.
    let roots = vec![
        Root::Tree {
            events: vec![found("./sub/a.txt", "/home/sub/a.txt"), found("./b.txt", "/home/b.txt")],
        },
        Root::Tree { events: vec![found("sub/a.txt", "/home/sub/a.txt")] },
        Root::File {
            path: file_path("/home/link.txt"),
            meta: Some(FileMeta {
                size: 5,
                modified_secs: Some(1),
                real_path: file_path("/home/b.txt"),
            }),
        },
    ];
    let result = scan(&cli, 0, 0, &roots);
    let spelled: Vec<&str> = result.entries.iter().map(|e| e.path.text.as_str()).collect();
    assert_eq!(spelled, vec!["./sub/a.txt", "./b.txt"]);
    let real: Vec<&str> = result.real_paths.iter().map(|p| p.text.as_str()).collect();
    assert_eq!(real, vec!["/home/sub/a.txt", "/home/b.txt"]);
    assert_eq!(result.files_skipped, 0);
}
