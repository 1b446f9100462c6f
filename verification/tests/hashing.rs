use dedupe::cli::HashAlgo;
use dedupe::hashing::{
    candidate_count, find_duplicate_groups, partial_candidates, size_candidates, DuplicateGroup,
    HashEngine, HashStep,
};
use dedupe::path::{FilePath, PathPart};
use dedupe::scan::FileEntry;

fn file_path(text: &str) -> FilePath {
    FilePath {
        raw: text.as_bytes().to_vec(),
        text: text.to_string(),
        parts: text
            .split('/')
            .map(|p| PathPart::Normal(p.as_bytes().to_vec()))
            .collect(),
    }
}

/// Finds the duplicates among files given by name and content; `None` stands
/// for a file that cannot be read. Returns too the progress that a bar over
/// both stages would show, as positions and lengths.
fn detect(
    files: &[(&str, Option<Vec<u8>>)],
    engine: &HashEngine,
) -> (Vec<DuplicateGroup>, Vec<(usize, usize)>) {
    let entries: Vec<FileEntry> = files
        .iter()
        .map(|(name, content)| FileEntry {
            path: file_path(name),
            size: content.as_ref().map_or(5, |c| c.len() as u64),
            mtime_secs: None,
        })
        .collect();
    let mut progress = Vec::new();
    let mut partials: Vec<Option<String>> = vec![None; files.len()];
    let candidates = size_candidates(&entries);
    let length = candidate_count(&candidates);
    let mut position = 0;
    for group in &candidates {
        for &i in group {
            partials[i] = files[i].1.as_ref().map(|c| engine.partial(c));
        }
        position += group.len();
        progress.push((position, length));
    }
    let mut fulls: Vec<Option<String>> = vec![None; files.len()];
    let survivors = partial_candidates(&entries, &partials);
    let length = candidate_count(&survivors);
    position = 0;
    progress.push((position, length));
    for group in &survivors {
        for &i in group {
            fulls[i] = files[i].1.as_ref().map(|c| engine.full(c));
        }
        position += group.len();
        progress.push((position, length));
    }
    (find_duplicate_groups(&entries, &partials, &fulls), progress)
}

fn names(group: &DuplicateGroup) -> Vec<&str> {
    group.members.iter().map(|m| m.path.text.as_str()).collect()
}

#[test]
fn pipeline_finds_exact_duplicates_only() {
    let engine = HashEngine::new(HashAlgo::Blake3);
    // A bigger file sharing only the prefix must not match.
    let (groups, _) = detect(
        &[
            ("a.txt", Some(b"same content here".to_vec())),
            ("b.txt", Some(b"same content here".to_vec())),
            ("c.txt", Some(b"different content!".to_vec())),
            ("d.txt", Some(b"same content here but longer and different".to_vec())),
        ],
        &engine,
    );
    assert_eq!(groups.len(), 1);
    assert_eq!(groups[0].members.len(), 2);
    let mut paths = names(&groups[0]);
    paths.sort();
    assert_eq!(paths, vec!["a.txt", "b.txt"]);
}

#[test]
fn partial_hash_equals_full_for_small_files() {
    for algo in [HashAlgo::Blake3, HashAlgo::Sha256, HashAlgo::Md5] {
        let engine = HashEngine::new(algo);
        assert_eq!(engine.partial(b"tiny"), engine.full(b"tiny"));
    }
}

#[test]
fn progress_bar_position_never_exceeds_length() {
    // Every candidate survives partial hashing (identical small files): the
    // position starts again for the second stage.
    let names: Vec<String> = (0..8).map(|i| format!("f{i}.txt")).collect();
    let files: Vec<(&str, Option<Vec<u8>>)> = names
        .iter()
        .map(|n| (n.as_str(), Some(b"same content".to_vec())))
        .collect();
    let engine = HashEngine::new(HashAlgo::Blake3);
    let (groups, progress) = detect(&files, &engine);
    assert_eq!(groups.len(), 1);
    assert_eq!(groups[0].members.len(), 8);
    for (position, length) in progress {
        assert!(position <= length, "bar overflowed: position {position} > length {length}");
    }
}

#[test]
fn digests_are_those_of_the_algorithms() {
    let engine = HashEngine::new(HashAlgo::Blake3);
    assert_eq!(engine.name(), "blake3");
    assert_eq!(
        engine.full(b""),
        "af1349b9f5f9a1a6a0404dea36dcc9499bcb25c9adc112b7cc9a93cae41f3262"
    );
    let engine = HashEngine::new(HashAlgo::Sha256);
    assert_eq!(engine.name(), "sha256");
    assert_eq!(
        engine.full(b"abc"),
        "ba7816bf8f01cfea414140de5dae2223b00361a396177a9cb410ff61f20015ad"
    );
    assert_eq!(
        engine.digest_bytes(b""),
        "e3b0c44298fc1c149afbf4c8996fb92427ae41e4649b934ca495991b7852b855"
    );
    let engine = HashEngine::new(HashAlgo::Md5);
    assert_eq!(engine.name(), "md5");
    assert_eq!(engine.full(b"abc"), "900150983cd24fb0d6963f7d28e17f72");
    assert_eq!(engine.digest_bytes(b""), "d41d8cd98f00b204e9800998ecf8427e");
}

#[test]
fn hashing_piece_by_piece_gives_the_full_hash() {
    let data: Vec<u8> = (0..200_000u32).map(|i| (i * 7 % 251) as u8).collect();
    for algo in [HashAlgo::Blake3, HashAlgo::Sha256, HashAlgo::Md5] {
        let engine = HashEngine::new(algo);
        let mut state = engine.start();
        for piece in data.chunks(4096) {
            let mut buf = [0xaau8; 5000];
            buf[..piece.len()].copy_from_slice(piece);
            assert!(state.feed(&buf, piece.len()));
        }
        assert!(!state.feed(&[1, 2, 3], 0));
        assert_eq!(state.finish(), engine.full(&data));
        assert_eq!(engine.full(&data), engine.digest_bytes(&data));
        assert_eq!(blake3::hash(&data).to_hex().to_string() == engine.full(&data), algo == HashAlgo::Blake3);
    }
}

#[test]
fn only_the_first_part_counts_for_a_partial_hash() {
    let engine = HashEngine::new(HashAlgo::Sha256);
    let mut a = vec![1u8; 70_000];
    let mut b = a.clone();
    b[65_536] = 2;
    assert_eq!(engine.partial(&a), engine.partial(&b));
    assert_ne!(engine.full(&a), engine.full(&b));
    assert_eq!(engine.partial(&a), engine.full(&a[..65_536]));
    a[65_535] = 3;
    assert_ne!(engine.partial(&a), engine.partial(&b));
    let (groups, _) = detect(&[("x", Some(vec![1u8; 70_000])), ("y", Some(b))], &engine);
    assert!(groups.is_empty());
}

#[test]
fn unreadable_and_lonely_files_are_in_no_group() {
    let engine = HashEngine::new(HashAlgo::Md5);
    let (groups, _) = detect(
        &[
            ("a", Some(b"12345".to_vec())),
            ("b", None),
            ("c", Some(b"123456".to_vec())),
            ("d", Some(b"54321".to_vec())),
        ],
        &engine,
    );
    assert!(groups.is_empty());
}

#[test]
fn groups_are_disjoint_and_keep_the_order_of_files() {
    let engine = HashEngine::new(HashAlgo::Blake3);
    let (groups, _) = detect(
        &[
            ("q", Some(b"one".to_vec())),
            ("c", Some(b"two".to_vec())),
            ("b", Some(b"one".to_vec())),
            ("z", Some(b"two".to_vec())),
            ("a", Some(b"one".to_vec())),
            ("e1", Some(vec![])),
            ("e2", Some(vec![])),
        ],
        &engine,
    );
    let mut found: Vec<Vec<&str>> = groups.iter().map(names).collect();
    found.sort();
    assert_eq!(found, vec![vec!["c", "z"], vec!["e1", "e2"], vec!["q", "b", "a"]]);
    for g in &groups {
        assert_eq!(g.hash.len(), 64);
    }
}

#[test]
fn any_split_gives_the_hash_of_the_whole() {
    let data: Vec<u8> = (0..1000u32).map(|i| (i * 7 % 251) as u8).collect();
    for algo in [HashAlgo::Blake3, HashAlgo::Sha256, HashAlgo::Md5] {
        let engine = HashEngine::new(algo);
        for size in [1usize, 3, 64, 999, 1000, 5000] {
            let mut reads: Vec<Option<Vec<u8>>> =
                data.chunks(size).map(|c| Some(c.to_vec())).collect();
            // Without a last read there is no hash yet.
            assert_eq!(engine.hash_reader(&reads), None);
            reads.push(Some(vec![]));
            assert_eq!(engine.hash_reader(&reads), Some(engine.digest_bytes(&data)));
            // What would come after the last read does not count.
            reads.push(None);
            assert_eq!(engine.hash_reader(&reads), Some(engine.digest_bytes(&data)));
        }
        assert_eq!(engine.hash_reader(&vec![Some(vec![])]), Some(engine.digest_bytes(&[])));
    }
}

#[test]
fn a_failed_read_gives_no_hash() {
    let engine = HashEngine::new(HashAlgo::Sha256);
    assert_eq!(engine.hash_reader(&vec![None]), None);
    assert_eq!(engine.hash_reader(&vec![Some(vec![1, 2]), None, Some(vec![])]), None);
    assert_eq!(engine.hash_reader(&vec![]), None);
}

#[test]
fn a_hash_goes_on_step_by_step() {
    let engine = HashEngine::new(HashAlgo::Md5);
    let mut state = engine.start();
    for piece in [&b"ab"[..], &b"c"[..]] {
        state = match state.step(Some(piece)) {
            HashStep::More(next) => next,
            _ => panic!("there is more to read"),
        };
    }
    assert!(matches!(engine.start().step(None), HashStep::Failed));
    match state.step(Some(&[])) {
        HashStep::Done(hash) => assert_eq!(hash, engine.digest_bytes(b"abc")),
        _ => panic!("all has been read"),
    }
}
