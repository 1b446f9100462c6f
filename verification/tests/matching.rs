use dedupe::hashing::DuplicateGroup;
use dedupe::matching::{assemble_groups, choose_keep, probe_wanted, Group};
use dedupe::media::{MediaInfo, MediaKind};
use dedupe::path::{FilePath, PathPart};
use dedupe::scan::FileEntry;

fn file_path(text: &str) -> FilePath {
    FilePath {
        raw: text.as_bytes().to_vec(),
        text: text.to_string(),
        parts: text
            .split('/')
            .map(|p| PathPart::Normal(p.as_bytes().to_vec()))
            .collect(),
    }
}

fn entry(name: &str, size: u64) -> FileEntry {
    FileEntry { path: file_path(name), size, mtime_secs: Some(0) }
}

fn fake_group(hash: &str, names: &[(&str, usize)]) -> DuplicateGroup {
    DuplicateGroup {
        hash: hash.to_string(),
        members: names
            .iter()
            .map(|(name, size)| entry(&format!("dir/{name}"), *size as u64))
            .collect(),
    }
}

fn no_infos(groups: &[DuplicateGroup]) -> Vec<Vec<Option<MediaInfo>>> {
    groups
        .iter()
        .map(|g| g.members.iter().map(|_| None).collect())
        .collect()
}

fn assemble(groups: Vec<DuplicateGroup>, keep_smaller: bool) -> Vec<Group> {
    let infos = no_infos(&groups);
    assemble_groups(&groups, keep_smaller, false, &infos)
}

fn names(group: &Group) -> Vec<String> {
    group.members.iter().map(|m| m.path.file_name().unwrap()).collect()
}

#[test]
fn default_keeps_first_path() {
    let group = fake_group("abc", &[("z.txt", 10), ("a.txt", 20), ("m.txt", 5)]);
    let groups = assemble(vec![group], false);
    let members = &groups[0].members;
    assert_eq!(members.first().unwrap().path.file_name().unwrap(), "a.txt");
    assert!(members.first().unwrap().keep);
    assert_eq!(members.iter().filter(|m| m.keep).count(), 1);
    // z.txt (10) + m.txt (5) are duplicates; a.txt (20) is kept.
    assert_eq!(groups[0].dup_bytes(), 15);
}

#[test]
fn keep_smaller_wins() {
    let group = fake_group("abc", &[("a.txt", 10), ("b.txt", 20), ("c.txt", 2)]);
    let groups = assemble(vec![group], true);
    let members = &groups[0].members;
    assert_eq!(members.first().unwrap().path.file_name().unwrap(), "c.txt");
    assert!(members.first().unwrap().keep);
    assert_eq!(groups[0].dup_bytes(), 30);
}

#[test]
fn media_kind_detected_from_extension() {
    let group = fake_group("abc", &[("pic.JPG", 10), ("pic2.jpg", 10)]);
    let groups = assemble(vec![group], false);
    // Nothing is probed here; the kind still comes from the name.
    assert_eq!(groups[0].media_kind, MediaKind::Image);
}

#[test]
fn the_kind_is_that_of_the_file_that_is_kept() {
    let group = fake_group("abc", &[("z.mp4", 10), ("a.txt", 10), ("m.png", 5)]);
    assert_eq!(assemble(vec![group], false)[0].media_kind, MediaKind::Other);
    let group = fake_group("abc", &[("z.mp4", 10), ("a.txt", 10), ("m.png", 5)]);
    assert_eq!(assemble(vec![group], true)[0].media_kind, MediaKind::Image);
}

#[test]
fn the_keeper_comes_first_and_the_rest_by_path() {
    let group = fake_group("abc", &[("d", 1), ("c", 9), ("b", 9), ("a", 9)]);
    let groups = assemble(vec![group], true);
    assert_eq!(names(&groups[0]), vec!["d", "a", "b", "c"]);
    assert_eq!(groups[0].keep_count(), 1);
    let group = fake_group("abc", &[("d", 1), ("c", 9), ("b", 9), ("a", 9)]);
    assert_eq!(names(&assemble(vec![group], false)[0]), vec!["a", "b", "c", "d"]);
}

#[test]
fn smallest_files_tie_by_path() {
    let members = vec![entry("c", 3), entry("b", 3), entry("a", 4)];
    assert_eq!(choose_keep(&members, true), 1);
    assert_eq!(choose_keep(&members, false), 2);
    // Components are compared, not characters.
    let members = vec![entry("a-b/x", 3), entry("a/z", 3)];
    assert_eq!(choose_keep(&members, false), 1);
}

#[test]
fn groups_come_by_hash_and_keep_their_numbers() {
    let groups = vec![
        fake_group("ff", &[("a", 1), ("b", 1)]),
        fake_group("0a", &[("c", 1), ("d", 1)]),
        fake_group("0", &[("e", 1), ("f", 1)]),
    ];
    let out = assemble(groups, false);
    let seen: Vec<(usize, &str)> = out.iter().map(|g| (g.index, g.hash.as_str())).collect();
    assert_eq!(seen, vec![(3, "0"), (2, "0a"), (1, "ff")]);
    assert!(out.iter().all(|g| g.similarity.is_none()));
    assert!(out.iter().all(|g| g.members.iter().all(|m| m.content_hash.is_none())));
}

#[test]
fn media_groups_take_over_what_was_probed() {
    let groups = vec![
        fake_group("a", &[("b.png", 1), ("a.png", 1)]),
        fake_group("b", &[("a.txt", 1), ("b.txt", 1)]),
    ];
    assert!(probe_wanted(&groups[0], false, true));
    assert!(!probe_wanted(&groups[0], false, false));
    assert!(!probe_wanted(&groups[1], false, true));
    let info = |w: u32| MediaInfo { width: Some(w), height: Some(1), duration_ms: None, codec: None };
    let infos = vec![vec![Some(info(10)), Some(info(20))], vec![Some(info(30)), None]];
    let out = assemble_groups(&groups, false, true, &infos);
    assert_eq!(out[0].members[0].media.as_ref().unwrap().width, Some(20));
    assert_eq!(out[0].members[1].media.as_ref().unwrap().width, Some(10));
    assert!(out[1].members.iter().all(|m| m.media.is_none()));
    let out = assemble_groups(&groups, false, false, &infos);
    assert!(out[0].members.iter().all(|m| m.media.is_none()));
}
