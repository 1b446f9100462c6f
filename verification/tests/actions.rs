use dedupe::actions::{outcome, parse_reply, question, Deletion, DeletionStats, DeletionStep, Reply};
use dedupe::binary64::Binary64;
use dedupe::cli::HashAlgo;
use dedupe::hashing::{DuplicateGroup, HashEngine};
use dedupe::matching::{assemble_groups, Group, GroupMember};
use dedupe::media::MediaKind;
use dedupe::paint::Span;
use dedupe::path::{FilePath, PathPart};
use dedupe::scan::FileEntry;

fn file_path(text: &str) -> FilePath {
    FilePath {
        raw: text.as_bytes().to_vec(),
        text: text.to_string(),
        parts: text
            .split('/')
            .map(|p| PathPart::Normal(p.as_bytes().to_vec()))
            .collect(),
    }
}

fn member(path: &str, size: u64, keep: bool) -> GroupMember {
    GroupMember {
        path: file_path(path),
        size,
        mtime_secs: None,
        keep,
        media: None,
        similarity: None,
        content_hash: None,
    }
}

fn group(index: usize, hash: &str, members: Vec<GroupMember>) -> Group {
    Group { index, hash: hash.to_string(), media_kind: MediaKind::Other, similarity: None, members }
}

fn plain(line: &[Span]) -> String {
    line.iter().map(|s| s.text.as_str()).collect()
}

/// Runs a deletion: answers questions in order, hashes files by `hash` and
/// removes them unless they are among `stuck`.
fn run(
    groups: &Vec<Group>,
    yes: bool,
    answers: &[&str],
    hash: &dyn Fn(&str) -> Option<String>,
    stuck: &[&str],
) -> (Vec<String>, DeletionStats, usize) {
    let mut deletion = Deletion::new(groups, yes);
    let mut removed = Vec::new();
    let mut asked = 0;
    loop {
        match deletion.next() {
            DeletionStep::Ask { .. } => {
                let answer = answers.get(asked).copied().unwrap_or("");
                asked += 1;
                deletion.answered(groups, answer);
            }
            DeletionStep::Check { group, member } => {
                let path = &groups[group].members[member].path.text;
                let found = hash(path);
                deletion.checked(groups, found.as_deref());
            }
            DeletionStep::Remove { group, member } => {
                let path = &groups[group].members[member].path.text;
                let works = !stuck.contains(&path.as_str());
                if works {
                    removed.push(path.clone());
                }
                deletion.removed(groups, works);
            }
            DeletionStep::Done => break,
        }
    }
    (removed, deletion.stats(), asked)
}

fn two_groups() -> Vec<Group> {
    vec![
        group(1, "h", vec![member("a", 5, true), member("b", 5, false), member("c", 5, false)]),
        group(2, "h", vec![member("d", 7, true), member("e", 7, false)]),
    ]
}

#[test]
fn delete_with_yes_removes_duplicates_keeps_one() {
    let engine = HashEngine::new(HashAlgo::Blake3);
    let content = b"same payload";
    let names = ["alpha.txt", "beta.txt"];
    let found = DuplicateGroup {
        hash: engine.full(content),
        members: names
            .iter()
            .map(|n| FileEntry { path: file_path(n), size: 12, mtime_secs: None })
            .collect(),
    };
    let groups = assemble_groups(&vec![found], true, false, &vec![vec![None, None]]);
    let (removed, stats, asked) =
        run(&groups, true, &[], &|_| Some(engine.full(content)), &[]);
    // Exactly one copy survives.
    assert_eq!(removed, vec!["beta.txt"]);
    assert_eq!(asked, 0);
    assert_eq!(
        stats,
        DeletionStats { files_deleted: 1, bytes_freed: 12, files_skipped: 0 }
    );
}

#[test]
fn answers_decide_group_by_group() {
    let groups = two_groups();
    let same = |_: &str| Some("h".to_string());
    assert_eq!(run(&groups, false, &["n", "y"], &same, &[]).0, vec!["e"]);
    assert_eq!(run(&groups, false, &["y", "n"], &same, &[]).0, vec!["b", "c"]);
    let (removed, stats, asked) = run(&groups, false, &["a"], &same, &[]);
    assert_eq!((removed.len(), asked), (3, 1));
    assert_eq!(stats, DeletionStats { files_deleted: 3, bytes_freed: 17, files_skipped: 0 });
    let (removed, stats, asked) = run(&groups, false, &["q"], &same, &[]);
    assert_eq!((removed.len(), asked), (0, 1));
    assert_eq!(stats, DeletionStats::default());
    assert_eq!(run(&groups, false, &["", "maybe"], &same, &[]).2, 2);
}

#[test]
fn changed_unreadable_and_stuck_files_stay() {
    let groups = two_groups();
    let hash = |p: &str| match p {
        "b" => Some("other".to_string()),
        "c" => None,
        _ => Some("h".to_string()),
    };
    let (removed, stats, _) = run(&groups, true, &[], &hash, &["e"]);
    assert!(removed.is_empty());
    assert_eq!(stats, DeletionStats { files_deleted: 0, bytes_freed: 0, files_skipped: 3 });
}

#[test]
fn similar_files_are_held_to_their_own_hash() {
    let mut g = group(3, "similar#3", vec![member("a", 1, true), member("b", 2, false), member("c", 4, false)]);
    g.members[1].content_hash = Some("hb".to_string());
    let groups = vec![g];
    let (removed, stats, _) = run(&groups, true, &[], &|p| Some(format!("h{p}")), &[]);
    // The hash of c is not known: nothing matches that of the group.
    assert_eq!(removed, vec!["b"]);
    assert_eq!(stats, DeletionStats { files_deleted: 1, bytes_freed: 2, files_skipped: 1 });
}

#[test]
fn groups_without_duplicates_are_passed_over() {
    let groups = vec![group(1, "h", vec![member("a", 1, true)]), group(2, "h", vec![])];
    assert_eq!(Deletion::new(&groups, false).next(), DeletionStep::Done);
    assert_eq!(Deletion::new(&vec![], true).next(), DeletionStep::Done);
}

#[test]
fn replies_are_read_without_case_and_blanks() {
    for yes in ["y", "Y", " yes \n", "YES"] {
        assert_eq!(parse_reply(yes), Reply::Yes, "{yes:?}");
    }
    for all in ["a", "All\r\n"] {
        assert_eq!(parse_reply(all), Reply::All, "{all:?}");
    }
    for quit in ["q", "\tQuit"] {
        assert_eq!(parse_reply(quit), Reply::Quit, "{quit:?}");
    }
    for no in ["", "n", "no", "yy", "y e s", "ja"] {
        assert_eq!(parse_reply(no), Reply::No, "{no:?}");
    }
}

#[test]
fn questions_and_outcomes_are_written_out() {
    let groups = two_groups();
    assert_eq!(
        plain(&question(&groups[0])),
        "? Delete 2 file(s) (10 B reclaimable) from group #1? [y/n/a/q] "
    );
    let mut similar = group(9, "similar#9", vec![member("a", 1, true), member("b", 2_000, false)]);
    similar.similarity = Some(Binary64::ratio(63, 64));
    assert_eq!(
        plain(&question(&similar)),
        "? Delete 1 file(s) (2.00 KB reclaimable (98.4% similar)) from group #9? [y/n/a/q] "
    );
    let stats = DeletionStats { files_deleted: 3, bytes_freed: 17_000, files_skipped: 2 };
    assert_eq!(plain(&outcome(&stats)), "✔ Deleted 3 file(s) (17.00 KB freed); 2 skipped.");
}
