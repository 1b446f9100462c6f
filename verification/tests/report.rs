use dedupe::binary64::Binary64;
use dedupe::matching::{Group, GroupMember};
use dedupe::media::{MediaInfo, MediaKind};
use dedupe::paint::{Paint, Span};
use dedupe::path::{FilePath, PathPart};
use dedupe::report::{
    can_report, dup_file_count, group_kind_name, human_report, percent, reclaimable_bytes, shorten,
    ReportContext, ScanStats,
};

fn file_path(text: &str) -> FilePath {
    FilePath {
        raw: text.as_bytes().to_vec(),
        text: text.to_string(),
        parts: text
            .split('/')
            .map(|p| PathPart::Normal(p.as_bytes().to_vec()))
            .collect(),
    }
}

fn member(path: &str, size: u64, keep: bool) -> GroupMember {
    GroupMember {
        path: file_path(path),
        size,
        mtime_secs: None,
        keep,
        media: None,
        similarity: None,
        content_hash: None,
    }
}

fn context(verbose: bool, ffprobe_used: bool) -> ReportContext {
    ReportContext {
        paths: vec!["media".to_string()],
        hash_algo: "blake3".to_string(),
        verbose,
        ffprobe_used,
    }
}

fn stats() -> ScanStats {
    ScanStats {
        files_scanned: 4,
        bytes_scanned: 128_300,
        dirs_skipped: 0,
        files_skipped: 0,
        dir_read_errors: vec![],
    }
}

fn plain(lines: &[Vec<Span>]) -> Vec<String> {
    lines
        .iter()
        .map(|l| l.iter().map(|s| s.text.as_str()).collect::<String>())
        .collect()
}

const DIVIDER: &str = "────────────────────────────────────────────────";

#[test]
fn human_output_shows_styled_group_report() {
    let groups = vec![Group {
        index: 1,
        hash: "69d57daf8d78aabbcc".to_string(),
        media_kind: MediaKind::Other,
        similarity: None,
        members: vec![member("dir/a.txt", 7, true), member("dir/sub/b.txt", 7, false)],
    }];
    assert!(can_report(&groups));
    let lines = human_report(&context(false, true), &stats(), &groups);
    let text = plain(&lines).join("\n");
    assert!(text.contains("◆ Group #1"), "{text}");
    assert!(text.contains("✓ KEEP"), "{text}");
    assert!(text.contains("✗ DUP"), "{text}");
    assert!(text.contains("Tip:"), "{text}");
    // Colors are apart from the text.
    assert!(!text.contains('\u{1b}'), "{text}");
    assert_eq!(
        plain(&lines),
        vec![
            "",
            "Scanned 1 path(s) · 4 files (128.30 KB) · 1 duplicate group(s) · 1 duplicate file(s)",
            "Reclaimable with --delete: 7 B",
            "",
            DIVIDER,
            "◆ Group #1 · FILE · 2 files · 7 B each · 7 B reclaimable · blake3 69d57daf8d78",
            "  ✓ KEEP  dir/a.txt      7 B",
            "  ✗ DUP   dir/sub/b.txt  7 B",
            "",
            "Tip: run with --delete to remove the 1 duplicate file(s), or --delete --keep-smaller to prefer the smallest copy.",
        ]
    );
}

#[test]
fn an_empty_report_says_so() {
    let mut s = stats();
    s.files_skipped = 2;
    s.dirs_skipped = 3;
    s.dir_read_errors = vec!["cannot read: x".to_string(), "cannot read: y".to_string()];
    let lines = human_report(&context(false, false), &s, &vec![]);
    assert_eq!(
        plain(&lines),
        vec![
            "",
            "Scanned 1 path(s) · 4 files (128.30 KB) · 0 duplicate group(s) · 0 duplicate file(s)",
            "Skipped 2 file(s) and 3 directory tree(s) via filters.",
            "⚠ 2 path(s) could not be read (first: cannot read: x)",
            "Note: ffprobe not found on PATH; image/video resolution and duration are not reported. Install FFmpeg to enable media metadata.",
            "",
            "✔ No duplicate files found.",
        ]
    );
    assert_eq!(lines[1][0].paint, Paint::Bold);
    assert_eq!(lines[6][0].paint, Paint::GreenBold);
}

fn similar_group() -> Group {
    let info = |codec: Option<&str>| {
        Some(MediaInfo {
            width: Some(1280),
            height: Some(720),
            duration_ms: Some(4_000),
            codec: codec.map(|c| c.to_string()),
        })
    };
    let mut keeper = member("m/a.mp4", 62_100, true);
    keeper.media = info(Some("h264"));
    keeper.similarity = Some(Binary64::from_u64(1));
    let mut other = member("m/b.mov", 1_500, false);
    other.media = info(None);
    other.similarity = Some(Binary64::ratio(63, 64));
    Group {
        index: 2,
        hash: "similar#2".to_string(),
        media_kind: MediaKind::Video,
        similarity: Some(Binary64::ratio(63, 64)),
        members: vec![keeper, other],
    }
}

#[test]
fn similar_groups_show_their_similarity() {
    let lines = human_report(&context(false, true), &stats(), &vec![similar_group()]);
    let text = plain(&lines);
    assert_eq!(
        text[5],
        "◆ Group #2 · VIDEO · 2 files · 62.10 KB each · 1.50 KB reclaimable · 98.4% similar"
    );
    assert_eq!(text[6], "  ↳ 1280x720, 0:04");
    assert_eq!(text[7], "  ✓ KEEP  m/a.mp4  62.10 KB");
    assert_eq!(text[8], "  ✗ DUP   m/b.mov  1.50 KB  · 98.4% similar");
    let lines = human_report(&context(true, true), &stats(), &vec![similar_group()]);
    let text = plain(&lines);
    assert_eq!(text[7], "  ✓ KEEP  m/a.mp4  62.10 KB  · 1280x720, 0:04, h264");
    assert_eq!(text[8], "  ✗ DUP   m/b.mov  1.50 KB  · 98.4% similar  · 1280x720, 0:04");
}

#[test]
fn duplicates_are_counted_over_all_groups() {
    let groups = vec![similar_group(), similar_group()];
    assert_eq!(dup_file_count(&groups), 2);
    assert_eq!(reclaimable_bytes(&groups), 3_000);
    assert_eq!(dup_file_count(&vec![]), 0);
    assert_eq!(group_kind_name(MediaKind::Image), "image");
    assert_eq!(group_kind_name(MediaKind::Video), "video");
    assert_eq!(group_kind_name(MediaKind::Other), "file");
}

#[test]
fn what_cannot_be_reported_is_told() {
    let mut group = similar_group();
    group.members[1].size = u64::MAX;
    assert!(can_report(&vec![group]));
    let mut big = similar_group();
    big.members[1].size = u64::MAX;
    assert!(!can_report(&vec![similar_group(), big]));
    let mut empty = similar_group();
    empty.members.clear();
    assert!(!can_report(&vec![empty]));
    let mut odd = similar_group();
    odd.hash = "0123456789aé".to_string();
    assert!(!can_report(&vec![odd]));
}

#[test]
fn hashes_are_cut_and_percentages_rounded() {
    assert_eq!(shorten("0123456789abcdef"), "0123456789ab");
    assert_eq!(shorten("short"), "short");
    assert_eq!(shorten("ééééééx"), "éééééé");
    for n in 0..=64u64 {
        let s = n as f64 / 64.0;
        assert_eq!(percent(Binary64::ratio(n, 64)), format!("{:.1}% similar", s * 100.0));
    }
}

#[test]
fn sizes_stand_below_each_other() {
    let members = vec![
        member("short", 1, true),
        member("a/much/longer/path/ünïcödé", 1_000_000, false),
        member("mid/dle", 999, false),
    ];
    let group = Group {
        index: 1,
        hash: "h".to_string(),
        media_kind: MediaKind::Other,
        similarity: None,
        members,
    };
    let lines = human_report(&context(false, true), &stats(), &vec![group]);
    let columns: Vec<usize> = lines[6..9]
        .iter()
        .map(|l| l[..7].iter().map(|s| s.text.chars().count()).sum())
        .collect();
    assert_eq!(columns, vec![38, 38, 38]);
    assert_eq!(lines[6][7].text, "1 B");
    assert_eq!(lines[7][7].text, "1.00 MB");
}
