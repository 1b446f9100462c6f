use dedupe::binary64::Binary64;
use dedupe::cli::{Cli, HashAlgo};
use dedupe::hashing::{find_duplicate_groups, partial_candidates, size_candidates, HashEngine};
use dedupe::matching::{assemble_groups, Group};
use dedupe::media::MediaKind;
use dedupe::path::{FilePath, PathPart};
use dedupe::report::{dup_file_count, ScanStats};
use dedupe::run::{
    any_media, any_video, colors_enabled, plan, scan_stats, similar_candidates, RunError,
};
use dedupe::scan::{scan, FileEntry, FileMeta, Root};
use dedupe::search::{
    find_similar, image_candidates, image_hits, split_media, ImagePrint, ImageSearch, VideoSearch,
};
use dedupe::similar::{image_dimensions, image_fingerprint, SimilarConfig};
use dedupe::similar_report::build_similar_groups;
use dedupe::util::SizeError;
use image::{ImageBuffer, ImageFormat, Rgb};
use std::io::Cursor;

fn file_path(text: &str) -> FilePath {
    FilePath {
        raw: text.as_bytes().to_vec(),
        text: text.to_string(),
        parts: text
            .split('/')
            .map(|p| PathPart::Normal(p.as_bytes().to_vec()))
            .collect(),
    }
}

fn cli() -> Cli {
    Cli {
        paths: vec!["dir".into()],
        max_depth: None,
        types: vec![],
        keep_smaller: false,
        delete: false,
        yes: false,
        hash: HashAlgo::Blake3,
        exact: false,
        similarity: Some(Binary64::from_u64(97)),
        no_cache: false,
        min_size: None,
        max_size: None,
        exclude_dir: vec![],
        exclude_path: vec![],
        json: true,
        verbose: false,
        quiet: false,
    }
}

fn double(x: Binary64) -> f64 {
    x.mant as f64 * 2f64.powi(x.exp)
}

/// Runs the stages one after the other over files given by path and content.
fn run(cli: &Cli, files: &[(&str, Vec<u8>)]) -> (Vec<Group>, ScanStats) {
    let plan = plan(cli).unwrap();
    let roots: Vec<Root> = files
        .iter()
        .map(|(p, c)| Root::File {
            path: file_path(p),
            meta: Some(FileMeta {
                size: c.len() as u64,
                modified_secs: Some(1),
                real_path: file_path(p),
            }),
        })
        .collect();
    let content = |e: &FileEntry| -> &Vec<u8> {
        &files.iter().find(|(p, _)| *p == e.path.text).unwrap().1
    };
    let (entries, stats) = scan_stats(scan(cli, plan.size_min, plan.size_max, &roots));
    let engine = HashEngine::new(cli.hash);
    let mut partials = vec![None; entries.len()];
    for group in size_candidates(&entries) {
        for i in group {
            partials[i] = Some(engine.partial(content(&entries[i])));
        }
    }
    let mut fulls = vec![None; entries.len()];
    for group in partial_candidates(&entries, &partials) {
        for i in group {
            fulls[i] = Some(engine.full(content(&entries[i])));
        }
    }
    let found = find_duplicate_groups(&entries, &partials, &fulls);
    let infos = found.iter().map(|g| g.members.iter().map(|_| None).collect()).collect();
    let mut groups = assemble_groups(&found, cli.keep_smaller, false, &infos);
    if plan.similar {
        let (images, videos) = split_media(similar_candidates(&entries, &groups));
        assert!(videos.is_empty());
        let hits = image_hits(&images, None);
        let sizes: Vec<Option<(u32, u32)>> = images
            .iter()
            .map(|e| image_dimensions(&e.path, content(e)))
            .collect();
        let wanted = image_candidates(&hits, &sizes);
        let fresh = images
            .iter()
            .enumerate()
            .map(|(i, e)| {
                if !wanted[i] {
                    return None;
                }
                let fp = image_fingerprint(e.clone(), content(e))?;
                Some(ImagePrint { w: fp.w, h: fp.h, hash: fp.hash })
            })
            .collect();
        let videos = VideoSearch { files: vec![], hits: vec![], infos: vec![], fresh: vec![] };
        let images = ImageSearch { files: images, hits, sizes, fresh };
        let config = SimilarConfig { threshold: plan.threshold };
        let similar = find_similar(&images, &videos, &config).0.unwrap();
        let infos = similar.iter().map(|g| g.members.iter().map(|_| None).collect()).collect();
        let hashes = similar
            .iter()
            .map(|g| g.members.iter().map(|m| Some(engine.full(content(&m.entry)))).collect())
            .collect();
        let start = groups.len() + 1;
        groups.extend(build_similar_groups(
            &similar,
            cli.keep_smaller,
            false,
            &infos,
            &hashes,
            start,
        ));
    }
    (groups, stats)
}

#[test]
fn finds_duplicates_recursively_including_subfolders() {
    let (groups, stats) = run(
        &cli(),
        &[
            ("dir/a.txt", b"payload".to_vec()),
            ("dir/sub/b.txt", b"payload".to_vec()),
            ("dir/sub/deeper/c.txt", b"payload".to_vec()),
            ("dir/unique.txt", b"totally unique".to_vec()),
        ],
    );
    assert_eq!(groups.len(), 1);
    assert_eq!(dup_file_count(&groups), 2);
    assert_eq!(groups[0].members.len(), 3);
    assert_eq!((stats.files_scanned, stats.bytes_scanned), (4, 35));
}

#[test]
fn types_flag_limits_scan_to_given_extensions() {
    let mut options = cli();
    options.types = vec!["jpg".into()];
    let same = || b"same".to_vec();
    let (groups, stats) = run(
        &options,
        &[("a.jpg", same()), ("b.jpg", same()), ("a.png", same()), ("b.png", same())],
    );
    assert_eq!(groups.len(), 1);
    assert!(groups[0]
        .members
        .iter()
        .all(|m| m.path.text.to_ascii_lowercase().ends_with(".jpg")));
    assert_eq!(stats.files_skipped, 2);
}

#[test]
fn no_duplicates_yields_empty_result() {
    let (groups, _) = run(&cli(), &[("a.txt", b"alpha".to_vec()), ("b.txt", b"beta".to_vec())]);
    assert_eq!(groups.len(), 0);
    assert_eq!(dup_file_count(&groups), 0);
}

#[test]
fn similar_mode_finds_same_image_in_different_formats() {
    // The same synthetic photo saved as PNG and (lossy) JPEG: the bytes differ,
    // but what is seen is the same.
    let img: ImageBuffer<Rgb<u8>, Vec<u8>> = ImageBuffer::from_fn(160, 120, |x, y| {
        let c = ((x * 2 + y * 3) % 256) as u8;
        Rgb([c, c.wrapping_mul(2), 255 - c])
    });
    let encoded = |format: ImageFormat| {
        let mut out = Cursor::new(Vec::new());
        img.write_to(&mut out, format).unwrap();
        out.into_inner()
    };
    let files = [
        ("photo.png", encoded(ImageFormat::Png)),
        ("photo.jpg", encoded(ImageFormat::Jpeg)),
    ];
    let (groups, _) = run(&cli(), &files);
    assert_eq!(groups.len(), 1);
    assert_eq!(groups[0].members.len(), 2);
    assert!(double(groups[0].similarity.unwrap()) >= 0.97);
    // Exactly one member is designated the keeper.
    assert_eq!(groups[0].keep_count(), 1);
    assert_eq!(groups[0].index, 1);
    assert_eq!(groups[0].media_kind, MediaKind::Image);

    // Where only exact duplicates are sought the two formats are not
    // duplicates (different bytes).
    let mut options = cli();
    options.exact = true;
    assert_eq!(run(&options, &files).0.len(), 0);

    // Files in a group of exact duplicates are in no group of similar ones.
    let files = [
        ("photo.png", encoded(ImageFormat::Png)),
        ("copy.png", encoded(ImageFormat::Png)),
        ("photo.jpg", encoded(ImageFormat::Jpeg)),
    ];
    let (groups, _) = run(&cli(), &files);
    assert_eq!(groups.len(), 1);
    assert!(groups[0].similarity.is_none());
}

#[test]
fn no_file_is_in_two_groups() {
    let picture = |shade: fn(u32, u32) -> u8, format: ImageFormat| {
        let img: ImageBuffer<Rgb<u8>, Vec<u8>> = ImageBuffer::from_fn(90, 80, |x, y| {
            let c = shade(x, y);
            Rgb([c, c, c])
        });
        let mut out = Cursor::new(Vec::new());
        img.write_to(&mut out, format).unwrap();
        out.into_inner()
    };
    let falling = |x: u32, _: u32| 250 - (x * 2) as u8;
    let rising = |x: u32, _: u32| (x * 2) as u8;
    let (groups, stats) = run(
        &cli(),
        &[
            ("a.png", picture(falling, ImageFormat::Png)),
            ("b.bmp", picture(falling, ImageFormat::Bmp)),
            ("c.png", picture(rising, ImageFormat::Png)),
            ("d.bmp", picture(rising, ImageFormat::Bmp)),
            ("e.txt", b"text".to_vec()),
            ("f.txt", b"text".to_vec()),
            ("g.gif", picture(rising, ImageFormat::Gif)),
        ],
    );
    assert_eq!(stats.files_scanned, 7);
    let mut names: Vec<&str> = groups
        .iter()
        .flat_map(|g| g.members.iter().map(|m| m.path.text.as_str()))
        .collect();
    names.sort();
    assert_eq!(names, vec!["a.png", "b.bmp", "c.png", "d.bmp", "e.txt", "f.txt", "g.gif"]);
    assert_eq!(groups.len(), 3);
    for (i, g) in groups.iter().enumerate() {
        assert_eq!(g.keep_count(), 1);
        assert!(g.members[0].keep);
        assert_eq!(g.index, i + 1);
    }
}

#[test]
fn options_are_turned_into_a_plan() {
    let p = plan(&cli()).unwrap();
    assert_eq!(double(p.threshold), 97.0 / 100.0);
    assert_eq!((p.size_min, p.size_max), (0, 0));
    assert!(p.similar && p.cache && !p.progress);
    let mut options = cli();
    options.json = false;
    options.no_cache = true;
    options.min_size = Some("1KB".into());
    options.max_size = Some("1MiB".into());
    options.similarity = Some(Binary64::ratio(997, 10));
    let p = plan(&options).unwrap();
    assert_eq!((p.size_min, p.size_max), (1_000, 1_048_576));
    assert!(p.similar && !p.cache && p.progress);
    assert_eq!(double(p.threshold), 99.7 / 100.0);
    options.quiet = true;
    options.exact = true;
    let p = plan(&options).unwrap();
    assert!(!p.similar && !p.cache && !p.progress);
}

#[test]
fn options_that_make_no_sense_are_refused() {
    for (similarity, works) in [
        (None, false),
        (Some(Binary64 { mant: 0, exp: 0 }), true),
        (Some(Binary64::from_u64(100)), true),
        (Some(Binary64::ratio(1_000_001, 10_000)), false),
        (Some(Binary64::from_u64(101)), false),
    ] {
        let mut options = cli();
        options.similarity = similarity;
        options.min_size = Some("1".into());
        assert_eq!(plan(&options).is_ok(), works, "{similarity:?}");
        if !works {
            assert!(matches!(plan(&options), Err(RunError::Similarity)));
        }
    }
    let mut options = cli();
    options.max_size = Some("many".into());
    assert!(matches!(plan(&options), Err(RunError::MaxSize(SizeError::Invalid))));
    options.min_size = Some("".into());
    assert!(matches!(plan(&options), Err(RunError::MinSize(SizeError::Empty))));
}

#[test]
fn colors_are_for_terminals_and_respect_no_color() {
    assert!(colors_enabled(false, true));
    assert!(!colors_enabled(true, true));
    assert!(!colors_enabled(false, false));
    assert!(!colors_enabled(true, false));
}

#[test]
fn media_is_found_among_files() {
    let entries = |names: &[&str]| -> Vec<FileEntry> {
        names
            .iter()
            .map(|n| FileEntry { path: file_path(n), size: 1, mtime_secs: None })
            .collect()
    };
    assert!(!any_media(&entries(&["a.txt", "b"])));
    assert!(any_media(&entries(&["a.txt", "b.png"])));
    assert!(any_media(&entries(&["a.mkv"])));
    assert!(!any_video(&entries(&["a.txt", "b.png"])));
    assert!(any_video(&entries(&["a.png", "b.MOV"])));
}

#[test]
fn a_file_is_no_duplicate_of_itself() {
    let cli = cli();
    let file = |p: &str, real: &str| Root::File {
        path: file_path(p),
        meta: Some(FileMeta { size: 3, modified_secs: Some(1), real_path: file_path(real) }),
    };
    // Two spellings of one file, and a copy of it.
    let mut roots = vec![file("./sub/a", "/home/sub/a"), file("sub/a", "/home/sub/a")];
    let engine = HashEngine::new(cli.hash);
    let groups = |roots: &Vec<Root>| {
        let (entries, _) = scan_stats(scan(&cli, 0, 0, roots));
        let hashes = vec![Some(engine.full(b"abc")); entries.len()];
        let found = find_duplicate_groups(&entries, &hashes, &hashes);
        let infos = found.iter().map(|g| g.members.iter().map(|_| None).collect()).collect();
        assemble_groups(&found, false, false, &infos)
    };
    assert!(groups(&roots).is_empty());
    roots.push(file("sub/b", "/home/sub/b"));
    let found = groups(&roots);
    assert_eq!(found.len(), 1);
    let members: Vec<(&str, bool)> =
        found[0].members.iter().map(|m| (m.path.text.as_str(), m.keep)).collect();
    assert_eq!(members, vec![("./sub/a", true), ("sub/b", false)]);
}
