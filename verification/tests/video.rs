use dedupe::binary64::Binary64;
use dedupe::cache::{CacheEntry, CacheFp, FingerprintCache, StoredEntry};
use dedupe::cli::{Cli, HashAlgo};
use dedupe::media::{MediaInfo, MediaKind};
use dedupe::path::{FilePath, PathPart};
use dedupe::run::plan;
use dedupe::scan::FileEntry;
use dedupe::search::{
    find_similar, image_candidates, image_hits, split_media, video_candidates, video_hits,
    ImagePrint, ImageSearch, VideoPrint, VideoSearch,
};
use dedupe::similar::SimilarConfig;
use dedupe::video::{
    cluster_videos, durations_close, make_video_group, sampling, video_buckets, video_fingerprint, Sampling, VideoFp,
};

fn file_path(text: &str) -> FilePath {
    FilePath {
        raw: text.as_bytes().to_vec(),
        text: text.to_string(),
        parts: text
            .split('/')
            .map(|p| PathPart::Normal(p.as_bytes().to_vec()))
            .collect(),
    }
}

fn entry(path: &str) -> FileEntry {
    FileEntry { path: file_path(path), size: 10, mtime_secs: Some(20) }
}

fn info(w: u32, h: u32, ms: u64) -> Option<MediaInfo> {
    Some(MediaInfo { width: Some(w), height: Some(h), duration_ms: Some(ms), codec: None })
}

fn cli() -> Cli {
    Cli {
        paths: vec!["dir".into()],
        max_depth: None,
        types: vec![],
        keep_smaller: false,
        delete: false,
        yes: false,
        hash: HashAlgo::Blake3,
        exact: false,
        similarity: Some(Binary64::from_u64(97)),
        no_cache: false,
        min_size: None,
        max_size: None,
        exclude_dir: vec![],
        exclude_path: vec![],
        json: true,
        verbose: false,
        quiet: false,
    }
}

fn threshold() -> Binary64 {
    Binary64::from_u64(97).div(Binary64::from_u64(100))
}

/// A frame whose hash has one bit set.
fn frame(bit: usize) -> Vec<u8> {
    let mut gray = vec![0u8; 72];
    let (y, x) = (bit / 8, bit % 8);
    for left in 0..=x {
        gray[y * 9 + left] = 1;
    }
    gray
}

#[test]
fn short_videos_are_sampled_in_one_pass() {
    match sampling(&info(320, 240, 2_000)) {
        Sampling::Pass(filter) => assert_eq!(filter, "scale=9:8,fps=8/2.000000"),
        _ => panic!("a pass is expected"),
    }
    match sampling(&info(320, 240, 90_000)) {
        Sampling::Pass(filter) => assert_eq!(filter, "scale=9:8,fps=8/90.000000"),
        _ => panic!("a pass is expected"),
    }
    match sampling(&info(1, 1, 1_234)) {
        Sampling::Pass(filter) => {
            assert_eq!(filter, format!("scale=9:8,fps=8/{:.6}", 1_234f64 / 1000.0))
        }
        _ => panic!("a pass is expected"),
    }
}

#[test]
fn long_videos_are_sampled_by_seeking() {
    for ms in [90_001u64, 100_000, 3_600_123, 123_456_789] {
        match sampling(&info(320, 240, ms)) {
            Sampling::Seek(times) => {
                let secs = ms as f64 / 1000.0;
                let expected: Vec<String> =
                    (0..8).map(|i| format!("{:.6}", secs * (i as f64 + 0.5) / 8.0)).collect();
                assert_eq!(times, expected);
            }
            _ => panic!("seeks are expected"),
        }
    }
}

#[test]
fn videos_are_sampled_by_what_is_known_of_them() {
    assert!(matches!(sampling(&None), Sampling::OneShot));
    assert!(matches!(sampling(&info(320, 240, 0)), Sampling::Nothing));
    let unknown = MediaInfo { width: Some(1), height: None, duration_ms: Some(5), codec: None };
    assert!(matches!(sampling(&Some(unknown)), Sampling::Nothing));
    let unknown = MediaInfo { width: None, height: Some(1), duration_ms: None, codec: None };
    assert!(matches!(sampling(&Some(unknown)), Sampling::Nothing));
    let unknown = MediaInfo { width: Some(1), height: Some(1), duration_ms: None, codec: None };
    assert!(matches!(sampling(&Some(unknown)), Sampling::OneShot));
}

#[test]
fn without_a_duration_the_probed_size_is_kept() {
    let probe =
        Some(MediaInfo { width: Some(640), height: Some(480), duration_ms: None, codec: None });
    let raw: Vec<u8> = (0..5).flat_map(frame).collect();
    let fp = video_fingerprint(entry("a.mp4"), &probe, &vec![Some(raw)]).unwrap();
    assert_eq!((fp.w, fp.h, fp.duration_ms), (640, 480, 5_000));
    assert_eq!(fp.frames, (0..5).map(|i| 1u64 << i).collect::<Vec<u64>>());
    let raw: Vec<u8> = (0..20).flat_map(frame).collect();
    let fp = video_fingerprint(entry("a.mp4"), &probe, &vec![Some(raw)]).unwrap();
    assert_eq!((fp.frames.len(), fp.duration_ms), (8, 8_000));
    assert!(video_fingerprint(entry("a.mp4"), &probe, &vec![None]).is_none());
}

#[test]
fn a_pass_gives_a_frame_for_each_grid() {
    let mut raw = frame(3);
    raw.extend(frame(63));
    raw.extend([1, 2, 3]);
    let fp = video_fingerprint(entry("a.mp4"), &info(4, 3, 1_000), &vec![Some(raw)]).unwrap();
    assert_eq!(fp.frames, vec![1 << 3, 1 << 63]);
    assert_eq!((fp.w, fp.h, fp.duration_ms), (4, 3, 1_000));
    assert!(video_fingerprint(entry("a.mp4"), &info(4, 3, 1_000), &vec![None]).is_none());
    let short = vec![Some(vec![0u8; 71])];
    assert!(video_fingerprint(entry("a.mp4"), &info(4, 3, 1_000), &short).is_none());
    assert!(video_fingerprint(entry("a.mp4"), &info(4, 3, 0), &vec![]).is_none());
}

#[test]
fn every_seek_has_to_give_a_frame() {
    let mut runs: Vec<Option<Vec<u8>>> = (0..8).map(|i| Some(frame(i))).collect();
    runs[2] = Some([frame(2), frame(9)].concat());
    let fp = video_fingerprint(entry("a.mp4"), &info(4, 3, 100_000), &runs).unwrap();
    assert_eq!(fp.frames, (0..8).map(|i| 1u64 << i).collect::<Vec<u64>>());
    runs[5] = None;
    assert!(video_fingerprint(entry("a.mp4"), &info(4, 3, 100_000), &runs).is_none());
    runs[5] = Some(vec![0; 71]);
    assert!(video_fingerprint(entry("a.mp4"), &info(4, 3, 100_000), &runs).is_none());
}

#[test]
fn unprobed_videos_are_subsampled() {
    for n in [1usize, 7, 8, 9, 12, 20, 61] {
        let all: Vec<u64> = (0..n as u64).map(|i| 1 << i).collect();
        let raw: Vec<u8> = (0..n).flat_map(frame).collect();
        let fp = video_fingerprint(entry("a.mp4"), &None, &vec![Some(raw)]).unwrap();
        let expected: Vec<u64> = if n > 8 {
            let step = n as f64 / 8.0;
            (0..8).map(|i| all[(i as f64 * step).round() as usize]).collect()
        } else {
            all
        };
        assert_eq!(fp.frames, expected, "{n}");
        assert_eq!(fp.duration_ms, expected.len() as u64 * 1000);
        assert_eq!((fp.w, fp.h), (0, 0));
    }
    assert!(video_fingerprint(entry("a.mp4"), &None, &vec![Some(vec![0; 5])]).is_none());
    assert!(video_fingerprint(entry("a.mp4"), &None, &vec![None]).is_none());
}

#[test]
fn close_durations_differ_by_seconds_or_percents() {
    assert!(durations_close(10_000, 12_000));
    assert!(!durations_close(10_000, 12_001));
    assert!(durations_close(100_000, 95_000));
    assert!(!durations_close(100_000, 94_999));
    for a in [0u64, 1, 39_999, 40_020, 1_000_000, 123_456_789, u64::MAX, u64::MAX / 2] {
        for b in [0u64, 2_000, 42_105, 950_000, 1_050_001, 117_283_949, u64::MAX - 7] {
            let tol = 2_000u64.max((a.max(b) as f64 * 0.05) as u64);
            assert_eq!(durations_close(a, b), a.abs_diff(b) <= tol, "{a} {b}");
            assert_eq!(durations_close(a, b), durations_close(b, a));
        }
    }
}

#[test]
fn videos_cluster_within_their_resolution() {
    let fp = |path: &str, w: u32, ms: u64, frames: Vec<u64>| VideoFp {
        entry: entry(path),
        w,
        h: 10,
        duration_ms: ms,
        frames,
    };
    let fps = vec![
        fp("d.mov", 10, 4_000, vec![1, 2, 3]),
        fp("a.mp4", 10, 4_500, vec![1, 2, 3]),
        fp("b.mp4", 20, 4_000, vec![1, 2, 3]),
        fp("c.mp4", 10, 90_000, vec![1, 2, 3]),
        fp("e.mp4", 10, 4_000, vec![u64::MAX, 0, u64::MAX]),
    ];
    let groups = cluster_videos(&fps, &video_buckets(&fps), threshold()).unwrap();
    assert_eq!(groups.len(), 1);
    assert_eq!(groups[0].kind, MediaKind::Video);
    let names: Vec<&str> =
        groups[0].members.iter().map(|m| m.entry.path.text.as_str()).collect();
    assert_eq!(names, vec!["a.mp4", "d.mov"]);
    assert_eq!(groups[0].members[1].similarity, Binary64::from_u64(1));
}

#[test]
fn lists_of_frames_too_different_in_length_cannot_be_compared() {
    let fp = |path: &str, n: u64| VideoFp {
        entry: entry(path),
        w: 0,
        h: 0,
        duration_ms: 8_000,
        frames: (0..n).collect(),
    };
    let fps = vec![fp("a", 1), fp("b", 8)];
    assert!(cluster_videos(&fps, &video_buckets(&fps), threshold()).is_none());
    let fps = vec![fp("a", 8), fp("b", 1)];
    assert!(cluster_videos(&fps, &video_buckets(&fps), threshold()).is_some());
}

fn cache_of(stored: Vec<(&str, CacheFp)>) -> FingerprintCache {
    let entries = stored
        .into_iter()
        .map(|(p, fp)| StoredEntry {
            path: file_path(p),
            entry: CacheEntry { size: 10, mtime_secs: 20, fp },
        })
        .collect();
    FingerprintCache::load_from(file_path("cache"), entries)
}

#[test]
fn only_files_with_a_possible_partner_are_fingerprinted() {
    let (images, videos) = split_media(vec![
        entry("a.png"),
        entry("b.txt"),
        entry("c.mp4"),
        entry("d.jpg"),
        entry("e.gif"),
        entry("f.mov"),
        entry("g.avi"),
    ]);
    assert_eq!((images.len(), videos.len()), (3, 3));
    let cache = cache_of(vec![
        ("d.jpg", CacheFp::Image { w: 40, h: 20, hash: 5 }),
        ("c.mp4", CacheFp::Image { w: 1, h: 1, hash: 1 }),
    ]);
    let hits = image_hits(&images, Some(&cache));
    assert_eq!(hits, vec![None, Some(ImagePrint { w: 40, h: 20, hash: 5 }), None]);
    assert!(image_hits(&images, None).iter().all(|h| h.is_none()));
    assert!(video_hits(&videos, Some(&cache)).iter().all(|h| h.is_none()));
    // a has the shape of d, which is known already; e has a shape of its own.
    let sizes = vec![Some((2, 1)), None, Some((1, 1))];
    assert_eq!(image_candidates(&hits, &sizes), vec![true, false, false]);

    // c and f are of one size and close in time; g is of another size.
    let infos = vec![info(1, 1, 1_000), info(1, 1, 2_000), info(2, 1, 1_000)];
    let none: Vec<Option<VideoPrint>> = vec![None, None, None];
    assert_eq!(video_candidates(&none, &infos), vec![true, true, false]);
    // Not close in time: nobody is wanted. Not probed: wanted in any case.
    let infos = vec![info(1, 1, 1_000), info(1, 1, 9_000), None];
    assert_eq!(video_candidates(&none, &infos), vec![false, false, true]);
}

#[test]
fn images_and_videos_are_grouped_and_what_is_new_is_cached() {
    let cache = cache_of(vec![
        ("d.jpg", CacheFp::Image { w: 40, h: 20, hash: 5 }),
        (
            "f.mov",
            CacheFp::Video { w: 1, h: 1, duration_ms: 2_000, frames: vec![1, 2, 3] },
        ),
    ]);
    let (images, videos) = split_media(vec![
        entry("a.png"),
        entry("c.mp4"),
        entry("d.jpg"),
        FileEntry { mtime_secs: None, ..entry("e.gif") },
        entry("f.mov"),
    ]);
    let hits = image_hits(&images, Some(&cache));
    let image_search = ImageSearch {
        files: images,
        hits,
        sizes: vec![Some((2, 1)), None, Some((2, 1))],
        fresh: vec![
            Some(ImagePrint { w: 2, h: 1, hash: 5 }),
            None,
            Some(ImagePrint { w: 2, h: 1, hash: 5 }),
        ],
    };
    let hits = video_hits(&videos, Some(&cache));
    assert_eq!(hits[1].as_ref().unwrap().frames, vec![1, 2, 3]);
    let video_search = VideoSearch {
        files: videos,
        hits,
        infos: vec![info(1, 1, 1_000), info(9, 9, 9)],
        fresh: vec![
            Some(VideoPrint { w: 1, h: 1, duration_ms: 1_000, frames: vec![1, 2, 3] }),
            None,
        ],
    };
    let config = SimilarConfig { threshold: threshold() };
    let (groups, writes) = find_similar(&image_search, &video_search, &config);
    let groups = groups.unwrap();
    let names: Vec<Vec<&str>> = groups
        .iter()
        .map(|g| g.members.iter().map(|m| m.entry.path.text.as_str()).collect())
        .collect();
    assert_eq!(names, vec![vec!["a.png", "d.jpg", "e.gif"], vec!["c.mp4", "f.mov"]]);
    // The modification time of e.gif is not known: it is not cached.
    let cached: Vec<&str> = writes.iter().map(|w| w.path.text.as_str()).collect();
    assert_eq!(cached, vec!["a.png", "c.mp4"]);
    assert_eq!(writes[0].fp, CacheFp::Image { w: 2, h: 1, hash: 5 });
    assert_eq!((writes[0].size, writes[0].mtime_secs), (10, 20));
    assert_eq!(
        writes[1].fp,
        CacheFp::Video { w: 1, h: 1, duration_ms: 1_000, frames: vec![1, 2, 3] }
    );
}

/// Compares two videos and gives the groups' paths and how many fingerprints
/// are to be stored.
fn compare(cache: Option<&FingerprintCache>) -> (Vec<Vec<String>>, Vec<dedupe::cache::CacheWrite>) {
    let (images, videos) = split_media(vec![entry("a.mp4"), entry("b.mov"), entry("c.png"), entry("d.jpg")]);
    let hits = image_hits(&images, cache);
    let sizes = hits.iter().map(|h| if h.is_none() { Some((4, 3)) } else { None }).collect();
    let print = ImagePrint { w: 4, h: 3, hash: 9 };
    let fresh = hits.iter().map(|h| if h.is_none() { Some(print) } else { None }).collect();
    let images = ImageSearch { files: images, hits, sizes, fresh };
    let hits = video_hits(&videos, cache);
    let fresh = hits
        .iter()
        .map(|h| {
            if h.is_none() {
                Some(VideoPrint { w: 1, h: 1, duration_ms: 2_000, frames: vec![1, 2] })
            } else {
                None
            }
        })
        .collect();
    let infos = vec![info(1, 1, 2_000), info(1, 1, 2_000)];
    let videos = VideoSearch { files: videos, hits, infos, fresh };
    let config = SimilarConfig { threshold: threshold() };
    let (groups, writes) = find_similar(&images, &videos, &config);
    let names = groups
        .unwrap()
        .iter()
        .map(|g| g.members.iter().map(|m| m.entry.path.text.clone()).collect())
        .collect();
    (names, writes)
}

#[test]
fn fingerprint_cache_is_persisted_and_reused_across_runs() {
    // Two clips of one resolution and duration, but of different content.
    let clips = |cache: Option<&FingerprintCache>| {
        let (images, videos) =
            split_media(vec![entry("/media/clip1.mp4"), entry("/media/clip2.mp4")]);
        let images = ImageSearch { files: images, hits: vec![], sizes: vec![], fresh: vec![] };
        let hits = video_hits(&videos, cache);
        let infos = vec![info(320, 240, 2_000), info(320, 240, 2_000)];
        let wanted = video_candidates(&hits, &infos);
        let fresh = wanted
            .iter()
            .enumerate()
            .map(|(i, w)| {
                let frames = (0..8u64).map(|k| if i == 0 { k } else { u64::MAX - k }).collect();
                let print = VideoPrint { w: 320, h: 240, duration_ms: 2_000, frames };
                if *w { Some(print) } else { None }
            })
            .collect();
        let videos = VideoSearch { files: videos, hits, infos, fresh };
        let config = SimilarConfig { threshold: threshold() };
        let (groups, writes) = find_similar(&images, &videos, &config);
        (groups.unwrap().len(), wanted, writes)
    };
    let mut cache = FingerprintCache::load_from(file_path("cache"), vec![]);
    let (groups, wanted, writes) = clips(Some(&cache));
    assert_eq!(groups, 0, "different clips must not be reported as duplicates");
    assert_eq!(wanted, vec![true, true]);
    assert_eq!(writes.len(), 2);
    for w in writes {
        cache.insert_write(w);
    }
    let file = dedupe::cache::encode_cache(&cache.save().unwrap()).unwrap();
    assert!(
        file.len() > 200,
        "cache should hold two video fingerprints, got {} bytes",
        file.len()
    );

    // Unchanged files are served from the cache; the result is the same, and
    // there is nothing to store.
    let entries = dedupe::cache::decode_cache(Some(&file))
        .into_iter()
        .map(|e| StoredEntry { path: file_path(&e.path), entry: e.entry })
        .collect();
    let again = FingerprintCache::load_from(file_path("cache"), entries);
    let (groups, wanted, writes) = clips(Some(&again));
    assert_eq!(groups, 0, "cached run must produce the same report");
    assert_eq!(wanted, vec![false, false]);
    assert!(writes.is_empty());
    assert!(again.save().is_none());

    // Without the cache, everything is fingerprinted again, and the cache is
    // neither read nor written.
    let cli = cli();
    assert!(plan(&cli).unwrap().cache);
    assert!(!plan(&Cli { no_cache: true, ..cli }).unwrap().cache);
    let (groups, wanted, _) = clips(None);
    assert_eq!(groups, 0);
    assert_eq!(wanted, vec![true, true]);
}

#[test]
fn alike_files_are_found_with_and_without_a_cache() {
    let mut cache = FingerprintCache::load_from(file_path("cache"), vec![]);
    let (first, writes) = compare(Some(&cache));
    assert_eq!(writes.len(), 4);
    assert_eq!(first.len(), 2);
    for w in writes {
        cache.insert_write(w);
    }
    let file = dedupe::cache::encode_cache(&cache.save().unwrap()).unwrap();
    assert!(file.len() > 200, "the cache holds four fingerprints, got {} bytes", file.len());

    // Unchanged files are served from the cache; the groups are the same, and
    // there is nothing to store.
    let entries = dedupe::cache::decode_cache(Some(&file))
        .into_iter()
        .map(|e| StoredEntry { path: file_path(&e.path), entry: e.entry })
        .collect();
    let again = FingerprintCache::load_from(file_path("cache"), entries);
    let (second, writes) = compare(Some(&again));
    assert_eq!(second, first);
    assert!(writes.is_empty());
    assert!(again.save().is_none());

    // Without the cache the groups are the same too.
    assert_eq!(compare(None).0, first);
}

#[test]
fn a_partly_filled_cache_gives_the_same_groups() {
    let none = compare(None).0;
    let mut cache = cache_of(vec![
        ("d.jpg", CacheFp::Image { w: 8, h: 6, hash: 9 }),
        ("a.mp4", CacheFp::Video { w: 1, h: 1, duration_ms: 2_000, frames: vec![1, 2] }),
    ]);
    let (first, writes) = compare(Some(&cache));
    assert_eq!(first, none);
    // Only what was missing is written.
    let written: Vec<&str> = writes.iter().map(|w| w.path.text.as_str()).collect();
    assert_eq!(written, vec!["c.png", "b.mov"]);
    assert!(writes.iter().all(|w| (w.size, w.mtime_secs) == (10, 20)));
    for w in writes {
        cache.insert_write(w);
    }
    let (second, writes) = compare(Some(&cache));
    assert_eq!(second, first);
    assert!(writes.is_empty());
}

#[test]
fn videos_of_a_group_are_compared_pair_by_pair() {
    let fp = |path: &str, frames: Vec<u64>| VideoFp {
        entry: entry(path),
        w: 1,
        h: 1,
        duration_ms: 8_000,
        frames,
    };
    let fps = vec![
        fp("a", vec![0; 8]),
        fp("b", vec![0, 0, 0, 0, 0, 0, 0, 1]),
        fp("c", vec![2]),
    ];
    let group = make_video_group(&fps, &vec![0, 1, 2]);
    assert_eq!(group.members[0].similarity, Binary64::from_u64(1));
    assert_eq!(group.similarity(1, 0), Binary64::ratio(511, 512));
    assert_eq!(group.similarity(2, 0), Binary64::ratio(63, 64));
    assert_eq!(group.similarity(1, 2), Binary64::ratio(63, 64));
    // A list is compared with a shorter one: frames past its end have no match.
    let group = make_video_group(&fps, &vec![2, 0]);
    assert_eq!(group.similarity(0, 1), Binary64::ratio(63 * 3, 64).div(Binary64::from_u64(8)));
    // A video without frames is the first of its group all the same.
    let group = make_video_group(&vec![fp("a", vec![]), fp("b", vec![])], &vec![0, 1]);
    assert_eq!(group.members[0].similarity, Binary64::from_u64(1));
    assert_eq!(group.members[1].similarity, Binary64 { mant: 0, exp: 0 });
}
