use dedupe::binary64::Binary64;
use dedupe::fingerprint::{dhash_gray, frame_hashes, frame_seq_similarity, hash_similarity, shared_bits};
use dedupe::media::MediaKind;
use dedupe::path::{FilePath, PathPart};
use dedupe::scan::FileEntry;
use dedupe::similar::{
    aspect_key, cluster_images, decoded_fingerprint, gray_fingerprint, header_size, image_buckets,
    image_dimensions, image_fingerprint, make_image_group, ImageFp, SimilarGroup, SimilarMember,
    DEFAULT_SIMILARITY_PCT,
};
use dedupe::similar_report::{build_similar_groups, choose_keep_best_resolution};
use image::{ImageBuffer, ImageFormat, Rgb};
use std::io::Cursor;

fn file_path(text: &str) -> FilePath {
    let mut parts: Vec<PathPart> = Vec::new();
    for (i, p) in text.split('/').enumerate() {
        if p.is_empty() && i == 0 {
            parts.push(PathPart::RootDir);
        } else {
            parts.push(PathPart::Normal(p.as_bytes().to_vec()));
        }
    }
    FilePath { raw: text.as_bytes().to_vec(), text: text.to_string(), parts }
}

fn entry(path: &str, size: u64) -> FileEntry {
    FileEntry { path: file_path(path), size, mtime_secs: None }
}

fn double(x: Binary64) -> f64 {
    x.mant as f64 * 2f64.powi(x.exp)
}

fn percent(n: u64) -> Binary64 {
    Binary64::from_u64(n).div(Binary64::from_u64(100))
}

fn one() -> Binary64 {
    Binary64::from_u64(1)
}

fn sim_member(path: &str, size: u64, w: u32, h: u32) -> SimilarMember {
    SimilarMember { entry: entry(path, size), similarity: one(), w, h }
}

fn encoded(img: &ImageBuffer<Rgb<u8>, Vec<u8>>, format: ImageFormat) -> Vec<u8> {
    let mut out = Cursor::new(Vec::new());
    img.write_to(&mut out, format).unwrap();
    out.into_inner()
}

#[test]
fn dhash_constant_image_is_zero() {
    let gray = vec![100u8; 9 * 8];
    assert_eq!(dhash_gray(9, 8, &gray), 0);
}

#[test]
fn dhash_gradual_gradient_sets_bits() {
    // Brightness strictly decreases left -> right: every pair differs
    // (gray[x] > gray[x+1] sets the bit).
    let mut gray = vec![0u8; 9 * 8];
    for y in 0..8 {
        for x in 0..9 {
            gray[y * 9 + x] = ((8 - x) * 30) as u8;
        }
    }
    assert_eq!(dhash_gray(9, 8, &gray), u64::MAX);
}

#[test]
fn each_bit_stands_for_one_pair() {
    for bit in 0..64usize {
        let mut gray = vec![10u8; 9 * 8];
        let (y, x) = (bit / 8, bit % 8);
        for left in 0..=x {
            gray[y * 9 + left] = 11;
        }
        assert_eq!(dhash_gray(9, 8, &gray), 1u64 << bit, "{bit}");
        // The same picture, brighter by the same amount everywhere.
        let brighter: Vec<u8> = gray.iter().map(|g| g + 200).collect();
        assert_eq!(dhash_gray(9, 8, &brighter), 1u64 << bit);
    }
    // Grids of other sizes: what is beyond 64 pairs is not looked at.
    assert_eq!(dhash_gray(1, 5, &[9, 8, 7, 6, 5]), 0);
    assert_eq!(dhash_gray(0, 3, &[]), 0);
    assert_eq!(dhash_gray(3, 1, &[2, 1, 0]), 3);
    let long: Vec<u8> = (0..100).map(|i| 200 - i as u8).collect();
    assert_eq!(dhash_gray(100, 1, &long), u64::MAX);
}

#[test]
fn similarity_is_bit_fraction() {
    assert_eq!(double(hash_similarity(0, 0)), 1.0);
    assert_eq!(double(hash_similarity(0, 1)), 63.0 / 64.0);
    assert_eq!(double(hash_similarity(0, u64::MAX)), 0.0);
}

#[test]
fn similarity_is_the_same_both_ways() {
    for (a, b) in [(1u64, 2u64), (0xdead_beef, 0xfeed_f00d), (u64::MAX, 7), (5, 5)] {
        assert_eq!(hash_similarity(a, b), hash_similarity(b, a));
        assert_eq!(shared_bits(a, b), 64 - u64::from((a ^ b).count_ones()));
        let expected = 1.0 - (a ^ b).count_ones() as f64 / 64.0;
        assert_eq!(double(hash_similarity(a, b)), expected);
        assert!(one().at_least(hash_similarity(a, b)));
        assert_eq!(hash_similarity(a, a), one());
    }
}

#[test]
fn frame_seq_tolerates_small_shift() {
    // a[i] = i+1 appears exactly at b[i+1] (b is shifted one position).
    let a: Vec<u64> = (1..=8).collect();
    let b: Vec<u64> = (0..8).collect();
    // 7 of 8 frames match exactly; the unpaired head matches its nearest
    // neighbor at 63/64 -> ~0.998.
    let sim = double(frame_seq_similarity(&a, &b, 2));
    assert!(sim > 0.99, "sim = {sim}");
    // Without a tolerance window the same shift drops to ~0.984 and is
    // strictly worse.
    let sim0 = double(frame_seq_similarity(&a, &b, 0));
    assert!(sim0 < sim && sim0 < 1.0);
}

/// The similarity of two lists of hashes in hardware double precision.
fn reference(a: &[u64], b: &[u64], window: usize) -> f64 {
    if a.is_empty() || b.is_empty() {
        return 0.0;
    }
    let mut total = 0.0;
    for (i, &x) in a.iter().enumerate() {
        let lo = i.saturating_sub(window);
        let hi = (i + window + 1).min(b.len());
        let mut best: f64 = 0.0;
        for &y in &b[lo..hi] {
            best = best.max(1.0 - (x ^ y).count_ones() as f64 / 64.0);
        }
        total += best;
    }
    total / a.len() as f64
}

#[test]
fn sequences_compare_like_double_precision() {
    let mut n: u64 = 88172645463325252;
    let mut next = || {
        n ^= n << 13;
        n ^= n >> 7;
        n ^= n << 17;
        n
    };
    for len in [1usize, 2, 3, 7, 8] {
        let a: Vec<u64> = (0..len).map(|_| next()).collect();
        for other in len - 1..=9 {
            let b: Vec<u64> = (0..other).map(|_| next()).collect();
            for window in [0usize, 1, 2, 5] {
                let expected = reference(&a, &b, window);
                assert_eq!(double(frame_seq_similarity(&a, &b, window)), expected);
            }
        }
        assert_eq!(frame_seq_similarity(&a, &a, 0), one());
        assert_eq!(frame_seq_similarity(&a, &a, 2), one());
    }
    assert_eq!(double(frame_seq_similarity(&vec![], &vec![1], 2)), 0.0);
    assert_eq!(double(frame_seq_similarity(&vec![1], &vec![], 2)), 0.0);
}

#[test]
fn frames_are_whole_grids() {
    let mut raw = vec![0u8; 72 * 2 + 71];
    raw[0] = 1;
    raw[72 + 10] = 1;
    assert_eq!(frame_hashes(&raw), vec![1, 1 << 9]);
    assert!(frame_hashes(&raw[..71]).is_empty());
}

#[test]
fn keep_smaller_prefers_higher_resolution() {
    // A 4K PNG is bigger than a 720p JPG, but the higher-resolution version
    // must be the keeper.
    let members = vec![
        sim_member("/media/low.jpg", 200_000, 1280, 720),
        sim_member("/media/high.png", 8_000_000, 3840, 2160),
    ];
    assert_eq!(choose_keep_best_resolution(&members), 1);
}

#[test]
fn keep_smaller_ties_break_by_smallest_size() {
    // Same resolution: the smallest file wins.
    let members = vec![
        sim_member("/media/c.png", 7_000_000, 1920, 1080),
        sim_member("/media/a.png", 5_000_000, 1920, 1080),
        sim_member("/media/b.png", 3_000_000, 1920, 1080),
    ];
    assert_eq!(choose_keep_best_resolution(&members), 2);
}

#[test]
fn keep_smaller_unknown_resolution_falls_back_to_smallest() {
    // Videos whose size is unknown have 0x0: fall back to smallest.
    let members = vec![
        sim_member("/media/a.mp4", 10_000_000, 0, 0),
        sim_member("/media/b.mp4", 5_000_000, 0, 0),
        sim_member("/media/c.mp4", 8_000_000, 0, 0),
    ];
    assert_eq!(choose_keep_best_resolution(&members), 1);
}

#[test]
fn keep_smaller_known_resolution_beats_unknown() {
    // A tiny unknown-res file must lose to a bigger known-res one.
    let members = vec![
        sim_member("/media/tiny.jpg", 50_000, 0, 0),
        sim_member("/media/known.png", 900_000, 1920, 1080),
    ];
    assert_eq!(choose_keep_best_resolution(&members), 1);
}

#[test]
fn png_and_jpeg_of_same_image_are_similar() {
    // A synthetic image with plenty of structure.
    let img: ImageBuffer<Rgb<u8>, Vec<u8>> = ImageBuffer::from_fn(120, 90, |x, y| {
        let c = ((x * 2 + y * 3) % 256) as u8;
        Rgb([c, c.wrapping_mul(2), 255 - c])
    });
    let png = encoded(&img, ImageFormat::Png);
    // JPEG re-encode of the same pixels.
    let jpg = encoded(&img, ImageFormat::Jpeg);

    let f1 = image_fingerprint(entry("photo.png", 0), &png).expect("png decodes");
    let f2 = image_fingerprint(entry("photo.jpg", 0), &jpg).expect("jpg decodes");
    let sim = hash_similarity(f1.hash, f2.hash);
    assert!(
        sim.at_least(percent(DEFAULT_SIMILARITY_PCT)),
        "png/jpg similarity {} < 0.97",
        double(sim)
    );
    assert_eq!(aspect_key(f1.w, f1.h), aspect_key(f2.w, f2.h));
}

#[test]
fn clustering_separates_different_images() {
    let make = |name: &str, f: fn(u32, u32) -> u8| {
        let img: ImageBuffer<Rgb<u8>, Vec<u8>> = ImageBuffer::from_fn(64, 64, |x, y| {
            let c = f(x, y);
            Rgb([c, c, c])
        });
        image_fingerprint(entry(name, 0), &encoded(&img, ImageFormat::Png)).expect("decodes")
    };
    let fps: Vec<ImageFp> = vec![
        make("a.png", |x, y| ((x + y) % 256) as u8),
        make("b.png", |x, y| ((x + y) % 256) as u8), // identical fn => identical
        make("c.png", |x, y| ((x * 7 + y * 13) % 256) as u8), // different
    ];
    let buckets = image_buckets(&fps);
    let groups = cluster_images(&fps, &buckets, percent(DEFAULT_SIMILARITY_PCT));
    assert_eq!(groups.len(), 1, "a and b group, c stays alone");
    assert_eq!(groups[0].members.len(), 2);
}

#[test]
fn the_extension_says_how_to_decode() {
    let img: ImageBuffer<Rgb<u8>, Vec<u8>> =
        ImageBuffer::from_fn(30, 20, |x, y| Rgb([(x * 8) as u8, (y * 9) as u8, 0]));
    let png = encoded(&img, ImageFormat::Png);
    let fp = image_fingerprint(entry("dir/a.PNG", 5), &png).unwrap();
    assert_eq!((fp.w, fp.h), (30, 20));
    assert_eq!(fp.entry.path.text, "dir/a.PNG");
    assert_eq!(fp.entry.size, 5);
    assert!(image_fingerprint(entry("a.jpg", 5), &png).is_none());
    assert!(image_fingerprint(entry("a.svg", 5), &png).is_none());
    assert!(image_fingerprint(entry("a.heic", 5), &png).is_none());
    assert!(image_fingerprint(entry("png", 5), &png).is_none());
    assert!(image_fingerprint(entry("a.png", 5), b"no picture").is_none());
}

#[test]
fn a_grid_is_fingerprinted_as_it_is() {
    let gray: Vec<u8> = (0..72u32).map(|i| (i * 37 % 256) as u8).collect();
    let fp = gray_fingerprint(entry("a", 1), 9, 8, gray.clone()).unwrap();
    assert_eq!(fp.hash, dhash_gray(9, 8, &gray));
    assert!(gray_fingerprint(entry("a", 1), 0, 8, vec![]).is_none());
    assert!(gray_fingerprint(entry("a", 1), 9, 0, vec![]).is_none());
    // A picture that gets darker to the right keeps that when it is reduced.
    let wide: Vec<u8> = (0..90u32 * 16).map(|i| 255 - (i % 90) as u8 * 2).collect();
    let fp = gray_fingerprint(entry("a", 1), 90, 16, wide).unwrap();
    assert_eq!(fp.hash, u64::MAX);
}

#[test]
fn what_was_decoded_is_fingerprinted() {
    let gray: Vec<u8> = (0..72u32).map(|i| (i * 41 % 256) as u8).collect();
    let fp = decoded_fingerprint(entry("d/a", 3), Some((9, 8, gray.clone()))).unwrap();
    assert_eq!((fp.w, fp.h, fp.hash), (9, 8, dhash_gray(9, 8, &gray)));
    assert_eq!((fp.entry.path.text.as_str(), fp.entry.size), ("d/a", 3));
    assert!(decoded_fingerprint(entry("a", 1), None).is_none());
    assert!(decoded_fingerprint(entry("a", 1), Some((0, 8, vec![]))).is_none());
    assert!(decoded_fingerprint(entry("a", 1), Some((9, 0, vec![]))).is_none());
}

#[test]
fn aspect_keys_round_like_double_precision() {
    for w in [0u32, 1, 2, 7, 120, 639, 640, 1000, 1920, 3840, u32::MAX] {
        for h in [0u32, 1, 3, 90, 360, 480, 999, 1080, 2160, u32::MAX] {
            let expected = if h == 0 {
                0
            } else {
                ((w as f64 / h as f64) * 100.0).round() as i64
            };
            assert_eq!(aspect_key(w, h), expected, "{w}x{h}");
        }
    }
    // Re-scaled pictures have the same key.
    for k in [2u32, 3, 10, 1000] {
        assert_eq!(aspect_key(120 * k, 90 * k), aspect_key(120, 90));
        assert_eq!(aspect_key(1921 * k, 1079 * k), aspect_key(1921, 1079));
    }
    assert_eq!(header_size(Some((3, 4))), Some((3, 4)));
    assert_eq!(header_size(Some((0, 4))), None);
    assert_eq!(header_size(Some((3, 0))), None);
    assert_eq!(header_size(None), None);
}

#[test]
fn image_headers_are_read_from_the_content() {
    let img: ImageBuffer<Rgb<u8>, Vec<u8>> = ImageBuffer::from_pixel(13, 7, Rgb([9, 9, 9]));
    let png = encoded(&img, ImageFormat::Png);
    let jpeg = encoded(&img, ImageFormat::Jpeg);
    assert_eq!(image_dimensions(&file_path("/m/a.png"), &png), Some((13, 7)));
    assert_eq!(image_dimensions(&file_path("/m/a.jpg"), &jpeg), Some((13, 7)));
    // What the content shows comes before what the name says.
    assert_eq!(image_dimensions(&file_path("/m/a.jpg"), &png), Some((13, 7)));
    assert_eq!(image_dimensions(&file_path("/m/a"), &jpeg), Some((13, 7)));
    // The header is enough: the end of the pixels is not needed.
    assert_eq!(image_dimensions(&file_path("/m/a.png"), &png[..png.len() - 20]), Some((13, 7)));
    assert_eq!(image_dimensions(&file_path("/m/a.png"), &png[..20]), None);
    // Where the content shows no format the name decides.
    let tga = encoded(&img, ImageFormat::Tga);
    assert_eq!(image_dimensions(&file_path("/m/a.TGA"), &tga), Some((13, 7)));
    assert_eq!(image_dimensions(&file_path("/m/a"), &tga), None);
    assert_eq!(image_dimensions(&file_path("/m/a.png"), b"not a picture"), None);
    assert_eq!(image_dimensions(&file_path("/m/a.png"), &[]), None);
}

#[test]
fn members_never_chain_through_each_other() {
    let fp = |path: &str, hash: u64| ImageFp { entry: entry(path, 1), hash, w: 10, h: 10 };
    // c is like b and b is like a, but c is not like a.
    let fps = vec![fp("c", 0b1111), fp("a", 0), fp("b", 0b11), fp("d", 0b1111)];
    let threshold = Binary64::ratio(62, 64);
    let buckets = image_buckets(&fps);
    let groups = cluster_images(&fps, &buckets, threshold);
    let paths: Vec<Vec<&str>> = groups
        .iter()
        .map(|g| g.members.iter().map(|m| m.entry.path.text.as_str()).collect())
        .collect();
    assert_eq!(paths, vec![vec!["a", "b"], vec!["c", "d"]]);
    for g in &groups {
        assert_eq!(g.kind, MediaKind::Image);
        assert_eq!(g.members[0].similarity, one());
        assert!(g.members.iter().all(|m| m.similarity.at_least(threshold)));
    }
    assert_eq!(double(groups[0].members[1].similarity), 62.0 / 64.0);
    let one_group = make_image_group(&fps, &vec![1, 0]);
    assert_eq!(double(one_group.members[1].similarity), 60.0 / 64.0);
}

#[test]
fn pictures_of_other_shapes_are_not_compared() {
    let fps = vec![
        ImageFp { entry: entry("a", 1), hash: 1, w: 10, h: 10 },
        ImageFp { entry: entry("b", 1), hash: 1, w: 20, h: 10 },
        ImageFp { entry: entry("c", 1), hash: 1, w: 30, h: 30 },
    ];
    let groups = cluster_images(&fps, &image_buckets(&fps), percent(97));
    assert_eq!(groups.len(), 1);
    let names: Vec<&str> =
        groups[0].members.iter().map(|m| m.entry.path.text.as_str()).collect();
    assert_eq!(names, vec!["a", "c"]);
}

#[test]
fn similar_groups_are_made_ready_for_the_report() {
    let group = || SimilarGroup {
        kind: MediaKind::Image,
        members: vec![
            sim_member("/m/a.png", 50, 10, 10),
            SimilarMember { similarity: Binary64::ratio(63, 64), ..sim_member("/m/c.png", 20, 40, 40) },
            SimilarMember { similarity: Binary64::ratio(62, 64), ..sim_member("/m/b.png", 30, 10, 10) },
        ],
        pairs: vec![
            vec![],
            vec![Binary64::ratio(63, 64)],
            vec![Binary64::ratio(62, 64), Binary64::ratio(61, 64)],
        ],
    };
    let hashes = || vec![vec![Some("h0".to_string()), None, Some("h2".to_string())]];
    let infos = || vec![vec![None, None, None]];
    let groups = vec![group()];
    let out = build_similar_groups(&groups, false, false, &infos(), &hashes(), 4);
    assert_eq!(out.len(), 1);
    assert_eq!(out[0].index, 4);
    assert_eq!(out[0].hash, "similar#4");
    assert_eq!(out[0].similarity, Some(Binary64::ratio(61, 64)));
    let shown: Vec<Option<Binary64>> = out[0].members.iter().map(|m| m.similarity).collect();
    let ratio = |n: u64| Some(Binary64::ratio(n, 64));
    assert_eq!(shown, vec![Some(one()), ratio(62), ratio(63)]);
    let seen: Vec<(&str, bool, Option<&str>)> = out[0]
        .members
        .iter()
        .map(|m| (m.path.text.as_str(), m.keep, m.content_hash.as_deref()))
        .collect();
    assert_eq!(
        seen,
        vec![
            ("/m/a.png", true, Some("h0")),
            ("/m/b.png", false, Some("h2")),
            ("/m/c.png", false, None),
        ]
    );
    let out = build_similar_groups(&groups, true, false, &infos(), &hashes(), 1);
    let seen: Vec<&str> = out[0].members.iter().map(|m| m.path.text.as_str()).collect();
    assert_eq!(seen, vec!["/m/c.png", "/m/a.png", "/m/b.png"]);
    assert_eq!(out[0].similarity, ratio(61));
    let shown: Vec<Option<Binary64>> = out[0].members.iter().map(|m| m.similarity).collect();
    assert_eq!(shown, vec![Some(one()), ratio(63), ratio(61)]);
    assert_eq!(out[0].keep_count(), 1);
    assert_eq!(out[0].dup_bytes(), 80);
}

#[test]
fn similarities_are_to_the_kept_file() {
    let fps = vec![
        ImageFp { entry: entry("/m/a.jpg", 1), hash: 0, w: 640, h: 480 },
        ImageFp { entry: entry("/m/b.png", 9), hash: 1, w: 1280, h: 960 },
    ];
    let groups = vec![make_image_group(&fps, &vec![0, 1])];
    let out = build_similar_groups(
        &groups,
        true,
        false,
        &vec![vec![None, None]],
        &vec![vec![None, None]],
        1,
    );
    let seen: Vec<(&str, bool, f64)> = out[0]
        .members
        .iter()
        .map(|m| (m.path.text.as_str(), m.keep, double(m.similarity.unwrap())))
        .collect();
    assert_eq!(seen, vec![("/m/b.png", true, 1.0), ("/m/a.jpg", false, 0.984375)]);
    assert_eq!(double(out[0].similarity.unwrap()), 0.984375);
}

#[test]
fn a_group_is_as_similar_as_its_worst_pair() {
    let fp = |path: &str, hash: u64| ImageFp { entry: entry(path, 1), hash, w: 10, h: 10 };
    let fps = vec![fp("a", 0), fp("b", 1), fp("c", 2)];
    let groups = cluster_images(&fps, &image_buckets(&fps), Binary64::ratio(63, 64));
    assert_eq!(groups.len(), 1);
    let none = || vec![vec![None, None, None]];
    let nothing: Vec<Vec<Option<String>>> = vec![vec![None, None, None]];
    let out = build_similar_groups(&groups, false, false, &none(), &nothing, 1);
    assert_eq!(double(out[0].similarity.unwrap()), 62.0 / 64.0);
    for i in 0..3 {
        assert_eq!(groups[0].similarity(i, i), one());
        for j in 0..3 {
            assert_eq!(groups[0].similarity(i, j), groups[0].similarity(j, i));
            assert!(groups[0].similarity(i, j).at_least(out[0].similarity.unwrap()));
        }
    }
}

#[test]
fn a_wider_window_never_makes_lists_less_alike() {
    let a: Vec<u64> = vec![1, 7, 0xff00, u64::MAX, 5, 0];
    let b: Vec<u64> = vec![0, 1, 7, 0xff00, u64::MAX, 5];
    let at = |w: usize| frame_seq_similarity(&a, &b, w);
    for w in 0..6 {
        assert!(at(w + 1).at_least(at(w)), "{w}");
    }
    assert!(!at(0).at_least(at(1)));
    assert_eq!(frame_seq_similarity(&vec![], &b, 3), frame_seq_similarity(&vec![], &b, 1));
}

#[test]
fn a_damaged_picture_has_no_fingerprint() {
    // One row of two pixels: an ordinary one, and then run markers of length
    // zero only.
    let mut data = b"#?RADIANCE\nFORMAT=32-bit_rle_rgbe\n\n-Y 1 +X 2\n".to_vec();
    data.extend([10, 20, 30, 128]);
    for _ in 0..8 {
        data.extend([1, 1, 1, 0]);
    }
    assert!(image_fingerprint(entry("a.hdr", 1), &data).is_none());
    assert_eq!(image_dimensions(&file_path("a.hdr"), &data), Some((2, 1)));
    // With one more pixel the row is complete.
    let whole = [&data[..data.len() - 32], &[5, 6, 7, 128]].concat();
    let fp = image_fingerprint(entry("a.hdr", 1), &whole).unwrap();
    assert_eq!((fp.w, fp.h), (2, 1));
}

#[test]
fn a_damaged_header_gives_no_size() {
    // The directory of a picture: tags, types, counts and values.
    let tiff = |height: u32, planar: u32| {
        let tags: [(u16, u16, u32); 9] = [
            (256, 4, 1),
            (257, 4, height),
            (258, 3, 8),
            (262, 3, 1),
            (273, 4, 8),
            (277, 3, planar),
            (278, 4, 1),
            (279, 4, 1),
            (284, 3, planar),
        ];
        let mut data = b"II*\0".to_vec();
        data.extend(8u32.to_le_bytes());
        data.extend(9u16.to_le_bytes());
        for (tag, kind, value) in tags {
            data.extend(tag.to_le_bytes());
            data.extend(kind.to_le_bytes());
            data.extend(1u32.to_le_bytes());
            data.extend(value.to_le_bytes());
        }
        data.extend(0u32.to_le_bytes());
        data
    };
    assert_eq!(image_dimensions(&file_path("a.tif"), &tiff(1, 1)), Some((1, 1)));
    assert_eq!(image_dimensions(&file_path("a"), &tiff(1, 1)), Some((1, 1)));
    // More strips, over two planes, than an integer counts.
    assert_eq!(image_dimensions(&file_path("a.tif"), &tiff(u32::MAX, 2)), None);
    assert!(image_fingerprint(entry("a.tif", 1), &tiff(u32::MAX, 2)).is_none());
}
