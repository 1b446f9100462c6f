use dedupe::cache::{
    decode_cache, default_cache_path, encode_cache, stored_from_texts, CacheEntry, CacheFp, CacheWrite,
    FingerprintCache, StoredEntry, CACHE_VERSION, MAX_ENTRIES,
};
use dedupe::path::{FilePath, PathPart};
use std::path::{Component, Path};

fn file_path(text: &str) -> FilePath {
    let path = Path::new(text);
    let parts = path
        .components()
        .map(|c| match c {
            Component::Prefix(p) => PathPart::Prefix(p.as_os_str().as_encoded_bytes().to_vec()),
            Component::RootDir => PathPart::RootDir,
            Component::CurDir => PathPart::CurDir,
            Component::ParentDir => PathPart::ParentDir,
            Component::Normal(n) => PathPart::Normal(n.as_encoded_bytes().to_vec()),
        })
        .collect();
    FilePath {
        raw: path.as_os_str().as_encoded_bytes().to_vec(),
        text: path.to_string_lossy().into_owned(),
        parts,
    }
}

/// Loads a cache from what its file holds.
fn load(data: Option<&[u8]>) -> FingerprintCache {
    let entries = decode_cache(data)
        .into_iter()
        .map(|e| StoredEntry { path: file_path(&e.path), entry: e.entry })
        .collect();
    FingerprintCache::load_from(file_path("cache.bin"), entries)
}

/// What the cache's file holds after the cache was saved.
fn save(cache: &FingerprintCache) -> Option<Vec<u8>> {
    cache.save().map(|entries| encode_cache(&entries).unwrap())
}

fn image(hash: u64) -> CacheFp {
    CacheFp::Image { w: 9, h: 8, hash }
}

fn write(path: &str, size: u64, mtime_secs: i64, fp: CacheFp) -> CacheWrite {
    CacheWrite { path: file_path(path), size, mtime_secs, fp }
}

#[test]
fn roundtrip_and_invalidation_by_size_or_mtime() {
    let p = file_path("C:\\media\\photo.png");
    let mut c = load(None);
    c.insert_write(write("C:\\media\\photo.png", 100, 5, image(42)));
    let file = save(&c).unwrap();

    let c = load(Some(&file));
    let expected = CacheFp::Image { w: 9, h: 8, hash: 42 };
    assert_eq!(c.get(&p, 100, Some(5)), Some(&expected));
    assert_eq!(c.get(&p, 101, Some(5)), None, "size changed -> miss");
    assert_eq!(c.get(&p, 100, Some(6)), None, "mtime changed -> miss");
    assert_eq!(c.get(&p, 100, None), None, "unknown mtime never hits");
    assert_eq!(c.get(&file_path("other.png"), 100, Some(5)), None);
}

#[test]
fn corrupt_or_unknown_version_is_empty() {
    assert_eq!(load(Some(b"not bincode")).len(), 0);
    let mut c = load(None);
    c.insert_write(write("a", 1, 1, image(1)));
    let mut file = save(&c).unwrap();
    assert_eq!(load(Some(&file)).len(), 1);
    // The version is the first number.
    assert_eq!(u32::from(file[0]), CACHE_VERSION);
    file[0] += 1;
    assert_eq!(load(Some(&file)).len(), 0);
    let other: (u32, Vec<u8>) = (CACHE_VERSION + 1, vec![]);
    assert_eq!(load(Some(&bincode::serialize(&other).unwrap())).len(), 0);
    let same: (u32, Vec<u8>) = (CACHE_VERSION, vec![]);
    assert_eq!(load(Some(&bincode::serialize(&same).unwrap())).len(), 0);
    assert_eq!(load(Some(&file[..file.len() - 1])).len(), 0);
}

#[test]
fn untouched_cache_is_not_rewritten() {
    let mut c = load(None);
    assert!(!c.is_dirty());
    assert!(save(&c).is_none(), "no writes, no file");

    c.insert_write(write(
        "x.mp4",
        1,
        1,
        CacheFp::Video { w: 9, h: 8, duration_ms: 1000, frames: vec![1, 2, 3] },
    ));
    assert!(c.is_dirty());
    let file = save(&c).expect("dirty cache is persisted");

    // Reading it back changes nothing that would have to be saved.
    let again = load(Some(&file));
    assert!(!again.is_dirty());
    assert!(again.save().is_none());
}

#[test]
fn the_file_is_laid_out_by_bincode() {
    let mut c = load(None);
    c.insert_write(write("a", 2, 3, image(4)));
    let mut expected: Vec<u8> = Vec::new();
    expected.extend(1u32.to_le_bytes());
    expected.extend(1u64.to_le_bytes());
    expected.extend(1u64.to_le_bytes());
    expected.extend(b"a");
    expected.extend(2u64.to_le_bytes());
    expected.extend(3i64.to_le_bytes());
    expected.extend(0u32.to_le_bytes());
    expected.extend(9u32.to_le_bytes());
    expected.extend(8u32.to_le_bytes());
    expected.extend(4u64.to_le_bytes());
    assert_eq!(save(&c).unwrap(), expected);

    let mut c = load(None);
    let fp = CacheFp::Video { w: 5, h: 6, duration_ms: 7, frames: vec![8, 9] };
    c.insert_write(write("b", 2, -3, fp));
    let mut expected: Vec<u8> = Vec::new();
    expected.extend(1u32.to_le_bytes());
    expected.extend(1u64.to_le_bytes());
    expected.extend(1u64.to_le_bytes());
    expected.extend(b"b");
    expected.extend(2u64.to_le_bytes());
    expected.extend((-3i64).to_le_bytes());
    expected.extend(1u32.to_le_bytes());
    expected.extend(5u32.to_le_bytes());
    expected.extend(6u32.to_le_bytes());
    expected.extend(7u64.to_le_bytes());
    expected.extend(2u64.to_le_bytes());
    expected.extend(8u64.to_le_bytes());
    expected.extend(9u64.to_le_bytes());
    assert_eq!(save(&c).unwrap(), expected);
}

#[test]
fn a_later_write_replaces_an_earlier_one() {
    let mut c = load(None);
    c.insert_write(write("dir/a", 1, 1, image(1)));
    c.insert_write(write("dir/./a", 2, 2, image(2)));
    assert_eq!(c.len(), 1);
    assert_eq!(c.get(&file_path("dir/a"), 1, Some(1)), None);
    assert_eq!(c.get(&file_path("dir//a"), 2, Some(2)), Some(&image(2)));
    c.insert_write(write("dir/b", 3, 3, image(3)));
    let again = load(Some(&save(&c).unwrap()));
    assert_eq!(again.len(), 2);
    assert_eq!(again.get(&file_path("dir/a"), 2, Some(2)), Some(&image(2)));
    assert_eq!(again.get(&file_path("dir/b"), 3, Some(3)), Some(&image(3)));
}

#[test]
fn too_many_entries_are_pruned_to_the_first_paths() {
    let mut c = load(None);
    for i in (0..MAX_ENTRIES + 3).rev() {
        c.insert_write(write(&format!("f{i:06}"), 1, 1, image(i as u64)));
    }
    assert_eq!(c.len(), MAX_ENTRIES + 3);
    let saved = c.save().unwrap();
    assert_eq!(saved.len(), MAX_ENTRIES);
    let mut names: Vec<&str> = saved.iter().map(|e| e.path.text.as_str()).collect();
    names.sort();
    assert_eq!(names[0], "f000000");
    assert_eq!(names[MAX_ENTRIES - 1], format!("f{:06}", MAX_ENTRIES - 1));
}

#[test]
fn a_path_that_is_no_text_cannot_be_encoded() {
    let bytes = vec![b'a', 0xff];
    let path = FilePath {
        raw: bytes.clone(),
        text: "a\u{fffd}".to_string(),
        parts: vec![PathPart::Normal(bytes)],
    };
    let entry = CacheEntry { size: 1, mtime_secs: 1, fp: image(1) };
    assert!(encode_cache(&vec![StoredEntry { path, entry }]).is_none());
}

#[test]
fn the_cache_file_is_chosen_or_at_home_or_here() {
    let b = |s: &str| Some(s.as_bytes().to_vec());
    let place = |chosen, profile, home, windows| {
        let p = default_cache_path(chosen, profile, home, windows);
        let mut text = String::from_utf8(p.base).unwrap();
        for n in p.names {
            if !text.is_empty() {
                text.push('/');
            }
            text.push_str(&n);
        }
        text
    };
    assert_eq!(place(b("/c.bin"), b("/p"), b("/h"), false), "/c.bin");
    assert_eq!(place(b(""), b("/p"), b("/h"), false), "/h/.dedupe/fingerprints.bin");
    assert_eq!(place(None, b("/p"), b("/h"), true), "/p/.dedupe/fingerprints.bin");
    assert_eq!(place(None, b("/p"), None, false), "/p/.dedupe/fingerprints.bin");
    assert_eq!(place(None, None, b("/h"), true), "/h/.dedupe/fingerprints.bin");
    assert_eq!(place(None, None, None, false), "fingerprints.bin");
}

#[test]
fn texts_stand_for_paths() {
    for text in [
        "", ".", "..", "/", "//", "a", "a/b", "/a/b", "a//b/", "./a", "./.", "/./a", "a/./b", "a/.",
        "../a/../b", "...", ".a", "a.", "/..", "a/..", "./", ".//a", "\u{e9}/\u{4e2d}.png", " /",
    ] {
        let path = FilePath::from_text(text.to_string());
        let expected = file_path(text);
        assert_eq!(format!("{:?}", path.parts), format!("{:?}", expected.parts), "{text:?}");
        assert_eq!(path.raw, expected.raw);
        assert_eq!(path.text, expected.text);
    }
    let path = FilePath::from_bytes(vec![47, 255, 47, 46, 46], "/?/..".to_string());
    assert!(matches!(path.parts[0], PathPart::RootDir));
    assert!(matches!(&path.parts[1], PathPart::Normal(n) if n == &vec![255]));
    assert!(matches!(path.parts[2], PathPart::ParentDir));
    assert_eq!(path.parts.len(), 3);
}

#[test]
fn what_was_saved_is_served_for_the_same_path() {
    let mut cache = load(None);
    cache.insert_write(write("/m/./a.png", 1, 2, image(3)));
    cache.insert_write(write("b//c.jpg", 4, 5, image(6)));
    let file = save(&cache).unwrap();
    let entries = stored_from_texts(decode_cache(Some(&file)));
    assert_eq!(entries.len(), 2);
    let again = FingerprintCache::load_from(file_path("cache.bin"), entries);
    assert_eq!(again.get(&file_path("/m/a.png"), 1, Some(2)), Some(&image(3)));
    assert_eq!(again.get(&file_path("b/c.jpg"), 4, Some(5)), Some(&image(6)));
    assert_eq!(again.get(&file_path("b/c.jpg"), 4, Some(6)), None);
    assert_eq!(again.get(&file_path("/b/c.jpg"), 4, Some(5)), None);
}
