//! Fingerprints of earlier runs.
//!
//! Images and videos are fingerprinted once; later scans reuse the stored
//! fingerprint while a file's size and modification time are unchanged. What
//! is stored for a file that changed or is gone is never served, and the
//! number of stored entries is capped when the cache is saved.

use crate::order;
use crate::order::{stable_sort, Rank, SortKey};
use crate::path;
use crate::path::{FilePath, PartView, PathView};
use crate::path_table;
use crate::path_table::PathTable;
use vstd::prelude::*;
use vstd::utf8::*;

verus! {

/// Format version; bump to invalidate all previously stored fingerprints.
pub const CACHE_VERSION: u32 = 1;

/// Rough cap on stored entries; the cache is pruned down to this when saved.
pub const MAX_ENTRIES: usize = 50_000;

/// A stored perceptual fingerprint.
#[derive(Debug, PartialEq)]
pub enum CacheFp {
    Image { w: u32, h: u32, hash: u64 },
    Video { w: u32, h: u32, duration_ms: u64, frames: Vec<u64> },
}

/// What a stored fingerprint is.
#[verifier::ext_equal]
pub enum FpView {
    Image { w: u32, h: u32, hash: u64 },
    Video { w: u32, h: u32, duration_ms: u64, frames: Seq<u64> },
}

impl View for CacheFp {
    type V = FpView;

    open spec fn view(&self) -> FpView {
        match *self {
            CacheFp::Image { w, h, hash } => FpView::Image { w, h, hash },
            CacheFp::Video { w, h, duration_ms, frames } => FpView::Video {
                w,
                h,
                duration_ms,
                frames: frames@,
            },
        }
    }
}

/// Copies a list of hashes.
pub fn copy_hashes(v: &Vec<u64>) -> (r: Vec<u64>)
    ensures
        r@ == v@,
{
    let mut r: Vec<u64> = Vec::new();
    let mut i: usize = 0;
    while i < v.len()
        invariant
            0 <= i <= v@.len(),
            r@ == v@.take(i as int),
        decreases v@.len() - i,
    {
        r.push(v[i]);
        i = i + 1;
        assert(v@.take(i as int) =~= v@.take(i - 1).push(v@[i - 1]));
    }
    assert(v@.take(i as int) =~= v@);
    r
}

impl Clone for CacheFp {
    fn clone(&self) -> (r: Self)
        ensures
            r@ == self@,
    {
        match self {
            CacheFp::Image { w, h, hash } => CacheFp::Image { w: *w, h: *h, hash: *hash },
            CacheFp::Video { w, h, duration_ms, frames } => CacheFp::Video {
                w: *w,
                h: *h,
                duration_ms: *duration_ms,
                frames: copy_hashes(frames),
            },
        }
    }
}

/// A cached fingerprint; `size` and `mtime_secs` are checked against the
/// current state of the file.
#[derive(Debug)]
pub struct CacheEntry {
    pub size: u64,
    pub mtime_secs: i64,
    pub fp: CacheFp,
}

/// What a cached fingerprint is, and of which state of the file.
#[verifier::ext_equal]
pub struct StampView {
    pub size: u64,
    pub mtime_secs: i64,
    pub fp: FpView,
}

impl View for CacheEntry {
    type V = StampView;

    open spec fn view(&self) -> StampView {
        StampView { size: self.size, mtime_secs: self.mtime_secs, fp: self.fp@ }
    }
}

impl Clone for CacheEntry {
    fn clone(&self) -> (r: Self)
        ensures
            r@ == self@,
    {
        CacheEntry { size: self.size, mtime_secs: self.mtime_secs, fp: self.fp.clone() }
    }
}

/// A fingerprint computed during this run, to be stored when the run ends.
#[derive(Debug)]
pub struct CacheWrite {
    pub path: FilePath,
    pub size: u64,
    pub mtime_secs: i64,
    pub fp: CacheFp,
}

/// What is to be stored for a file.
#[verifier::ext_equal]
pub struct StoredView {
    pub path: PathView,
    pub stamp: StampView,
}

impl View for CacheWrite {
    type V = StoredView;

    open spec fn view(&self) -> StoredView {
        StoredView {
            path: self.path@,
            stamp: StampView { size: self.size, mtime_secs: self.mtime_secs, fp: self.fp@ },
        }
    }
}

/// An entry as it is written to disk.
#[derive(Debug)]
pub struct StoredEntry {
    pub path: FilePath,
    pub entry: CacheEntry,
}

impl View for StoredEntry {
    type V = StoredView;

    open spec fn view(&self) -> StoredView {
        StoredView { path: self.path@, stamp: self.entry@ }
    }
}

impl SortKey for StoredEntry {
    open spec fn sort_key(&self) -> Seq<Seq<int>> {
        self.path@.key()
    }

    fn rank(&self, other: &Self) -> (r: Rank) {
        self.path.rank(&other.path)
    }
}

/// What is stored in each entry of a list.
pub open spec fn stored_views(entries: Seq<StoredEntry>) -> Seq<StoredView> {
    entries.map_values(|e: StoredEntry| e@)
}

/// In-memory fingerprint cache, loaded once per run and saved at the end.
pub struct FingerprintCache {
    path: Option<FilePath>,
    table: PathTable,
    entries: Vec<CacheEntry>,
    dirty: bool,
}

/// What a cache holds: for each path, however spelled, the spelling that came
/// first and the fingerprint that came last.
#[verifier::ext_equal]
pub struct CacheView {
    /// Where the cache is stored.
    pub path: Option<PathView>,
    pub stored: Map<Seq<PartView>, StoredView>,
    /// Something was added since the cache was loaded.
    pub dirty: bool,
}

/// A path that may be missing.
pub open spec fn option_path(p: Option<FilePath>) -> Option<PathView> {
    match p {
        Some(q) => Some(q@),
        None => None,
    }
}

/// What paths and entries side by side hold.
spec fn paired(paths: Seq<PathView>, stamps: Seq<StampView>) -> Map<Seq<PartView>, StoredView>
    decreases paths.len(),
{
    if paths.len() == 0 {
        Map::empty()
    } else {
        paired(paths.drop_last(), stamps.drop_last()).insert(
            paths.last().parts,
            StoredView { path: paths.last(), stamp: stamps.last() },
        )
    }
}

spec fn stamps(entries: Seq<CacheEntry>) -> Seq<StampView> {
    entries.map_values(|e: CacheEntry| e@)
}

/// Each path stands for the entry beside it, and nothing else is held.
proof fn lemma_paired(paths: Seq<PathView>, all: Seq<StampView>)
    requires
        path_table::distinct_paths(paths),
        all.len() == paths.len(),
    ensures
        forall|i: int|
            0 <= i < paths.len() ==> {
                &&& paired(paths, all).contains_key((#[trigger] paths[i]).parts)
                &&& paired(paths, all)[paths[i].parts] == (StoredView {
                    path: paths[i],
                    stamp: all[i],
                })
            },
        forall|k: Seq<PartView>| #[trigger]
            paired(paths, all).contains_key(k) ==> exists|i: int|
                0 <= i < paths.len() && (#[trigger] paths[i]).parts == k,
        paired(paths, all).dom().finite(),
        paired(paths, all).len() == paths.len(),
    decreases paths.len(),
{
    if paths.len() > 0 {
        let front = paths.drop_last();
        let rest = all.drop_last();
        assert forall|i: int, j: int| 0 <= i < j < front.len() implies !(#[trigger] front[i]).same(
            #[trigger] front[j],
        ) by {
            assert(front[i] == paths[i] && front[j] == paths[j]);
        }
        lemma_paired(front, rest);
        let m = paired(front, rest);
        let last = paths.last();
        assert(!m.contains_key(last.parts)) by {
            if m.contains_key(last.parts) {
                let i = choose|i: int|
                    0 <= i < front.len() && (#[trigger] front[i]).parts == last.parts;
                assert(paths[i].same(paths[paths.len() - 1]));
            }
        }
        assert forall|i: int| 0 <= i < paths.len() implies {
            &&& paired(paths, all).contains_key((#[trigger] paths[i]).parts)
            &&& paired(paths, all)[paths[i].parts] == (StoredView { path: paths[i], stamp: all[i] })
        } by {
            if i < front.len() {
                assert(front[i] == paths[i]);
                assert(!paths[i].same(paths[paths.len() - 1]));
            }
        }
        assert forall|k: Seq<PartView>| #[trigger] paired(paths, all).contains_key(k) implies exists|
            i: int,
        | 0 <= i < paths.len() && (#[trigger] paths[i]).parts == k by {
            if k == last.parts {
                assert(paths[paths.len() - 1].parts == k);
            } else {
                assert(m.contains_key(k));
                let i = choose|i: int| 0 <= i < front.len() && (#[trigger] front[i]).parts == k;
                assert(paths[i].parts == k);
            }
        }
    }
}

impl View for FingerprintCache {
    type V = CacheView;

    closed spec fn view(&self) -> CacheView {
        CacheView {
            path: option_path(self.path),
            stored: paired(self.table@, stamps(self.entries@)),
            dirty: self.dirty,
        }
    }
}

/// What is held after something was stored.
pub open spec fn put(held: Map<Seq<PartView>, StoredView>, new: StoredView) -> Map<
    Seq<PartView>,
    StoredView,
> {
    let k = new.path.parts;
    if held.contains_key(k) {
        held.insert(k, StoredView { path: held[k].path, stamp: new.stamp })
    } else {
        held.insert(k, new)
    }
}

/// What is held after a list of entries was stored, one after the other.
pub open spec fn put_all(entries: Seq<StoredView>) -> Map<Seq<PartView>, StoredView>
    decreases entries.len(),
{
    if entries.len() == 0 {
        Map::empty()
    } else {
        put(put_all(entries.drop_last()), entries.last())
    }
}

/// What is held after each write of a list was stored, one after the other.
pub open spec fn put_each(
    held: Map<Seq<PartView>, StoredView>,
    writes: Seq<StoredView>,
) -> Map<Seq<PartView>, StoredView>
    decreases writes.len(),
{
    if writes.len() == 0 {
        held
    } else {
        put(put_each(held, writes.drop_last()), writes.last())
    }
}

/// The fingerprint that is valid for a state of a file. Files whose
/// modification time is unknown have none: it could not be validated against
/// the current state of the file.
pub open spec fn valid_fp(
    held: Map<Seq<PartView>, StoredView>,
    p: PathView,
    size: u64,
    mtime_secs: Option<i64>,
) -> Option<FpView> {
    if !held.contains_key(p.parts) {
        None
    } else {
        let stamp = held[p.parts].stamp;
        if stamp.size == size && mtime_secs == Some(stamp.mtime_secs) {
            Some(stamp.fp)
        } else {
            None
        }
    }
}

/// `entries` is what is written to disk of what is held: everything, or, where
/// that is more than the cap, as many entries as the cap allows, those with
/// the first paths.
pub open spec fn is_saved(
    held: Map<Seq<PartView>, StoredView>,
    entries: Seq<StoredView>,
) -> bool {
    &&& forall|i: int, j: int|
        0 <= i < j < entries.len() ==> !(#[trigger] entries[i]).path.same(
            (#[trigger] entries[j]).path,
        )
    &&& forall|i: int|
        0 <= i < entries.len() ==> held.contains_key((#[trigger] entries[i]).path.parts)
            && held[entries[i].path.parts] == entries[i]
    &&& entries.len() == if held.len() > MAX_ENTRIES {
        MAX_ENTRIES as nat
    } else {
        held.len()
    }
    &&& held.len() > MAX_ENTRIES ==> forall|i: int, k: Seq<PartView>|
        0 <= i < entries.len() && #[trigger] held.contains_key(k) && !(exists|j: int|
            0 <= j < entries.len() && (#[trigger] entries[j]).path.parts == k) ==> (
        #[trigger] entries[i]).path.less(held[k].path)
}

impl FingerprintCache {
    /// Every path has its entry.
    pub closed spec fn well_formed(&self) -> bool {
        &&& self.table.well_formed()
        &&& self.table@.len() == self.entries@.len()
    }

    /// A cache that holds nothing yet.
    fn empty(path: FilePath) -> (r: Self)
        ensures
            r.well_formed(),
            r@ == (CacheView { path: Some(path@), stored: Map::empty(), dirty: false }),
    {
        FingerprintCache {
            path: Some(path),
            table: PathTable::new(),
            entries: Vec::new(),
            dirty: false,
        }
    }

    /// Stores an entry.
    fn put(&mut self, path: FilePath, entry: CacheEntry)
        requires
            old(self).well_formed(),
        ensures
            final(self).well_formed(),
            final(self)@.stored == put(
                old(self)@.stored,
                StoredView { path: path@, stamp: entry@ },
            ),
            final(self)@.path == old(self)@.path,
            final(self)@.dirty == old(self)@.dirty,
    {
        let ghost before = self.table@;
        let ghost was = stamps(self.entries@);
        let ghost new = StoredView { path: path@, stamp: entry@ };
        proof {
            self.table.lemma_distinct();
            lemma_paired(before, was);
        }
        match self.table.find(&path) {
            Some(i) => {
                self.entries.set(i, entry);
                proof {
                    let now = stamps(self.entries@);
                    assert(now =~= was.update(i as int, entry@));
                    lemma_paired(before, now);
                    let a = paired(before, now);
                    let b = put(paired(before, was), new);
                    assert(before[i as int].parts == path@.parts);
                    assert(a =~= b) by {
                        assert forall|k: Seq<PartView>| a.contains_key(k) <==> b.contains_key(k) by {
                            if a.contains_key(k) {
                                let j = choose|j: int|
                                    0 <= j < before.len() && (#[trigger] before[j]).parts == k;
                            }
                            if b.contains_key(k) && k != path@.parts {
                                let j = choose|j: int|
                                    0 <= j < before.len() && (#[trigger] before[j]).parts == k;
                            }
                        }
                        assert forall|k: Seq<PartView>| a.contains_key(k) implies a[k] == b[k] by {
                            let j = choose|j: int|
                                0 <= j < before.len() && (#[trigger] before[j]).parts == k;
                            if j < i {
                                assert(!before[j].same(before[i as int]));
                            }
                            if i < j {
                                assert(!before[i as int].same(before[j]));
                            }
                        }
                    }
                }
            },
            None => {
                self.table.add(path);
                self.entries.push(entry);
                proof {
                    assert(self.table@.drop_last() =~= before);
                    assert(stamps(self.entries@).drop_last() =~= was);
                    assert(!paired(before, was).contains_key(path@.parts)) by {
                        if paired(before, was).contains_key(path@.parts) {
                            let j = choose|j: int|
                                0 <= j < before.len() && (#[trigger] before[j]).parts
                                    == path@.parts;
                            assert(before[j].same(path@));
                        }
                    }
                }
            },
        }
    }

    /// Makes a cache of the entries that were read at the given place. Of
    /// several for one path the last counts.
    pub fn load_from(path: FilePath, entries: Vec<StoredEntry>) -> (r: Self)
        ensures
            r.well_formed(),
            r@ == (CacheView {
                path: Some(path@),
                stored: put_all(stored_views(entries@)),
                dirty: false,
            }),
    {
        let mut r = FingerprintCache::empty(path);
        let ghost all = entries@;
        let ghost views = stored_views(all);
        assert(views.take(0) =~= Seq::empty());
        for e in it: entries
            invariant
                it.seq() == all,
                views == stored_views(all),
                r.well_formed(),
                r@.stored == put_all(views.take(it.index())),
                r@.path == Some(path@),
                !r@.dirty,
        {
            r.put(e.path, e.entry);
            assert(views.take(it.index() + 1).drop_last() =~= views.take(it.index()));
            assert(views.take(it.index() + 1).last() == e@);
        }
        assert(views.take(views.len() as int) =~= views);
        r
    }

    /// How many files have an entry.
    pub fn len(&self) -> (n: usize)
        requires
            self.well_formed(),
        ensures
            n == self@.stored.len(),
    {
        proof {
            self.table.lemma_distinct();
            lemma_paired(self.table@, stamps(self.entries@));
        }
        self.entries.len()
    }

    /// A cache holds finitely many entries.
    pub proof fn lemma_finite(&self)
        requires
            self.well_formed(),
        ensures
            self@.stored.dom().finite(),
    {
        self.table.lemma_distinct();
        lemma_paired(self.table@, stamps(self.entries@));
    }

    /// Tells whether something was added since the cache was loaded.
    pub fn is_dirty(&self) -> (r: bool)
        ensures
            r == self@.dirty,
    {
        self.dirty
    }

    /// Look up a fingerprint valid for `(size, mtime_secs)`. Files whose
    /// modification time is unknown (`None`) are never served from the cache.
    pub fn get(&self, path: &FilePath, size: u64, mtime_secs: Option<i64>) -> (r: Option<&CacheFp>)
        requires
            self.well_formed(),
        ensures
            match r {
                Some(fp) => valid_fp(self@.stored, path@, size, mtime_secs) == Some(fp@),
                None => valid_fp(self@.stored, path@, size, mtime_secs) is None,
            },
    {
        proof {
            self.table.lemma_distinct();
            lemma_paired(self.table@, stamps(self.entries@));
        }
        let i = match self.table.find(path) {
            Some(i) => i,
            None => {
                proof {
                    if self@.stored.contains_key(path@.parts) {
                        let j = choose|j: int|
                            0 <= j < self.table@.len() && (#[trigger] self.table@[j]).parts
                                == path@.parts;
                        assert(self.table@[j].same(path@));
                    }
                }
                return None;
            },
        };
        assert(self.table@[i as int].parts == path@.parts);
        let entry = &self.entries[i];
        let mtime = match mtime_secs {
            Some(t) => t,
            None => {
                return None;
            },
        };
        if entry.size == size && entry.mtime_secs == mtime {
            Some(&entry.fp)
        } else {
            None
        }
    }

    /// Store a newly computed fingerprint (marks the cache dirty).
    pub fn insert_write(&mut self, w: CacheWrite)
        requires
            old(self).well_formed(),
        ensures
            final(self).well_formed(),
            final(self)@ == (CacheView {
                path: old(self)@.path,
                stored: put(old(self)@.stored, w@),
                dirty: true,
            }),
    {
        self.put(w.path, CacheEntry { size: w.size, mtime_secs: w.mtime_secs, fp: w.fp });
        self.dirty = true;
    }

    /// What is to be written to disk, if anything: a cache to which nothing was
    /// added is not rewritten.
    pub fn save(&self) -> (r: Option<Vec<StoredEntry>>)
        requires
            self.well_formed(),
        ensures
            match r {
                Some(entries) => {
                    &&& self@.dirty && self@.path is Some
                    &&& is_saved(self@.stored, stored_views(entries@))
                },
                None => !self@.dirty || self@.path is None,
            },
    {
        if !self.dirty {
            return None;
        }
        if self.path.is_none() {
            return None;
        }
        let ghost paths = self.table@;
        let ghost all = stamps(self.entries@);
        let ghost held = self@.stored;
        proof {
            self.table.lemma_distinct();
            lemma_paired(paths, all);
        }
        let n = self.entries.len();
        let mut entries: Vec<StoredEntry> = Vec::new();
        let mut i: usize = 0;
        while i < n
            invariant
                self.well_formed(),
                n == self.entries@.len(),
                paths == self.table@,
                all == stamps(self.entries@),
                0 <= i <= n,
                entries@.len() == i,
                forall|j: int|
                    0 <= j < i ==> (#[trigger] entries@[j])@ == (StoredView {
                        path: paths[j],
                        stamp: all[j],
                    }),
            decreases n - i,
        {
            entries.push(
                StoredEntry { path: self.table.at(i).clone(), entry: self.entries[i].clone() },
            );
            i = i + 1;
        }
        if n > MAX_ENTRIES {
            let ghost before = entries@;
            let mut sorted = stable_sort(entries);
            proof {
                lemma_pruned(paths, all, before, sorted@);
            }
            let ghost full = stored_views(sorted@);
            sorted.truncate(MAX_ENTRIES);
            assert(stored_views(sorted@) =~= full.take(MAX_ENTRIES as int));
            return Some(sorted);
        }
        proof {
            let views = stored_views(entries@);
            assert forall|i: int, j: int| 0 <= i < j < views.len() implies !(
            #[trigger] views[i]).path.same((#[trigger] views[j]).path) by {
                assert(!paths[i].same(paths[j]));
            }
            assert forall|i: int| 0 <= i < views.len() implies held.contains_key(
                (#[trigger] views[i]).path.parts,
            ) && held[views[i].path.parts] == views[i] by {
                assert(paths[i].parts == views[i].path.parts);
            }
            assert(is_saved(held, views));
        }
        Some(entries)
    }
}

/// Sorting all entries by path and keeping as many as the cap allows is what
/// saving asks for.
proof fn lemma_pruned(
    paths: Seq<PathView>,
    all: Seq<StampView>,
    before: Seq<StoredEntry>,
    sorted: Seq<StoredEntry>,
)
    requires
        path_table::distinct_paths(paths),
        all.len() == paths.len(),
        before.len() == paths.len(),
        MAX_ENTRIES < before.len() <= usize::MAX,
        forall|j: int|
            0 <= j < before.len() ==> (#[trigger] before[j])@ == (StoredView {
                path: paths[j],
                stamp: all[j],
            }),
        order::stable_sorted(before, order::keys_of(before), sorted),
    ensures
        sorted.len() == before.len(),
        is_saved(paired(paths, all), stored_views(sorted).take(MAX_ENTRIES as int)),
{
    let held = paired(paths, all);
    lemma_paired(paths, all);
    let keys = order::keys_of(before);
    let p = choose|p: Seq<usize>|
        #[trigger] order::sorts(keys, order::upto(before.len()), p) && sorted == order::pick(
            before,
            p,
        );
    order::lemma_permutation(before.len(), p);
    let views = stored_views(sorted);
    let few = views.take(MAX_ENTRIES as int);
    assert forall|i: int| 0 <= i < views.len() implies (#[trigger] views[i]).path
        == paths[p[i] as int] && held[views[i].path.parts] == views[i] && held.contains_key(
        views[i].path.parts,
    ) by {
        assert(before[p[i] as int]@ == views[i]);
        assert(held.contains_key(paths[p[i] as int].parts));
    }
    assert forall|i: int, j: int| 0 <= i < j < views.len() implies (#[trigger] views[i]).path.less(
        (#[trigger] views[j]).path,
    ) by {
        assert(order::goes_before(keys, p[i], p[j]));
        assert(p[i] != p[j]);
        assert(keys[p[i] as int] == before[p[i] as int].path@.key());
        assert(before[p[i] as int]@.path == views[i].path);
        assert(before[p[j] as int]@.path == views[j].path);
        path::lemma_same_path(views[i].path, views[j].path);
        if p[i] < p[j] {
            assert(!paths[p[i] as int].same(paths[p[j] as int]));
        } else {
            assert(!paths[p[j] as int].same(paths[p[i] as int]));
        }
    }
    assert forall|i: int, j: int| 0 <= i < j < few.len() implies !(#[trigger] few[i]).path.same(
        (#[trigger] few[j]).path,
    ) by {
        assert(views[i].path.less(views[j].path));
        path::lemma_same_path(views[i].path, views[j].path);
    }
    assert forall|i: int, k: Seq<PartView>|
        0 <= i < few.len() && #[trigger] held.contains_key(k) && !(exists|j: int|
            0 <= j < few.len() && (#[trigger] few[j]).path.parts == k) implies (
    #[trigger] few[i]).path.less(held[k].path) by {
        let at = choose|at: int| 0 <= at < paths.len() && (#[trigger] paths[at]).parts == k;
        assert(p.contains(at as usize));
        let b = choose|b: int| 0 <= b < p.len() && p[b] == at as usize;
        assert(views[b].path == paths[at]);
        if b < few.len() {
            assert(few[b].path.parts == k);
        }
        assert(views[i].path.less(views[b].path));
        assert(held[k].path == paths[at]);
    }
}

/// What is held after entries of distinct paths were stored: those entries.
proof fn lemma_put_all(entries: Seq<StoredView>)
    requires
        forall|i: int, j: int|
            0 <= i < j < entries.len() ==> !(#[trigger] entries[i]).path.same(
                (#[trigger] entries[j]).path,
            ),
    ensures
        forall|i: int|
            0 <= i < entries.len() ==> put_all(entries).contains_key(
                (#[trigger] entries[i]).path.parts,
            ) && put_all(entries)[entries[i].path.parts] == entries[i],
        forall|k: Seq<PartView>| #[trigger]
            put_all(entries).contains_key(k) ==> exists|i: int|
                0 <= i < entries.len() && (#[trigger] entries[i]).path.parts == k,
        put_all(entries).dom().finite(),
        put_all(entries).len() == entries.len(),
    decreases entries.len(),
{
    if entries.len() > 0 {
        let front = entries.drop_last();
        assert forall|i: int, j: int| 0 <= i < j < front.len() implies !(
        #[trigger] front[i]).path.same((#[trigger] front[j]).path) by {
            assert(front[i] == entries[i] && front[j] == entries[j]);
        }
        lemma_put_all(front);
        let m = put_all(front);
        let last = entries.last();
        assert(!m.contains_key(last.path.parts)) by {
            if m.contains_key(last.path.parts) {
                let i = choose|i: int|
                    0 <= i < front.len() && (#[trigger] front[i]).path.parts == last.path.parts;
                assert(entries[i].path.same(entries[entries.len() - 1].path));
            }
        }
        assert forall|i: int| 0 <= i < entries.len() implies put_all(entries).contains_key(
            (#[trigger] entries[i]).path.parts,
        ) && put_all(entries)[entries[i].path.parts] == entries[i] by {
            if i < front.len() {
                assert(front[i] == entries[i]);
                assert(!entries[i].path.same(entries[entries.len() - 1].path));
            }
        }
        assert forall|k: Seq<PartView>| #[trigger] put_all(entries).contains_key(k) implies exists|
            i: int,
        | 0 <= i < entries.len() && (#[trigger] entries[i]).path.parts == k by {
            if k == last.path.parts {
                assert(entries[entries.len() - 1].path.parts == k);
            } else {
                assert(m.contains_key(k));
                let i = choose|i: int| 0 <= i < front.len() && (#[trigger] front[i]).path.parts == k;
                assert(entries[i].path.parts == k);
            }
        }
    }
}

/// What was saved is what a later run loads: a cache that was saved and loaded
/// again holds what it held before. Beyond the cap it holds as many entries as
/// the cap allows, all of which it held before, and none that it gave up has a
/// path before any of theirs.
pub proof fn lemma_read_back(held: Map<Seq<PartView>, StoredView>, entries: Seq<StoredView>)
    requires
        held.dom().finite(),
        is_saved(held, entries),
    ensures
        held.len() <= MAX_ENTRIES ==> put_all(entries) == held,
        held.len() > MAX_ENTRIES ==> put_all(entries).len() == MAX_ENTRIES,
        put_all(entries).submap_of(held),
        forall|k: Seq<PartView>, l: Seq<PartView>|
            #![trigger put_all(entries).contains_key(k), held.contains_key(l)]
            put_all(entries).contains_key(k) && held.contains_key(l) && !put_all(
                entries,
            ).contains_key(l) ==> held[k].path.less(held[l].path),
{
    let back = put_all(entries);
    lemma_put_all(entries);
    assert forall|k: Seq<PartView>| back.contains_key(k) implies held.contains_key(k) && held[k]
        == back[k] by {
        let i = choose|i: int| 0 <= i < entries.len() && (#[trigger] entries[i]).path.parts == k;
        assert(held.contains_key(entries[i].path.parts));
    }
    assert(back.submap_of(held));
    if held.len() <= MAX_ENTRIES {
        assert(back.dom().subset_of(held.dom()));
        vstd::set_lib::lemma_subset_equality(back.dom(), held.dom());
        assert(back =~= held);
    }
    assert forall|k: Seq<PartView>, l: Seq<PartView>|
        #![trigger back.contains_key(k), held.contains_key(l)]
        back.contains_key(k) && held.contains_key(l) && !back.contains_key(l) implies held[k].path.less(
        held[l].path,
    ) by {
        let i = choose|i: int| 0 <= i < entries.len() && (#[trigger] entries[i]).path.parts == k;
        assert(held[entries[i].path.parts] == entries[i]);
        assert(!(exists|j: int| 0 <= j < entries.len() && (#[trigger] entries[j]).path.parts == l))
            by {
            if exists|j: int| 0 <= j < entries.len() && (#[trigger] entries[j]).path.parts == l {
                let j = choose|j: int|
                    0 <= j < entries.len() && (#[trigger] entries[j]).path.parts == l;
                assert(back.contains_key(entries[j].path.parts));
            }
        }
    }
}

/// A fingerprint that was stored is served for the state of the file it was
/// stored for, and for no other, until something else is stored for the path.
pub proof fn lemma_stored_is_served(
    held: Map<Seq<PartView>, StoredView>,
    new: StoredView,
    p: PathView,
    size: u64,
    mtime_secs: Option<i64>,
)
    ensures
        valid_fp(put(held, new), p, size, mtime_secs) == if p.same(new.path) {
            if size == new.stamp.size && mtime_secs == Some(new.stamp.mtime_secs) {
                Some(new.stamp.fp)
            } else {
                None
            }
        } else {
            valid_fp(held, p, size, mtime_secs)
        },
{
}

/// After writes to different paths each is served for the state of the file it
/// was stored for, and for no other; for other paths nothing has changed.
pub proof fn lemma_each_is_served(
    held: Map<Seq<PartView>, StoredView>,
    writes: Seq<StoredView>,
    p: PathView,
    size: u64,
    mtime_secs: Option<i64>,
)
    requires
        forall|i: int, j: int|
            0 <= i < j < writes.len() ==> !(#[trigger] writes[i]).path.same(
                (#[trigger] writes[j]).path,
            ),
    ensures
        (forall|i: int| 0 <= i < writes.len() ==> !(#[trigger] writes[i]).path.same(p))
            ==> valid_fp(put_each(held, writes), p, size, mtime_secs) == valid_fp(
            held,
            p,
            size,
            mtime_secs,
        ),
        forall|i: int|
            0 <= i < writes.len() && (#[trigger] writes[i]).path.same(p) ==> valid_fp(
                put_each(held, writes),
                p,
                size,
                mtime_secs,
            ) == if size == writes[i].stamp.size && mtime_secs == Some(writes[i].stamp.mtime_secs) {
                Some(writes[i].stamp.fp)
            } else {
                None
            },
    decreases writes.len(),
{
    if writes.len() > 0 {
        let front = writes.drop_last();
        let last = writes.last();
        assert forall|i: int, j: int| 0 <= i < j < front.len() implies !(
        #[trigger] front[i]).path.same((#[trigger] front[j]).path) by {
            assert(front[i] == writes[i] && front[j] == writes[j]);
        }
        lemma_each_is_served(held, front, p, size, mtime_secs);
        lemma_stored_is_served(put_each(held, front), last, p, size, mtime_secs);
        assert(writes[writes.len() - 1] == last);
        if forall|i: int| 0 <= i < writes.len() ==> !(#[trigger] writes[i]).path.same(p) {
            assert forall|i: int| 0 <= i < front.len() implies !(#[trigger] front[i]).path.same(
                p,
            ) by {
                assert(front[i] == writes[i]);
            }
            assert(!writes[writes.len() - 1].path.same(p));
        }
        assert forall|i: int|
            0 <= i < writes.len() && (#[trigger] writes[i]).path.same(p) implies valid_fp(
            put_each(held, writes),
            p,
            size,
            mtime_secs,
        ) == (if size == writes[i].stamp.size && mtime_secs == Some(writes[i].stamp.mtime_secs) {
            Some(writes[i].stamp.fp)
        } else {
            None
        }) by {
            if i < front.len() {
                assert(front[i] == writes[i]);
                assert(!writes[i].path.same(writes[writes.len() - 1].path));
            }
        }
    }
}

/// A file whose modification time is unknown is never served.
pub proof fn lemma_unknown_time_misses(
    held: Map<Seq<PartView>, StoredView>,
    p: PathView,
    size: u64,
)
    ensures
        valid_fp(held, p, size, None) is None,
{
}

/// A fingerprint in the shape in which it is encoded: an image, or else a
/// video.
pub type WireFp = Result<(u32, u32, u64), (u32, u32, u64, Vec<u64>)>;

/// A cache in the shape in which it is encoded: the version, and for each path
/// its size, modification time and fingerprint.
pub type Wire = (u32, Vec<(String, (u64, i64, WireFp))>);

/// What an entry is whose path is given as text.
#[verifier::ext_equal]
pub struct TextView {
    pub path: Seq<char>,
    pub stamp: StampView,
}

/// What an encoded fingerprint is.
pub open spec fn wire_fp(fp: WireFp) -> FpView {
    match fp {
        Ok((w, h, hash)) => FpView::Image { w, h, hash },
        Err((w, h, duration_ms, frames)) => FpView::Video { w, h, duration_ms, frames: frames@ },
    }
}

/// What an encoded entry is.
pub open spec fn wire_entry(e: (String, (u64, i64, WireFp))) -> TextView {
    TextView {
        path: e.0@,
        stamp: StampView { size: e.1.0, mtime_secs: e.1.1, fp: wire_fp(e.1.2) },
    }
}

/// What an encoded cache is: its version and its entries.
pub open spec fn wire_view(w: Wire) -> (u32, Seq<TextView>) {
    (w.0, w.1@.map_values(|e: (String, (u64, i64, WireFp))| wire_entry(e)))
}

/// The encoding of a version and entries.
pub uninterp spec fn bincode_of(version: u32, entries: Seq<TextView>) -> Seq<u8>;

/// The version and entries that some bytes encode, if they encode any.
pub uninterp spec fn bincode_read(data: Seq<u8>) -> Option<(u32, Seq<TextView>)>;

/// What a decoded cache is, where there is one.
pub open spec fn decoded_view(decoded: Option<Wire>) -> Option<(u32, Seq<TextView>)> {
    match decoded {
        Some(w) => Some(wire_view(w)),
        None => None,
    }
}

/// Where the bytes are an encoding, `decoded` is what was encoded.
pub open spec fn gives_back(data: Seq<u8>, decoded: Option<(u32, Seq<TextView>)>) -> bool {
    forall|version: u32, entries: Seq<TextView>|
        data == #[trigger] bincode_of(version, entries) ==> decoded == Some((version, entries))
}

/// `bincode::serialize` encodes numbers, texts and lists of them. It has no
/// limit of size, so it does not fail on what is in memory.
#[verifier::external_body]
fn bincode_encode(w: &Wire) -> (r: Vec<u8>)
    ensures
        r@ == bincode_of(wire_view(*w).0, wire_view(*w).1),
{
    bincode::serialize(w).expect("encoding into memory cannot fail")
}

/// `bincode::deserialize` decodes what `bincode::serialize` encoded, and fails
/// on bytes that encode nothing of the kind.
#[verifier::external_body]
fn bincode_decode(data: &[u8]) -> (r: Option<Wire>)
    ensures
        decoded_view(r) == bincode_read(data@),
        gives_back(data@, decoded_view(r)),
{
    bincode::deserialize::<Wire>(data).ok()
}

/// An entry whose path is given as text.
#[derive(Debug)]
pub struct TextEntry {
    pub path: String,
    pub entry: CacheEntry,
}

impl View for TextEntry {
    type V = TextView;

    open spec fn view(&self) -> TextView {
        TextView { path: self.path@, stamp: self.entry@ }
    }
}

/// What each entry of a list is.
pub open spec fn text_views(entries: Seq<TextEntry>) -> Seq<TextView> {
    entries.map_values(|e: TextEntry| e@)
}

/// The entries that a decoded cache has: none where it could not be decoded or
/// has another version.
pub open spec fn current_entries(decoded: Option<(u32, Seq<TextView>)>) -> Seq<TextView> {
    match decoded {
        Some((version, entries)) => if version == CACHE_VERSION {
            entries
        } else {
            Seq::empty()
        },
        None => Seq::empty(),
    }
}

/// The entries of a cache in the shape in which it was encoded.
pub fn entries_of(decoded: Option<Wire>) -> (r: Vec<TextEntry>)
    ensures
        text_views(r@) == current_entries(decoded_view(decoded)),
{
    let mut r: Vec<TextEntry> = Vec::new();
    match decoded {
        Some((version, entries)) => if version == CACHE_VERSION {
            let ghost all = entries@;
            for e in it: entries
                invariant
                    it.seq() == all,
                    r@.len() == it.index(),
                    forall|j: int| 0 <= j < it.index() ==> (#[trigger] r@[j])@ == wire_entry(all[j]),
            {
                let (path, (size, mtime_secs, code)) = e;
                let fp = match code {
                    Ok((w, h, hash)) => CacheFp::Image { w, h, hash },
                    Err((w, h, duration_ms, frames)) => CacheFp::Video {
                        w,
                        h,
                        duration_ms,
                        frames,
                    },
                };
                r.push(TextEntry { path, entry: CacheEntry { size, mtime_secs, fp } });
            }
            assert(text_views(r@) =~= all.map_values(
                |e: (String, (u64, i64, WireFp))| wire_entry(e),
            ));
        } else {
            assert(text_views(r@) =~= Seq::empty());
        },
        None => {
            assert(text_views(r@) =~= Seq::empty());
        },
    }
    r
}

/// Reads what a cache file holds; `None` stands for a file that could not be
/// read. Corrupt files and those of another version hold nothing. What
/// `encode_cache` wrote is read back.
pub fn decode_cache(data: Option<&[u8]>) -> (r: Vec<TextEntry>)
    ensures
        text_views(r@) == match data {
            Some(bytes) => current_entries(bincode_read(bytes@)),
            None => Seq::empty(),
        },
        data matches Some(bytes) ==> forall|entries: Seq<TextView>|
            bytes@ == #[trigger] bincode_of(CACHE_VERSION, entries) ==> text_views(r@) == entries,
{
    match data {
        Some(bytes) => {
            let decoded = bincode_decode(bytes);
            let r = entries_of(decoded);
            assert forall|entries: Seq<TextView>|
                bytes@ == #[trigger] bincode_of(CACHE_VERSION, entries) implies text_views(r@)
                == entries by {}
            r
        },
        None => {
            let r: Vec<TextEntry> = Vec::new();
            assert(text_views(r@) =~= Seq::empty());
            r
        },
    }
}

/// The entries with their paths as text.
pub open spec fn as_texts(entries: Seq<StoredView>) -> Seq<TextView> {
    entries.map_values(
        |e: StoredView| TextView { path: decode_utf8(e.path.raw), stamp: e.stamp },
    )
}

/// Every path is proper text.
pub open spec fn all_texts(entries: Seq<StoredView>) -> bool {
    forall|i: int| 0 <= i < entries.len() ==> valid_utf8((#[trigger] entries[i]).path.raw)
}

/// Encodes entries for the cache file; `None` where a path is no proper text,
/// which cannot be encoded.
pub fn encode_cache(entries: &Vec<StoredEntry>) -> (r: Option<Vec<u8>>)
    ensures
        match r {
            Some(data) => {
                &&& all_texts(stored_views(entries@))
                &&& data@ == bincode_of(CACHE_VERSION, as_texts(stored_views(entries@)))
            },
            None => !all_texts(stored_views(entries@)),
        },
{
    let ghost views = stored_views(entries@);
    let ghost expected = as_texts(views);
    let mut out: Vec<(String, (u64, i64, WireFp))> = Vec::new();
    let mut i: usize = 0;
    while i < entries.len()
        invariant
            0 <= i <= entries@.len(),
            views == stored_views(entries@),
            expected == as_texts(views),
            out@.len() == i,
            forall|j: int| 0 <= j < i ==> valid_utf8((#[trigger] views[j]).path.raw),
            forall|j: int| 0 <= j < i ==> wire_entry(#[trigger] out@[j]) == expected[j],
        decreases entries@.len() - i,
    {
        let e = &entries[i];
        assert(views[i as int].path.raw == e.path.raw@);
        let text = match e.path.exact_text() {
            Some(t) => t,
            None => {
                return None;
            },
        };
        let code: WireFp = match &e.entry.fp {
            CacheFp::Image { w, h, hash } => Ok((*w, *h, *hash)),
            CacheFp::Video { w, h, duration_ms, frames } => Err(
                (*w, *h, *duration_ms, copy_hashes(frames)),
            ),
        };
        out.push((text, (e.entry.size, e.entry.mtime_secs, code)));
        assert(wire_entry(out@[i as int]) == expected[i as int]);
        i = i + 1;
    }
    let wire: Wire = (CACHE_VERSION, out);
    assert(wire_view(wire).1 =~= expected);
    Some(bincode_encode(&wire))
}

/// The entries whose paths the texts stand for.
pub open spec fn from_texts(entries: Seq<TextView>) -> Seq<StoredView> {
    entries.map_values(
        |e: TextView| StoredView { path: path::text_path(e.path), stamp: e.stamp },
    )
}

/// Takes the paths of entries from texts in which slashes separate the names.
pub fn stored_from_texts(entries: Vec<TextEntry>) -> (r: Vec<StoredEntry>)
    ensures
        stored_views(r@) == from_texts(text_views(entries@)),
{
    let ghost all = entries@;
    let mut r: Vec<StoredEntry> = Vec::new();
    for e in it: entries
        invariant
            it.seq() == all,
            r@.len() == it.index(),
            forall|j: int|
                0 <= j < it.index() ==> (#[trigger] r@[j])@ == from_texts(text_views(all))[j],
    {
        r.push(StoredEntry { path: FilePath::from_text(e.path), entry: e.entry });
    }
    assert(stored_views(r@) =~= from_texts(text_views(all)));
    r
}

/// The components of each stored path are those that slashes separate.
pub open spec fn all_by_slashes(entries: Seq<StoredView>) -> bool {
    forall|i: int| 0 <= i < entries.len() ==> (#[trigger] entries[i]).path.by_slashes()
}

/// What is held, but for the spelling of the paths.
proof fn lemma_put_all_alike(a: Seq<StoredView>, b: Seq<StoredView>)
    requires
        a.len() == b.len(),
        forall|i: int|
            0 <= i < a.len() ==> (#[trigger] a[i]).path.parts == b[i].path.parts && a[i].stamp
                == b[i].stamp,
    ensures
        forall|k: Seq<PartView>| #[trigger]
            put_all(a).contains_key(k) == put_all(b).contains_key(k),
        forall|k: Seq<PartView>| #[trigger]
            put_all(a).contains_key(k) ==> put_all(a)[k].stamp == put_all(b)[k].stamp,
    decreases a.len(),
{
    if a.len() > 0 {
        let c = a.drop_last();
        let d = b.drop_last();
        assert forall|i: int| 0 <= i < c.len() implies (#[trigger] c[i]).path.parts
            == d[i].path.parts && c[i].stamp == d[i].stamp by {
            assert(c[i] == a[i] && d[i] == b[i]);
        }
        lemma_put_all_alike(c, d);
        assert(a[a.len() - 1] == a.last() && b[b.len() - 1] == b.last());
        assert forall|k: Seq<PartView>| #[trigger]
            put_all(a).contains_key(k) == put_all(b).contains_key(k) by {
            assert(put_all(c).contains_key(k) == put_all(d).contains_key(k));
        }
        assert forall|k: Seq<PartView>| #[trigger] put_all(a).contains_key(k) implies put_all(
            a,
        )[k].stamp == put_all(b)[k].stamp by {
            assert(put_all(c).contains_key(k) == put_all(d).contains_key(k));
        }
    }
}

/// `back` are entries that were read back: each has its stamp, and the path that
/// it had, however that is spelled.
pub open spec fn reads_back(entries: Seq<StoredView>, back: Seq<StoredView>) -> bool {
    &&& back.len() == entries.len()
    &&& forall|i: int|
        0 <= i < entries.len() ==> (#[trigger] entries[i]).path.same(back[i].path)
            && entries[i].stamp == back[i].stamp
}

/// Entries that were written out as text are read back where the names in their
/// paths are separated by slashes.
pub proof fn lemma_texts_read_back(entries: Seq<StoredView>)
    requires
        all_texts(entries),
        all_by_slashes(entries),
    ensures
        reads_back(entries, from_texts(as_texts(entries))),
{
    let back = from_texts(as_texts(entries));
    assert forall|i: int| 0 <= i < entries.len() implies (#[trigger] entries[i]).path.same(
        back[i].path,
    ) && entries[i].stamp == back[i].stamp by {
        assert(as_texts(entries)[i].path == decode_utf8(entries[i].path.raw));
        vstd::utf8::decode_utf8_encode_utf8(entries[i].path.raw);
        assert(entries[i].path.by_slashes());
    }
}

/// What was saved is served again: a cache whose entries were written out and
/// read back, whatever the names in their paths are separated by, serves for
/// every file what it served before. Beyond the cap it serves what it served of
/// the entries that were saved, and nothing else.
pub proof fn lemma_saved_is_served(
    held: Map<Seq<PartView>, StoredView>,
    entries: Seq<StoredView>,
    back: Seq<StoredView>,
    p: PathView,
    size: u64,
    mtime_secs: Option<i64>,
)
    requires
        held.dom().finite(),
        is_saved(held, entries),
        reads_back(entries, back),
    ensures
        held.len() <= MAX_ENTRIES ==> valid_fp(put_all(back), p, size, mtime_secs) == valid_fp(
            held,
            p,
            size,
            mtime_secs,
        ),
        valid_fp(put_all(back), p, size, mtime_secs) == if exists|i: int|
            0 <= i < entries.len() && (#[trigger] entries[i]).path.same(p) {
            valid_fp(held, p, size, mtime_secs)
        } else {
            None
        },
{
    lemma_put_all_alike(entries, back);
    lemma_read_back(held, entries);
    lemma_put_all(entries);
    let k = p.parts;
    assert(put_all(entries).contains_key(k) == put_all(back).contains_key(k));
    if exists|i: int| 0 <= i < entries.len() && (#[trigger] entries[i]).path.same(p) {
        let i = choose|i: int| 0 <= i < entries.len() && (#[trigger] entries[i]).path.same(p);
        assert(put_all(entries).contains_key(entries[i].path.parts));
        assert(held.contains_key(entries[i].path.parts));
    } else if put_all(entries).contains_key(k) {
        let i = choose|i: int| 0 <= i < entries.len() && (#[trigger] entries[i]).path.parts == k;
        assert(entries[i].path.same(p));
    }
}

/// Where the cache file is: a path, and the names to follow from there.
#[derive(Debug)]
pub struct CachePlace {
    pub base: Vec<u8>,
    pub names: Vec<String>,
}

/// What place a cache file has.
#[verifier::ext_equal]
pub struct PlaceView {
    pub base: Seq<u8>,
    pub names: Seq<Seq<char>>,
}

impl View for CachePlace {
    type V = PlaceView;

    open spec fn view(&self) -> PlaceView {
        PlaceView { base: self.base@, names: self.names@.map_values(|n: String| n@) }
    }
}

/// The first of two values that is there.
pub open spec fn first_of(a: Option<Seq<u8>>, b: Option<Seq<u8>>) -> Option<Seq<u8>> {
    match a {
        Some(x) => Some(x),
        None => b,
    }
}

/// Bytes that may be missing.
pub open spec fn option_bytes(b: Option<Vec<u8>>) -> Option<Seq<u8>> {
    match b {
        Some(v) => Some(v@),
        None => None,
    }
}

/// The place of the cache file: what was chosen, if that is not empty, else a
/// file in the user's home directory, else a file in the current directory.
/// The home directory has one name on Windows and another elsewhere.
pub open spec fn place_of(
    chosen: Option<Seq<u8>>,
    profile: Option<Seq<u8>>,
    home: Option<Seq<u8>>,
    windows: bool,
) -> PlaceView {
    let dir = if windows {
        first_of(profile, home)
    } else {
        first_of(home, profile)
    };
    match (chosen, dir) {
        (Some(p), _) if p.len() > 0 => PlaceView { base: p, names: Seq::empty() },
        (_, Some(d)) => PlaceView { base: d, names: seq![".dedupe"@, "fingerprints.bin"@] },
        _ => PlaceView { base: Seq::empty(), names: seq!["fingerprints.bin"@] },
    }
}

/// Default cache file location, from the values of the environment variables
/// `DEDUPE_CACHE`, `USERPROFILE` and `HOME`: `DEDUPE_CACHE` if set (non-empty),
/// otherwise under the user's home directory (`USERPROFILE` on Windows, `HOME`
/// elsewhere), otherwise the current directory.
pub fn default_cache_path(
    chosen: Option<Vec<u8>>,
    profile: Option<Vec<u8>>,
    home: Option<Vec<u8>>,
    windows: bool,
) -> (r: CachePlace)
    ensures
        r@ == place_of(option_bytes(chosen), option_bytes(profile), option_bytes(home), windows),
{
    let mut names: Vec<String> = Vec::new();
    if let Some(p) = chosen {
        if p.len() > 0 {
            let r = CachePlace { base: p, names };
            assert(r@.names =~= Seq::empty());
            return r;
        }
    }
    let dir = if windows {
        match profile {
            Some(d) => Some(d),
            None => home,
        }
    } else {
        match home {
            Some(d) => Some(d),
            None => profile,
        }
    };
    match dir {
        Some(d) => {
            names.push(String::from_str(".dedupe"));
            names.push(String::from_str("fingerprints.bin"));
            let r = CachePlace { base: d, names };
            assert(r@.names =~= seq![".dedupe"@, "fingerprints.bin"@]);
            r
        },
        None => {
            names.push(String::from_str("fingerprints.bin"));
            let r = CachePlace { base: Vec::new(), names };
            assert(r@.names =~= seq!["fingerprints.bin"@]);
            assert(r@.base =~= Seq::empty());
            r
        },
    }
}

/// Entries are taken only from a cache of the first version: from one of any
/// other version, and from what could not be read, none is.
pub proof fn lemma_version(version: u32, entries: Seq<TextView>)
    ensures
        current_entries(Some((1u32, entries))) == entries,
        version != 1 ==> current_entries(Some((version, entries))).len() == 0,
        current_entries(None).len() == 0,
{
}

/// The cache file is where it was chosen to be, if anything was chosen; else in
/// a directory of its own in the user's home, which on Windows is the profile
/// where there is one, and elsewhere the home where there is one; else in the
/// current directory.
pub proof fn lemma_place(
    chosen: Option<Seq<u8>>,
    profile: Option<Seq<u8>>,
    home: Option<Seq<u8>>,
    windows: bool,
)
    ensures
        ({
            let place = place_of(chosen, profile, home, windows);
            let unset = chosen is None || (chosen->0).len() == 0;
            &&& !unset ==> place.base == chosen->0 && place.names.len() == 0
            &&& unset && windows && profile is Some ==> place.base == profile->0
            &&& unset && windows && profile is None && home is Some ==> place.base == home->0
            &&& unset && !windows && home is Some ==> place.base == home->0
            &&& unset && !windows && home is None && profile is Some ==> place.base == profile->0
            &&& unset && (home is Some || profile is Some) ==> place.names.len() == 2
                && place.names[0] == ".dedupe"@ && place.names[1] == "fingerprints.bin"@
            &&& unset && home is None && profile is None ==> place.base.len() == 0
                && place.names.len() == 1 && place.names[0] == "fingerprints.bin"@
        }),
{
}

/// A cache of fifty thousand entries at most is written out as a whole; of a
/// larger one, fifty thousand entries are.
pub proof fn lemma_saved_count(held: Map<Seq<PartView>, StoredView>, entries: Seq<StoredView>)
    requires
        is_saved(held, entries),
    ensures
        held.len() <= 50 * 1000 ==> entries.len() == held.len(),
        held.len() > 50 * 1000 ==> entries.len() == 50 * 1000,
{
}

} // verus!
