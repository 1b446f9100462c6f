//! The search for similar media, stage by stage.
//!
//! Expensive work is pruned up front: images are bucketed by aspect ratio, from
//! their headers alone, and videos by resolution and duration, so that only
//! files with a possible partner are fingerprinted. Files whose fingerprint is
//! cached are never fingerprinted again.

use crate::binary64;
use crate::binary64::{Binary64, Float};
use crate::bucket;
use crate::bucket::{group_twins, twin_flags};
use crate::cache;
use crate::cache::{copy_hashes, CacheFp, CacheWrite, FingerprintCache, FpView, StampView, StoredView};
use crate::cluster;
use crate::fingerprint;
use crate::matching;
use crate::media;
use crate::media::{classify, MediaInfo, MediaKind, MediaView};
use crate::order;
use crate::path::PartView;
use crate::path_table;
use crate::scan;
use crate::scan::{EntryView, FileEntry};
use crate::similar;
use crate::similar::{
    aspect_key, cluster_images, image_buckets, ImageFp, ImageView, SimilarConfig, SimilarGroup,
    SimilarGroupView,
};
use crate::video;
use crate::video::{cluster_videos, durations_close, video_buckets, VideoFp, VideoView};
use vstd::prelude::*;

verus! {

/// The files of one kind, in their order.
pub open spec fn of_kind(entries: Seq<EntryView>, kind: MediaKind) -> Seq<EntryView>
    decreases entries.len(),
{
    if entries.len() == 0 {
        Seq::empty()
    } else if media::kind_of(entries.last().path) == kind {
        of_kind(entries.drop_last(), kind).push(entries.last())
    } else {
        of_kind(entries.drop_last(), kind)
    }
}

/// Picks the images and the videos out of some files.
pub fn split_media(entries: Vec<FileEntry>) -> (r: (Vec<FileEntry>, Vec<FileEntry>))
    ensures
        scan::entry_views(r.0@) == of_kind(scan::entry_views(entries@), MediaKind::Image),
        scan::entry_views(r.1@) == of_kind(scan::entry_views(entries@), MediaKind::Video),
{
    let ghost all = entries@;
    let ghost views = scan::entry_views(all);
    let mut images: Vec<FileEntry> = Vec::new();
    let mut videos: Vec<FileEntry> = Vec::new();
    assert(views.take(0) =~= Seq::empty());
    assert(scan::entry_views(images@) =~= Seq::empty());
    assert(scan::entry_views(videos@) =~= Seq::empty());
    for e in it: entries
        invariant
            it.seq() == all,
            views == scan::entry_views(all),
            scan::entry_views(images@) == of_kind(views.take(it.index()), MediaKind::Image),
            scan::entry_views(videos@) == of_kind(views.take(it.index()), MediaKind::Video),
    {
        let ghost next = views.take(it.index() + 1);
        assert(next.drop_last() =~= views.take(it.index()));
        assert(next.last() == e@);
        let ghost was_images = scan::entry_views(images@);
        let ghost was_videos = scan::entry_views(videos@);
        match classify(&e.path) {
            MediaKind::Image => {
                images.push(e);
                assert(scan::entry_views(images@) =~= was_images.push(e@));
            },
            MediaKind::Video => {
                videos.push(e);
                assert(scan::entry_views(videos@) =~= was_videos.push(e@));
            },
            MediaKind::Other => {},
        }
    }
    assert(views.take(views.len() as int) =~= views);
    (images, videos)
}

/// What is held by a cache that may be missing.
pub open spec fn held(cache: Option<&FingerprintCache>) -> Map<Seq<PartView>, StoredView> {
    match cache {
        Some(c) => c@.stored,
        None => Map::empty(),
    }
}

/// A cache that is there is well-formed.
pub open spec fn usable(cache: Option<&FingerprintCache>) -> bool {
    match cache {
        Some(c) => c.well_formed(),
        None => true,
    }
}

/// The size of an image and its hash.
#[derive(Clone, Copy, Debug, PartialEq, Eq, Structural)]
pub struct ImagePrint {
    pub w: u32,
    pub h: u32,
    pub hash: u64,
}

/// The image fingerprint that is cached for a file, if one is.
pub open spec fn cached_image(stored: Map<Seq<PartView>, StoredView>, e: EntryView) -> Option<
    ImagePrint,
> {
    match cache::valid_fp(stored, e.path, e.size, e.mtime_secs) {
        Some(FpView::Image { w, h, hash }) => Some(ImagePrint { w, h, hash }),
        _ => None,
    }
}

/// Looks the images up in the cache.
pub fn image_hits(images: &Vec<FileEntry>, cache: Option<&FingerprintCache>) -> (hits: Vec<
    Option<ImagePrint>,
>)
    requires
        usable(cache),
    ensures
        hits@ == scan::entry_views(images@).map_values(
            |e: EntryView| cached_image(held(cache), e),
        ),
{
    let ghost views = scan::entry_views(images@);
    let ghost stored = held(cache);
    let mut hits: Vec<Option<ImagePrint>> = Vec::new();
    let mut i: usize = 0;
    while i < images.len()
        invariant
            0 <= i <= images@.len(),
            usable(cache),
            views == scan::entry_views(images@),
            stored == held(cache),
            hits@.len() == i,
            forall|j: int| 0 <= j < i ==> #[trigger] hits@[j] == cached_image(stored, views[j]),
        decreases images@.len() - i,
    {
        let e = &images[i];
        let hit = match cache {
            Some(c) => match c.get(&e.path, e.size, e.mtime_secs) {
                Some(CacheFp::Image { w, h, hash }) => Some(
                    ImagePrint { w: *w, h: *h, hash: *hash },
                ),
                _ => None,
            },
            None => None,
        };
        hits.push(hit);
        i = i + 1;
    }
    assert(hits@ =~= views.map_values(|e: EntryView| cached_image(stored, e)));
    hits
}

/// What images are first compared by: the aspect ratio of the cached size, or
/// else of the size in the header.
pub open spec fn header_idents(
    hits: Seq<Option<ImagePrint>>,
    sizes: Seq<Option<(u32, u32)>>,
) -> Seq<Option<Seq<int>>> {
    Seq::new(
        hits.len(),
        |i: int|
            match (hits[i], sizes[i]) {
                (Some(p), _) => Some(seq![similar::aspect_of(p.w, p.h) as int]),
                (None, Some(s)) => Some(seq![similar::aspect_of(s.0, s.1) as int]),
                (None, None) => None,
            },
    )
}

/// The image has to be fingerprinted: it is not cached, and another image has
/// the same aspect ratio.
pub open spec fn image_wanted(
    hits: Seq<Option<ImagePrint>>,
    sizes: Seq<Option<(u32, u32)>>,
    i: int,
) -> bool {
    hits[i] is None && bucket::has_twin(header_idents(hits, sizes), i)
}

/// Tells which images have to be fingerprinted, given the sizes in the headers
/// of those that are not cached.
pub fn image_candidates(
    hits: &Vec<Option<ImagePrint>>,
    sizes: &Vec<Option<(u32, u32)>>,
) -> (wanted: Vec<bool>)
    requires
        sizes@.len() == hits@.len(),
    ensures
        wanted@.len() == hits@.len(),
        forall|i: int|
            0 <= i < hits@.len() ==> #[trigger] wanted@[i] == image_wanted(hits@, sizes@, i),
{
    let ghost ids = header_idents(hits@, sizes@);
    let mut keys: Vec<Option<i64>> = Vec::new();
    let mut i: usize = 0;
    while i < hits.len()
        invariant
            0 <= i <= hits@.len(),
            sizes@.len() == hits@.len(),
            ids == header_idents(hits@, sizes@),
            keys@.len() == i,
            forall|j: int|
                0 <= j < i ==> (match #[trigger] keys@[j] {
                    Some(k) => Some(seq![k as int]),
                    None => None,
                }) == ids[j],
        decreases hits@.len() - i,
    {
        let key = match (&hits[i], &sizes[i]) {
            (Some(p), _) => Some(aspect_key(p.w, p.h)),
            (None, Some(s)) => Some(aspect_key(s.0, s.1)),
            (None, None) => None,
        };
        keys.push(key);
        i = i + 1;
    }
    assert(bucket::idents(keys@) =~= ids);
    let twins = twin_flags(&keys);
    let mut wanted: Vec<bool> = Vec::new();
    let mut k: usize = 0;
    while k < hits.len()
        invariant
            0 <= k <= hits@.len(),
            ids == header_idents(hits@, sizes@),
            twins@.len() == hits@.len(),
            forall|j: int| 0 <= j < hits@.len() ==> #[trigger] twins@[j] == bucket::has_twin(ids, j),
            wanted@.len() == k,
            forall|j: int| 0 <= j < k ==> #[trigger] wanted@[j] == image_wanted(hits@, sizes@, j),
        decreases hits@.len() - k,
    {
        wanted.push(hits[k].is_none() && twins[k]);
        k = k + 1;
    }
    wanted
}

/// The fingerprints of the first `n` images at the positions where there are
/// some.
pub open spec fn image_prints(
    images: Seq<EntryView>,
    prints: Seq<Option<ImagePrint>>,
    n: nat,
) -> Seq<ImageView>
    decreases n,
{
    if n == 0 {
        Seq::empty()
    } else {
        let i = n - 1;
        match prints[i] {
            Some(p) => image_prints(images, prints, i as nat).push(
                ImageView { entry: images[i], hash: p.hash, w: p.w, h: p.h },
            ),
            None => image_prints(images, prints, i as nat),
        }
    }
}

/// The results of fingerprinting, where it was asked for.
pub open spec fn asked_images(
    hits: Seq<Option<ImagePrint>>,
    sizes: Seq<Option<(u32, u32)>>,
    fresh: Seq<Option<ImagePrint>>,
) -> Seq<Option<ImagePrint>> {
    Seq::new(
        hits.len(),
        |i: int|
            if image_wanted(hits, sizes, i) {
                fresh[i]
            } else {
                None
            },
    )
}

/// The fingerprints that are known of images: those that are cached, and those
/// that are new.
pub open spec fn known_images(
    hits: Seq<Option<ImagePrint>>,
    sizes: Seq<Option<(u32, u32)>>,
    fresh: Seq<Option<ImagePrint>>,
) -> Seq<Option<ImagePrint>> {
    Seq::new(
        hits.len(),
        |i: int|
            match hits[i] {
                Some(p) => Some(p),
                None => asked_images(hits, sizes, fresh)[i],
            },
    )
}

/// The fingerprints that images are compared by, in the order of the files.
pub open spec fn image_pool(
    images: Seq<EntryView>,
    hits: Seq<Option<ImagePrint>>,
    sizes: Seq<Option<(u32, u32)>>,
    fresh: Seq<Option<ImagePrint>>,
) -> Seq<ImageView> {
    image_prints(images, known_images(hits, sizes, fresh), images.len())
}

/// What is to be cached of the fingerprints of the first `n` files: those of
/// files whose modification time is known.
pub open spec fn fp_writes(files: Seq<EntryView>, fps: Seq<Option<FpView>>, n: nat) -> Seq<
    StoredView,
>
    decreases n,
{
    if n == 0 {
        Seq::empty()
    } else {
        let i = n - 1;
        let rest = fp_writes(files, fps, i as nat);
        match (fps[i], files[i].mtime_secs) {
            (Some(fp), Some(t)) => rest.push(
                StoredView {
                    path: files[i].path,
                    stamp: StampView { size: files[i].size, mtime_secs: t, fp },
                },
            ),
            _ => rest,
        }
    }
}

/// The fingerprints of images as they are cached.
pub open spec fn image_fps(prints: Seq<Option<ImagePrint>>) -> Seq<Option<FpView>> {
    prints.map_values(
        |p: Option<ImagePrint>|
            match p {
                Some(p) => Some(FpView::Image { w: p.w, h: p.h, hash: p.hash }),
                None => None,
            },
    )
}

/// What is to be cached of the first `n` new fingerprints of images.
pub open spec fn image_writes(
    images: Seq<EntryView>,
    prints: Seq<Option<ImagePrint>>,
    n: nat,
) -> Seq<StoredView> {
    fp_writes(images, image_fps(prints), n)
}

/// What each write of a list stores.
pub open spec fn write_views(writes: Seq<CacheWrite>) -> Seq<StoredView> {
    writes.map_values(|w: CacheWrite| w@)
}

/// `groups` are the groups of similar images among those with fingerprints.
pub open spec fn are_image_groups(
    pool: Seq<ImageView>,
    threshold: Float,
    groups: Seq<SimilarGroupView>,
) -> bool {
    exists|buckets: Seq<Vec<usize>>|
        #[trigger] bucket::is_partition(similar::aspect_idents(pool), buckets) && groups
            == similar::image_groups(pool, cluster::cluster_views(buckets), threshold)
}

/// Puts the fingerprints of images together with their files.
fn gather_images(images: &Vec<FileEntry>, prints: &Vec<Option<ImagePrint>>) -> (pool: Vec<ImageFp>)
    requires
        prints@.len() == images@.len(),
    ensures
        similar::image_views(pool@) == image_prints(
            scan::entry_views(images@),
            prints@,
            images@.len(),
        ),
{
    let ghost views = scan::entry_views(images@);
    let mut pool: Vec<ImageFp> = Vec::new();
    let mut i: usize = 0;
    assert(similar::image_views(pool@) =~= image_prints(views, prints@, 0));
    while i < images.len()
        invariant
            0 <= i <= images@.len(),
            prints@.len() == images@.len(),
            views == scan::entry_views(images@),
            similar::image_views(pool@) == image_prints(views, prints@, i as nat),
        decreases images@.len() - i,
    {
        match prints[i] {
            Some(p) => {
                let ghost was = similar::image_views(pool@);
                let fp = ImageFp { entry: images[i].clone(), hash: p.hash, w: p.w, h: p.h };
                assert(fp@ == (ImageView { entry: views[i as int], hash: p.hash, w: p.w, h: p.h }));
                pool.push(fp);
                assert(similar::image_views(pool@) =~= was.push(fp@));
            },
            None => {},
        }
        i = i + 1;
    }
    pool
}

/// Finds the groups of similar images, given the cached fingerprints, the sizes
/// in the headers of the other images, and the fingerprints of those that
/// `image_candidates` asks for. Also says what is to be cached.
pub fn group_images(
    images: &Vec<FileEntry>,
    hits: &Vec<Option<ImagePrint>>,
    sizes: &Vec<Option<(u32, u32)>>,
    fresh: &Vec<Option<ImagePrint>>,
    threshold: Binary64,
) -> (r: (Vec<SimilarGroup>, Vec<CacheWrite>))
    requires
        hits@.len() == images@.len(),
        sizes@.len() == images@.len(),
        fresh@.len() == images@.len(),
        threshold@.normal(),
    ensures
        are_image_groups(
            image_pool(scan::entry_views(images@), hits@, sizes@, fresh@),
            threshold@,
            similar::similar_group_views(r.0@),
        ),
        similar::proper_groups(r.0@),
        write_views(r.1@) == image_writes(
            scan::entry_views(images@),
            asked_images(hits@, sizes@, fresh@),
            images@.len(),
        ),
{
    let ghost views = scan::entry_views(images@);
    let ghost asked = asked_images(hits@, sizes@, fresh@);
    let wanted = image_candidates(hits, sizes);
    let ghost known = known_images(hits@, sizes@, fresh@);
    let mut prints: Vec<Option<ImagePrint>> = Vec::new();
    let mut writes: Vec<CacheWrite> = Vec::new();
    let mut i: usize = 0;
    assert(write_views(writes@) =~= image_writes(views, asked, 0));
    while i < images.len()
        invariant
            0 <= i <= images@.len(),
            hits@.len() == images@.len(),
            sizes@.len() == images@.len(),
            fresh@.len() == images@.len(),
            wanted@.len() == images@.len(),
            views == scan::entry_views(images@),
            asked == asked_images(hits@, sizes@, fresh@),
            known == known_images(hits@, sizes@, fresh@),
            forall|j: int|
                0 <= j < hits@.len() ==> #[trigger] wanted@[j] == image_wanted(hits@, sizes@, j),
            prints@.len() == i,
            forall|j: int| 0 <= j < i ==> #[trigger] prints@[j] == known[j],
            write_views(writes@) == image_writes(views, asked, i as nat),
        decreases images@.len() - i,
    {
        let e = &images[i];
        let print = if wanted[i] {
            fresh[i]
        } else {
            None
        };
        assert(print == asked[i as int]);
        assert(image_fps(asked)[i as int] is Some <==> print is Some);
        match hits[i] {
            Some(p) => {
                prints.push(Some(p));
            },
            None => {
                prints.push(print);
            },
        }
        match (print, e.mtime_secs) {
            (Some(p), Some(t)) => {
                let ghost was = write_views(writes@);
                let w = CacheWrite {
                    path: e.path.clone(),
                    size: e.size,
                    mtime_secs: t,
                    fp: CacheFp::Image { w: p.w, h: p.h, hash: p.hash },
                };
                writes.push(w);
                assert(write_views(writes@) =~= was.push(w@));
            },
            _ => {},
        }
        i = i + 1;
    }
    assert(prints@ =~= known);
    let pool = gather_images(images, &prints);
    let buckets = image_buckets(&pool);
    let groups = cluster_images(&pool, &buckets, threshold);
    (groups, writes)
}

/// The size of a video, its duration and the hashes of its frames.
#[derive(Debug)]
pub struct VideoPrint {
    pub w: u32,
    pub h: u32,
    pub duration_ms: u64,
    pub frames: Vec<u64>,
}

/// What the fingerprint of a video is, without the file.
#[verifier::ext_equal]
pub struct PrintView {
    pub w: u32,
    pub h: u32,
    pub duration_ms: u64,
    pub frames: Seq<u64>,
}

impl View for VideoPrint {
    type V = PrintView;

    open spec fn view(&self) -> PrintView {
        PrintView {
            w: self.w,
            h: self.h,
            duration_ms: self.duration_ms,
            frames: self.frames@,
        }
    }
}

/// A fingerprint that may be missing.
pub open spec fn print_view(p: Option<VideoPrint>) -> Option<PrintView> {
    match p {
        Some(v) => Some(v@),
        None => None,
    }
}

/// Fingerprints that may be missing.
pub open spec fn print_views(prints: Seq<Option<VideoPrint>>) -> Seq<Option<PrintView>> {
    prints.map_values(|p: Option<VideoPrint>| print_view(p))
}

/// The video fingerprint that is cached for a file, if one is.
pub open spec fn cached_video(stored: Map<Seq<PartView>, StoredView>, e: EntryView) -> Option<
    PrintView,
> {
    match cache::valid_fp(stored, e.path, e.size, e.mtime_secs) {
        Some(FpView::Video { w, h, duration_ms, frames }) => Some(
            PrintView { w, h, duration_ms, frames },
        ),
        _ => None,
    }
}

/// Looks the videos up in the cache.
pub fn video_hits(videos: &Vec<FileEntry>, cache: Option<&FingerprintCache>) -> (hits: Vec<
    Option<VideoPrint>,
>)
    requires
        usable(cache),
    ensures
        print_views(hits@) == scan::entry_views(videos@).map_values(
            |e: EntryView| cached_video(held(cache), e),
        ),
{
    let ghost views = scan::entry_views(videos@);
    let ghost stored = held(cache);
    let mut hits: Vec<Option<VideoPrint>> = Vec::new();
    let mut i: usize = 0;
    while i < videos.len()
        invariant
            0 <= i <= videos@.len(),
            usable(cache),
            views == scan::entry_views(videos@),
            stored == held(cache),
            hits@.len() == i,
            forall|j: int|
                0 <= j < i ==> print_view(#[trigger] hits@[j]) == cached_video(stored, views[j]),
        decreases videos@.len() - i,
    {
        let e = &videos[i];
        let hit = match cache {
            Some(c) => match c.get(&e.path, e.size, e.mtime_secs) {
                Some(CacheFp::Video { w, h, duration_ms, frames }) => Some(
                    VideoPrint {
                        w: *w,
                        h: *h,
                        duration_ms: *duration_ms,
                        frames: copy_hashes(frames),
                    },
                ),
                _ => None,
            },
            None => None,
        };
        hits.push(hit);
        i = i + 1;
    }
    assert(print_views(hits@) =~= views.map_values(|e: EntryView| cached_video(stored, e)));
    hits
}

/// The resolution of a video, from the cache or else from a probe.
pub open spec fn known_size(hit: Option<PrintView>, info: Option<MediaView>) -> Option<(u32, u32)> {
    match (hit, info) {
        (Some(p), _) => Some((p.w, p.h)),
        (None, Some(i)) => match (i.width, i.height) {
            (Some(w), Some(h)) => Some((w, h)),
            _ => None,
        },
        (None, None) => None,
    }
}

/// The duration of a video, from the cache or else from a probe.
pub open spec fn known_duration(hit: Option<PrintView>, info: Option<MediaView>) -> Option<u64> {
    match (hit, info) {
        (Some(p), _) => Some(p.duration_ms),
        (None, Some(i)) => i.duration_ms,
        (None, None) => None,
    }
}

/// Two videos could be the same: they have the same resolution, and durations
/// that are close.
pub open spec fn partners(
    hits: Seq<Option<PrintView>>,
    infos: Seq<Option<MediaView>>,
    i: int,
    j: int,
) -> bool {
    &&& i != j
    &&& known_size(hits[i], infos[i]) is Some
    &&& known_size(hits[i], infos[i]) == known_size(hits[j], infos[j])
    &&& known_duration(hits[i], infos[i]) is Some
    &&& known_duration(hits[j], infos[j]) is Some
    &&& video::durations_near(
        known_duration(hits[i], infos[i])->0,
        known_duration(hits[j], infos[j])->0,
    )
}

/// The video has to be fingerprinted: it is not cached, and either its
/// resolution is unknown or another video could be the same.
pub open spec fn video_wanted(
    hits: Seq<Option<PrintView>>,
    infos: Seq<Option<MediaView>>,
    i: int,
) -> bool {
    hits[i] is None && (known_size(hits[i], infos[i]) is None || exists|j: int|
        0 <= j < hits.len() && #[trigger] partners(hits, infos, i, j))
}

fn size_known(hit: &Option<VideoPrint>, info: &Option<MediaInfo>) -> (r: Option<(u32, u32)>)
    ensures
        r == known_size(print_view(*hit), media::info_view(*info)),
{
    match (hit, info) {
        (Some(p), _) => Some((p.w, p.h)),
        (None, Some(i)) => match (i.width, i.height) {
            (Some(w), Some(h)) => Some((w, h)),
            _ => None,
        },
        (None, None) => None,
    }
}

fn duration_known(hit: &Option<VideoPrint>, info: &Option<MediaInfo>) -> (r: Option<u64>)
    ensures
        r == known_duration(print_view(*hit), media::info_view(*info)),
{
    match (hit, info) {
        (Some(p), _) => Some(p.duration_ms),
        (None, Some(i)) => i.duration_ms,
        (None, None) => None,
    }
}

/// What videos are first compared by: their resolutions.
spec fn size_idents(hits: Seq<Option<PrintView>>, infos: Seq<Option<MediaView>>) -> Seq<
    Option<Seq<int>>,
> {
    Seq::new(
        hits.len(),
        |i: int|
            match known_size(hits[i], infos[i]) {
                Some(s) => Some(seq![s.0 as int, s.1 as int]),
                None => None,
            },
    )
}

proof fn lemma_size_ident(a: (u32, u32), b: (u32, u32))
    ensures
        seq![a.0 as int, a.1 as int] == seq![b.0 as int, b.1 as int] <==> a == b,
{
    let x = seq![a.0 as int, a.1 as int];
    let y = seq![b.0 as int, b.1 as int];
    assert(x[0] == a.0 && x[1] == a.1);
    assert(y[0] == b.0 && y[1] == b.1);
}

/// Tells whether one of the positions in a class is a partner of video `i`.
fn has_partner(
    hits: &Vec<Option<VideoPrint>>,
    infos: &Vec<Option<MediaInfo>>,
    class: &Vec<usize>,
    i: usize,
) -> (r: bool)
    requires
        infos@.len() == hits@.len(),
        bucket::is_class(
            size_idents(print_views(hits@), matching::info_views(infos@)),
            class@,
        ),
        class@.contains(i),
        i < hits@.len(),
    ensures
        r == exists|j: int|
            0 <= j < hits@.len() && #[trigger] partners(
                print_views(hits@),
                matching::info_views(infos@),
                i as int,
                j,
            ),
{
    let ghost hv = print_views(hits@);
    let ghost iv = matching::info_views(infos@);
    let ghost ids = size_idents(hv, iv);
    let n = hits.len();
    proof {
        let p = choose|p: int| 0 <= p < class@.len() && class@[p] == i;
        assert(ids[class@[p] as int] == ids[class@[0] as int]);
    }
    let di = match duration_known(&hits[i], &infos[i]) {
        Some(d) => d,
        None => {
            return false;
        },
    };
    let mut k: usize = 0;
    while k < class.len()
        invariant
            0 <= k <= class@.len(),
            infos@.len() == hits@.len(),
            hv == print_views(hits@),
            iv == matching::info_views(infos@),
            ids == size_idents(hv, iv),
            bucket::is_class(ids, class@),
            i < hits@.len(),
            ids[i as int] == ids[class@[0] as int],
            known_duration(hv[i as int], iv[i as int]) == Some(di),
            forall|l: int|
                0 <= l < k ==> !partners(hv, iv, i as int, #[trigger] class@[l] as int),
        decreases class@.len() - k,
    {
        let j = class[k];
        assert(class@[k as int] < ids.len());
        assert(ids[class@[k as int] as int] == ids[class@[0] as int]);
        assert(hv[j as int] == print_view(hits@[j as int]));
        assert(iv[j as int] == media::info_view(infos@[j as int]));
        if j != i {
            match duration_known(&hits[j], &infos[j]) {
                Some(dj) => {
                    if durations_close(di, dj) {
                        proof {
                            lemma_size_ident(
                                known_size(hv[i as int], iv[i as int])->0,
                                known_size(hv[j as int], iv[j as int])->0,
                            );
                            assert(partners(hv, iv, i as int, j as int));
                        }
                        return true;
                    }
                },
                None => {},
            }
        }
        k = k + 1;
    }
    proof {
        assert forall|j: int| 0 <= j < n implies !(#[trigger] partners(
            hv,
            iv,
            i as int,
            j,
        )) by {
            if partners(hv, iv, i as int, j) {
                assert(ids[j] == ids[i as int]);
                assert(ids[j] == ids[class@[0] as int]);
                assert(class@.contains(j as usize));
                let l = choose|l: int| 0 <= l < class@.len() && class@[l] == j as usize;
                assert(!partners(hv, iv, i as int, class@[l] as int));
            }
        }
    }
    false
}

/// Tells which videos have to be fingerprinted, given the cached fingerprints
/// and what probing the videos found.
pub fn video_candidates(hits: &Vec<Option<VideoPrint>>, infos: &Vec<Option<MediaInfo>>) -> (wanted:
    Vec<bool>)
    requires
        infos@.len() == hits@.len(),
    ensures
        wanted@.len() == hits@.len(),
        forall|i: int|
            0 <= i < hits@.len() ==> #[trigger] wanted@[i] == video_wanted(
                print_views(hits@),
                matching::info_views(infos@),
                i,
            ),
{
    let ghost hv = print_views(hits@);
    let ghost iv = matching::info_views(infos@);
    let ghost ids = size_idents(hv, iv);
    let n = hits.len();
    let mut keys: Vec<Option<(u32, u32)>> = Vec::new();
    let mut wanted: Vec<bool> = Vec::new();
    let mut i: usize = 0;
    while i < n
        invariant
            0 <= i <= n,
            n == hits@.len(),
            infos@.len() == hits@.len(),
            hv == print_views(hits@),
            iv == matching::info_views(infos@),
            keys@.len() == i,
            wanted@.len() == i,
            forall|j: int| 0 <= j < i ==> #[trigger] keys@[j] == known_size(hv[j], iv[j]),
            forall|j: int|
                0 <= j < i ==> (#[trigger] wanted@[j] <==> hv[j] is None && known_size(
                    hv[j],
                    iv[j],
                ) is None),
        decreases n - i,
    {
        assert(hv[i as int] == print_view(hits@[i as int]));
        assert(iv[i as int] == media::info_view(infos@[i as int]));
        let key = size_known(&hits[i], &infos[i]);
        wanted.push(hits[i].is_none() && key.is_none());
        keys.push(key);
        i = i + 1;
    }
    assert(bucket::idents(keys@) =~= ids);
    let groups = group_twins(&keys);
    let ghost base = wanted@;
    let mut a: usize = 0;
    while a < groups.len()
        invariant
            0 <= a <= groups@.len(),
            n == hits@.len(),
            infos@.len() == hits@.len(),
            hv == print_views(hits@),
            iv == matching::info_views(infos@),
            ids == size_idents(hv, iv),
            bucket::is_twin_partition(ids, groups@),
            base.len() == n,
            wanted@.len() == n,
            forall|j: int|
                0 <= j < n ==> (#[trigger] wanted@[j] <==> base[j] || (bucket::is_placed(
                    groups@.take(a as int),
                    j as usize,
                ) && video_wanted(hv, iv, j))),
            forall|j: int|
                0 <= j < n ==> (#[trigger] base[j] <==> hv[j] is None && known_size(
                    hv[j],
                    iv[j],
                ) is None),
        decreases groups@.len() - a,
    {
        let ghost g = groups@[a as int]@;
        let ghost before = wanted@;
        assert(bucket::is_class(ids, groups@[a as int]@));
        let mut k: usize = 0;
        while k < groups[a].len()
            invariant
                a < groups@.len(),
                g == groups@[a as int]@,
                0 <= k <= g.len(),
                n == hits@.len(),
                infos@.len() == hits@.len(),
                hv == print_views(hits@),
                iv == matching::info_views(infos@),
                ids == size_idents(hv, iv),
                bucket::is_class(ids, g),
                before.len() == n,
                wanted@.len() == n,
                forall|j: int|
                    0 <= j < n ==> (#[trigger] wanted@[j] <==> before[j] || (g.take(
                        k as int,
                    ).contains(j as usize) && video_wanted(hv, iv, j))),
            decreases g.len() - k,
        {
            let at = groups[a][k];
            assert(g[k as int] < ids.len());
            assert(ids[g[k as int] as int] == ids[g[0] as int]);
            let ghost mid = wanted@;
            let ghost was = g.take(k as int);
            let ghost now = g.take(k + 1);
            assert(now =~= was.push(at));
            assert(hv[at as int] == print_view(hits@[at as int]));
            let found = has_partner(hits, infos, &groups[a], at);
            let want = hits[at].is_none() && found;
            assert(want == video_wanted(hv, iv, at as int));
            if want {
                wanted.set(at, true);
            }
            proof {
                assert forall|j: int| 0 <= j < n implies (#[trigger] wanted@[j] <==> before[j] || (
                now.contains(j as usize) && video_wanted(hv, iv, j))) by {
                    if j == at {
                        assert(now[k as int] == j as usize);
                        assert(mid[j] <==> before[j] || (was.contains(j as usize) && video_wanted(
                            hv,
                            iv,
                            j,
                        )));
                    } else {
                        assert(wanted@[j] == mid[j]);
                        if was.contains(j as usize) {
                            let l = choose|l: int| 0 <= l < was.len() && was[l] == j as usize;
                            assert(now[l] == j as usize);
                        }
                        if now.contains(j as usize) {
                            let l = choose|l: int| 0 <= l < now.len() && now[l] == j as usize;
                            assert(was[l] == j as usize);
                        }
                    }
                }
            }
            k = k + 1;
        }
        assert(g.take(k as int) =~= g);
        proof {
            let was = groups@.take(a as int);
            let now = groups@.take(a + 1);
            assert forall|j: int| 0 <= j < n implies (#[trigger] wanted@[j] <==> base[j] || (
            bucket::is_placed(now, j as usize) && video_wanted(hv, iv, j))) by {
                if bucket::is_placed(was, j as usize) {
                    let b = choose|b: int|
                        0 <= b < was.len() && #[trigger] was[b]@.contains(j as usize);
                    assert(now[b]@.contains(j as usize));
                }
                if g.contains(j as usize) {
                    assert(now[a as int]@.contains(j as usize));
                }
                if bucket::is_placed(now, j as usize) {
                    let b = choose|b: int|
                        0 <= b < now.len() && #[trigger] now[b]@.contains(j as usize);
                    if b < a {
                        assert(was[b]@.contains(j as usize));
                    }
                }
            }
        }
        a = a + 1;
    }
    proof {
        assert(groups@.take(a as int) =~= groups@);
        assert forall|i: int| 0 <= i < n implies #[trigger] wanted@[i] == video_wanted(hv, iv, i) by {
            if exists|j: int| 0 <= j < hv.len() && #[trigger] partners(hv, iv, i, j) {
                let j = choose|j: int| 0 <= j < hv.len() && #[trigger] partners(hv, iv, i, j);
                assert(ids[j] == ids[i]);
                assert(bucket::has_twin(ids, i));
            }
        }
    }
    wanted
}

/// The results of fingerprinting, where it was asked for.
pub open spec fn asked_videos(
    hits: Seq<Option<PrintView>>,
    infos: Seq<Option<MediaView>>,
    fresh: Seq<Option<PrintView>>,
) -> Seq<Option<PrintView>> {
    Seq::new(
        hits.len(),
        |i: int|
            if video_wanted(hits, infos, i) {
                fresh[i]
            } else {
                None
            },
    )
}

/// The fingerprints of the first `n` videos at the positions where there are
/// some.
pub open spec fn video_prints(
    videos: Seq<EntryView>,
    prints: Seq<Option<PrintView>>,
    n: nat,
) -> Seq<VideoView>
    decreases n,
{
    if n == 0 {
        Seq::empty()
    } else {
        let i = n - 1;
        match prints[i] {
            Some(p) => video_prints(videos, prints, i as nat).push(
                VideoView {
                    entry: videos[i],
                    w: p.w,
                    h: p.h,
                    duration_ms: p.duration_ms,
                    frames: p.frames,
                },
            ),
            None => video_prints(videos, prints, i as nat),
        }
    }
}

/// The fingerprints that are known of videos: those that are cached, and those
/// that are new.
pub open spec fn known_videos(
    hits: Seq<Option<PrintView>>,
    infos: Seq<Option<MediaView>>,
    fresh: Seq<Option<PrintView>>,
) -> Seq<Option<PrintView>> {
    Seq::new(
        hits.len(),
        |i: int|
            match hits[i] {
                Some(p) => Some(p),
                None => asked_videos(hits, infos, fresh)[i],
            },
    )
}

/// The fingerprints that videos are compared by, in the order of the files.
pub open spec fn video_pool(
    videos: Seq<EntryView>,
    hits: Seq<Option<PrintView>>,
    infos: Seq<Option<MediaView>>,
    fresh: Seq<Option<PrintView>>,
) -> Seq<VideoView> {
    video_prints(videos, known_videos(hits, infos, fresh), videos.len())
}

/// The fingerprints of videos as they are cached.
pub open spec fn video_fps(prints: Seq<Option<PrintView>>) -> Seq<Option<FpView>> {
    prints.map_values(
        |p: Option<PrintView>|
            match p {
                Some(p) => Some(
                    FpView::Video { w: p.w, h: p.h, duration_ms: p.duration_ms, frames: p.frames },
                ),
                None => None,
            },
    )
}

/// What is to be cached of the first `n` new fingerprints of videos.
pub open spec fn video_writes(
    videos: Seq<EntryView>,
    prints: Seq<Option<PrintView>>,
    n: nat,
) -> Seq<StoredView> {
    fp_writes(videos, video_fps(prints), n)
}

/// `groups` are the groups of similar videos among those with fingerprints.
pub open spec fn are_video_groups(
    pool: Seq<VideoView>,
    threshold: Float,
    groups: Seq<SimilarGroupView>,
) -> bool {
    exists|buckets: Seq<Vec<usize>>|
        #[trigger] bucket::is_partition(video::resolution_idents(pool), buckets) && groups
            == video::video_groups(pool, cluster::cluster_views(buckets), threshold)
}

/// All videos with fingerprints that have to be compared can be.
pub open spec fn pool_defined(pool: Seq<VideoView>, threshold: Float) -> bool {
    exists|buckets: Seq<Vec<usize>>|
        #[trigger] bucket::is_partition(video::resolution_idents(pool), buckets)
            && video::videos_defined(pool, cluster::cluster_views(buckets), threshold)
}

/// Puts the fingerprints of videos together with their files: those that are
/// cached, and those that are new where they were asked for.
fn gather_videos(
    videos: &Vec<FileEntry>,
    hits: &Vec<Option<VideoPrint>>,
    fresh: &Vec<Option<VideoPrint>>,
    wanted: &Vec<bool>,
) -> (pool: Vec<VideoFp>)
    requires
        hits@.len() == videos@.len(),
        fresh@.len() == videos@.len(),
        wanted@.len() == videos@.len(),
    ensures
        video::video_views(pool@) == video_prints(
            scan::entry_views(videos@),
            chosen(print_views(hits@), print_views(fresh@), wanted@),
            videos@.len(),
        ),
{
    let ghost views = scan::entry_views(videos@);
    let ghost prints = chosen(print_views(hits@), print_views(fresh@), wanted@);
    let mut pool: Vec<VideoFp> = Vec::new();
    let mut i: usize = 0;
    assert(video::video_views(pool@) =~= video_prints(views, prints, 0));
    while i < videos.len()
        invariant
            0 <= i <= videos@.len(),
            hits@.len() == videos@.len(),
            fresh@.len() == videos@.len(),
            wanted@.len() == videos@.len(),
            views == scan::entry_views(videos@),
            prints == chosen(print_views(hits@), print_views(fresh@), wanted@),
            video::video_views(pool@) == video_prints(views, prints, i as nat),
        decreases videos@.len() - i,
    {
        assert(print_views(hits@)[i as int] == print_view(hits@[i as int]));
        assert(print_views(fresh@)[i as int] == print_view(fresh@[i as int]));
        let print = match &hits[i] {
            Some(p) => Some(p),
            None => if wanted[i] {
                fresh[i].as_ref()
            } else {
                None
            },
        };
        match print {
            Some(p) => {
                let ghost was = video::video_views(pool@);
                assert(prints[i as int] == Some(p@));
                let fp = VideoFp {
                    entry: videos[i].clone(),
                    w: p.w,
                    h: p.h,
                    duration_ms: p.duration_ms,
                    frames: copy_hashes(&p.frames),
                };
                assert(fp@ == (VideoView {
                    entry: views[i as int],
                    w: p.w,
                    h: p.h,
                    duration_ms: p.duration_ms,
                    frames: p.frames@,
                }));
                pool.push(fp);
                assert(video::video_views(pool@) =~= was.push(fp@));
            },
            None => {},
        }
        i = i + 1;
    }
    pool
}

/// Fingerprints: those given first, and where there is none the others that are
/// marked.
spec fn chosen(
    first: Seq<Option<PrintView>>,
    others: Seq<Option<PrintView>>,
    marks: Seq<bool>,
) -> Seq<Option<PrintView>> {
    Seq::new(
        first.len(),
        |i: int|
            match first[i] {
                Some(p) => Some(p),
                None => if marks[i] {
                    others[i]
                } else {
                    None
                },
            },
    )
}

/// Finds the groups of similar videos, given the cached fingerprints, what
/// probing the videos found, and the fingerprints of those that
/// `video_candidates` asks for. Also says what is to be cached. There are no
/// groups where two videos would have to be compared that cannot be.
pub fn group_videos(
    videos: &Vec<FileEntry>,
    hits: &Vec<Option<VideoPrint>>,
    infos: &Vec<Option<MediaInfo>>,
    fresh: &Vec<Option<VideoPrint>>,
    threshold: Binary64,
) -> (r: (Option<Vec<SimilarGroup>>, Vec<CacheWrite>))
    requires
        hits@.len() == videos@.len(),
        infos@.len() == videos@.len(),
        fresh@.len() == videos@.len(),
        threshold@.normal(),
    ensures
        ({
            let pool = video_pool(
                scan::entry_views(videos@),
                print_views(hits@),
                matching::info_views(infos@),
                print_views(fresh@),
            );
            match r.0 {
                Some(groups) => {
                    &&& pool_defined(pool, threshold@)
                    &&& are_video_groups(pool, threshold@, similar::similar_group_views(groups@))
                    &&& similar::proper_groups(groups@)
                },
                None => !pool_defined(pool, threshold@),
            }
        }),
        write_views(r.1@) == video_writes(
            scan::entry_views(videos@),
            asked_videos(
                print_views(hits@),
                matching::info_views(infos@),
                print_views(fresh@),
            ),
            videos@.len(),
        ),
{
    let ghost views = scan::entry_views(videos@);
    let ghost hv = print_views(hits@);
    let ghost iv = matching::info_views(infos@);
    let ghost fv = print_views(fresh@);
    let ghost asked = asked_videos(hv, iv, fv);
    let wanted = video_candidates(hits, infos);
    let mut writes: Vec<CacheWrite> = Vec::new();
    let mut i: usize = 0;
    assert(write_views(writes@) =~= video_writes(views, asked, 0));
    while i < videos.len()
        invariant
            0 <= i <= videos@.len(),
            hits@.len() == videos@.len(),
            infos@.len() == videos@.len(),
            fresh@.len() == videos@.len(),
            wanted@.len() == videos@.len(),
            views == scan::entry_views(videos@),
            hv == print_views(hits@),
            iv == matching::info_views(infos@),
            fv == print_views(fresh@),
            asked == asked_videos(hv, iv, fv),
            forall|j: int| 0 <= j < hits@.len() ==> #[trigger] wanted@[j] == video_wanted(hv, iv, j),
            write_views(writes@) == video_writes(views, asked, i as nat),
        decreases videos@.len() - i,
    {
        let e = &videos[i];
        assert(fv[i as int] == print_view(fresh@[i as int]));
        assert(video_fps(asked)[i as int] is Some <==> asked[i as int] is Some);
        if wanted[i] {
            match (&fresh[i], e.mtime_secs) {
                (Some(p), Some(t)) => {
                    let ghost was = write_views(writes@);
                    let w = CacheWrite {
                        path: e.path.clone(),
                        size: e.size,
                        mtime_secs: t,
                        fp: CacheFp::Video {
                            w: p.w,
                            h: p.h,
                            duration_ms: p.duration_ms,
                            frames: copy_hashes(&p.frames),
                        },
                    };
                    writes.push(w);
                    assert(write_views(writes@) =~= was.push(w@));
                },
                _ => {},
            }
        }
        i = i + 1;
    }
    assert(chosen(hv, fv, wanted@) =~= known_videos(hv, iv, fv));
    let pool = gather_videos(videos, hits, fresh, &wanted);
    let ghost fps = video::video_views(pool@);
    let buckets = video_buckets(&pool);
    let groups = cluster_videos(&pool, &buckets, threshold);
    proof {
        if groups is None {
            assert forall|other: Seq<Vec<usize>>|
                #[trigger] bucket::is_partition(video::resolution_idents(fps), other) implies !(
            video::videos_defined(fps, cluster::cluster_views(other), threshold@)) by {
                bucket::lemma_partition_unique(
                    video::resolution_idents(fps),
                    buckets@,
                    other,
                );
                assert(cluster::cluster_views(other) =~= cluster::cluster_views(buckets@));
            }
        }
    }
    (groups, writes)
}

/// What is known of the images among which similar ones are sought, one entry
/// for each file.
pub struct ImageSearch {
    pub files: Vec<FileEntry>,
    /// The fingerprints that are cached.
    pub hits: Vec<Option<ImagePrint>>,
    /// The sizes in the headers of the files that are not cached.
    pub sizes: Vec<Option<(u32, u32)>>,
    /// The fingerprints of the files that have to be fingerprinted.
    pub fresh: Vec<Option<ImagePrint>>,
}

impl ImageSearch {
    /// There is one entry for each file.
    pub open spec fn well_formed(&self) -> bool {
        &&& self.hits@.len() == self.files@.len()
        &&& self.sizes@.len() == self.files@.len()
        &&& self.fresh@.len() == self.files@.len()
    }

    /// The fingerprints that images are compared by.
    pub open spec fn pool(&self) -> Seq<ImageView> {
        image_pool(scan::entry_views(self.files@), self.hits@, self.sizes@, self.fresh@)
    }

    /// What is to be cached.
    pub open spec fn writes(&self) -> Seq<StoredView> {
        image_writes(
            scan::entry_views(self.files@),
            asked_images(self.hits@, self.sizes@, self.fresh@),
            self.files@.len(),
        )
    }
}

/// What is known of the videos among which similar ones are sought, one entry
/// for each file.
pub struct VideoSearch {
    pub files: Vec<FileEntry>,
    /// The fingerprints that are cached.
    pub hits: Vec<Option<VideoPrint>>,
    /// What probing the files found.
    pub infos: Vec<Option<MediaInfo>>,
    /// The fingerprints of the files that have to be fingerprinted.
    pub fresh: Vec<Option<VideoPrint>>,
}

impl VideoSearch {
    /// There is one entry for each file.
    pub open spec fn well_formed(&self) -> bool {
        &&& self.hits@.len() == self.files@.len()
        &&& self.infos@.len() == self.files@.len()
        &&& self.fresh@.len() == self.files@.len()
    }

    /// The fingerprints that videos are compared by.
    pub open spec fn pool(&self) -> Seq<VideoView> {
        video_pool(
            scan::entry_views(self.files@),
            print_views(self.hits@),
            matching::info_views(self.infos@),
            print_views(self.fresh@),
        )
    }

    /// What is to be cached.
    pub open spec fn writes(&self) -> Seq<StoredView> {
        video_writes(
            scan::entry_views(self.files@),
            asked_videos(
                print_views(self.hits@),
                matching::info_views(self.infos@),
                print_views(self.fresh@),
            ),
            self.files@.len(),
        )
    }
}

/// `groups` are the groups of similar images, then those of similar videos.
pub open spec fn are_similar_groups(
    images: Seq<ImageView>,
    videos: Seq<VideoView>,
    threshold: Float,
    groups: Seq<SimilarGroupView>,
) -> bool {
    exists|a: Seq<SimilarGroupView>, b: Seq<SimilarGroupView>|
        #[trigger] are_image_groups(images, threshold, a) && #[trigger] are_video_groups(
            videos,
            threshold,
            b,
        ) && groups == a + b
}

/// Find perceptual duplicates among media files. Also returns what is to be
/// stored in the cache. There are no groups where two videos would have to be
/// compared whose numbers of frames differ too much.
pub fn find_similar(images: &ImageSearch, videos: &VideoSearch, config: &SimilarConfig) -> (r: (
    Option<Vec<SimilarGroup>>,
    Vec<CacheWrite>,
))
    requires
        images.well_formed(),
        videos.well_formed(),
        config.threshold@.normal(),
    ensures
        match r.0 {
            Some(groups) => {
                &&& pool_defined(videos.pool(), config.threshold@)
                &&& are_similar_groups(
                    images.pool(),
                    videos.pool(),
                    config.threshold@,
                    similar::similar_group_views(groups@),
                )
                &&& similar::proper_groups(groups@)
            },
            None => !pool_defined(videos.pool(), config.threshold@),
        },
        write_views(r.1@) == images.writes() + videos.writes(),
{
    let (mut groups, mut writes) = group_images(
        &images.files,
        &images.hits,
        &images.sizes,
        &images.fresh,
        config.threshold,
    );
    let (more, rest) = group_videos(
        &videos.files,
        &videos.hits,
        &videos.infos,
        &videos.fresh,
        config.threshold,
    );
    let ghost first_writes = writes@;
    let ghost last_writes = rest@;
    let mut rest = rest;
    writes.append(&mut rest);
    assert(write_views(writes@) =~= write_views(first_writes) + write_views(last_writes));
    match more {
        Some(found) => {
            let ghost a = groups@;
            let ghost b = found@;
            let mut found = found;
            groups.append(&mut found);
            assert(similar::similar_group_views(groups@) =~= similar::similar_group_views(a)
                + similar::similar_group_views(b));
            assert(similar::proper_groups(groups@)) by {
                assert forall|g: int| 0 <= g < groups@.len() implies similar::proper_group(
                    #[trigger] groups@[g],
                ) by {
                    if g < a.len() {
                        assert(similar::proper_group(a[g]));
                    } else {
                        assert(similar::proper_group(b[g - a.len()]));
                    }
                }
            }
            (Some(groups), writes)
        },
        None => (None, writes),
    }
}

/// A group of similar images has at least two members, the first of which has
/// the first path. Similarities are to the first: its own is exactly one, no
/// other is more, and each is at least what the threshold asks, so that
/// unrelated files never chain into one group.
pub proof fn lemma_image_group_alike(
    pool: Seq<ImageView>,
    threshold: Float,
    groups: Seq<SimilarGroupView>,
    g: int,
    k: int,
)
    requires
        are_image_groups(pool, threshold, groups),
        0 <= g < groups.len(),
        0 <= k < groups[g].members.len(),
    ensures
        groups[g].kind == MediaKind::Image,
        groups[g].members.len() >= 2,
        !groups[g].members[k].entry.path.less(groups[g].members[0].entry.path),
        groups[g].members[0].similarity == binary64::float_one(),
        binary64::float_ge(binary64::float_one(), groups[g].members[k].similarity),
        k > 0 ==> binary64::float_ge(groups[g].members[k].similarity, threshold),
{
    let buckets = choose|buckets: Seq<Vec<usize>>|
        #[trigger] bucket::is_partition(similar::aspect_idents(pool), buckets) && groups
            == similar::image_groups(pool, cluster::cluster_views(buckets), threshold);
    let keys = similar::image_keys(pool);
    let like = similar::image_likes(pool, threshold);
    let parts = cluster::cluster_views(buckets);
    cluster::lemma_listed_clusters(keys, parts, like, g);
    let members = cluster::clusters_in(keys, parts, like)[g];
    cluster::lemma_leader_first(keys, parts, like, g, k);
    cluster::lemma_listed_likes(keys, parts, like, g, k);
    let first_path = pool[members[0] as int].entry.path;
    let other_path = pool[members[k] as int].entry.path;
    assert(keys[members[0] as int] == first_path.key());
    assert(keys[members[k] as int] == other_path.key());
    order::lemma_rank_key_flip(first_path.key(), other_path.key());
    let first = pool[members[0] as int].hash;
    let other = pool[members[k] as int].hash;
    assert(groups[g] == similar::image_group(pool, members));
    fingerprint::lemma_likeness(first, first);
    fingerprint::lemma_likeness(other, first);
    assert(k > 0 ==> groups[g].pairs[k][0] == fingerprint::likeness(other, first));
}

/// A group of similar videos has at least two members, the first of which has
/// the first path. Similarities are to the first: its own is exactly one, no
/// other is more, and each is at least what the threshold asks.
pub proof fn lemma_video_group_alike(
    pool: Seq<VideoView>,
    threshold: Float,
    groups: Seq<SimilarGroupView>,
    g: int,
    k: int,
)
    requires
        are_video_groups(pool, threshold, groups),
        0 <= g < groups.len(),
        0 <= k < groups[g].members.len(),
    ensures
        groups[g].kind == MediaKind::Video,
        groups[g].members.len() >= 2,
        !groups[g].members[k].entry.path.less(groups[g].members[0].entry.path),
        groups[g].members[0].similarity == binary64::float_one(),
        binary64::float_ge(binary64::float_one(), groups[g].members[k].similarity),
        k > 0 ==> binary64::float_ge(groups[g].members[k].similarity, threshold),
{
    let buckets = choose|buckets: Seq<Vec<usize>>|
        #[trigger] bucket::is_partition(video::resolution_idents(pool), buckets) && groups
            == video::video_groups(pool, cluster::cluster_views(buckets), threshold);
    let keys = video::video_keys(pool);
    let like = video::video_likes(pool, threshold);
    let parts = cluster::cluster_views(buckets);
    cluster::lemma_listed_clusters(keys, parts, like, g);
    let members = cluster::clusters_in(keys, parts, like)[g];
    cluster::lemma_leader_first(keys, parts, like, g, k);
    cluster::lemma_listed_likes(keys, parts, like, g, k);
    let first_path = pool[members[0] as int].entry.path;
    let other_path = pool[members[k] as int].entry.path;
    assert(keys[members[0] as int] == first_path.key());
    assert(keys[members[k] as int] == other_path.key());
    order::lemma_rank_key_flip(first_path.key(), other_path.key());
    let first = pool[members[0] as int].frames;
    let other = pool[members[k] as int].frames;
    assert(groups[g] == video::video_group(pool, members));
    fingerprint::lemma_sequence_range(other, first, 2);
    assert(k > 0 ==> groups[g].pairs[k][0] == fingerprint::sequence_likeness(other, first, 2));
    binary64::lemma_compare(binary64::float_one(), binary64::float_one());
}

/// The files of one kind are among the files.
pub proof fn lemma_of_kind(entries: Seq<EntryView>, kind: MediaKind, i: int)
    requires
        0 <= i < of_kind(entries, kind).len(),
    ensures
        entries.contains(of_kind(entries, kind)[i]),
        media::kind_of(of_kind(entries, kind)[i].path) == kind,
    decreases entries.len(),
{
    let front = entries.drop_last();
    assert(entries[entries.len() - 1] == entries.last());
    if i < of_kind(front, kind).len() {
        lemma_of_kind(front, kind, i);
        let j = choose|j: int| 0 <= j < front.len() && front[j] == of_kind(front, kind)[i];
        assert(entries[j] == of_kind(entries, kind)[i]);
    }
}

proof fn lemma_image_member(
    pool: Seq<ImageView>,
    threshold: Float,
    groups: Seq<SimilarGroupView>,
    g: int,
    k: int,
)
    requires
        are_image_groups(pool, threshold, groups),
        0 <= g < groups.len(),
        0 <= k < groups[g].members.len(),
    ensures
        exists|i: int|
            0 <= i < pool.len() && (#[trigger] pool[i]).entry == groups[g].members[k].entry,
{
    let buckets = choose|buckets: Seq<Vec<usize>>|
        #[trigger] bucket::is_partition(similar::aspect_idents(pool), buckets) && groups
            == similar::image_groups(pool, cluster::cluster_views(buckets), threshold);
    let keys = similar::image_keys(pool);
    let like = similar::image_likes(pool, threshold);
    let parts = cluster::cluster_views(buckets);
    cluster::lemma_listed_likes(keys, parts, like, g, k);
    let members = cluster::clusters_in(keys, parts, like)[g];
    assert(groups[g] == similar::image_group(pool, members));
    assert(pool[members[k] as int].entry == groups[g].members[k].entry);
}

proof fn lemma_video_member(
    pool: Seq<VideoView>,
    threshold: Float,
    groups: Seq<SimilarGroupView>,
    g: int,
    k: int,
)
    requires
        are_video_groups(pool, threshold, groups),
        0 <= g < groups.len(),
        0 <= k < groups[g].members.len(),
    ensures
        exists|i: int|
            0 <= i < pool.len() && (#[trigger] pool[i]).entry == groups[g].members[k].entry,
{
    let buckets = choose|buckets: Seq<Vec<usize>>|
        #[trigger] bucket::is_partition(video::resolution_idents(pool), buckets) && groups
            == video::video_groups(pool, cluster::cluster_views(buckets), threshold);
    let keys = video::video_keys(pool);
    let like = video::video_likes(pool, threshold);
    let parts = cluster::cluster_views(buckets);
    cluster::lemma_listed_likes(keys, parts, like, g, k);
    let members = cluster::clusters_in(keys, parts, like)[g];
    assert(groups[g] == video::video_group(pool, members));
    assert(pool[members[k] as int].entry == groups[g].members[k].entry);
}

proof fn lemma_image_given(
    s: ImageSearch,
    threshold: Float,
    groups: Seq<SimilarGroupView>,
    g: int,
    k: int,
)
    requires
        s.well_formed(),
        are_image_groups(s.pool(), threshold, groups),
        0 <= g < groups.len(),
        0 <= k < groups[g].members.len(),
    ensures
        scan::entry_views(s.files@).contains(groups[g].members[k].entry),
{
    let files = scan::entry_views(s.files@);
    let entry = groups[g].members[k].entry;
    lemma_image_member(s.pool(), threshold, groups, g, k);
    let i = choose|i: int| 0 <= i < s.pool().len() && (#[trigger] s.pool()[i]).entry == entry;
    let a = image_at(files, known_images(s.hits@, s.sizes@, s.fresh@), files.len(), i);
    assert(files[a] == entry);
}

proof fn lemma_video_given(
    s: VideoSearch,
    threshold: Float,
    groups: Seq<SimilarGroupView>,
    g: int,
    k: int,
)
    requires
        s.well_formed(),
        are_video_groups(s.pool(), threshold, groups),
        0 <= g < groups.len(),
        0 <= k < groups[g].members.len(),
    ensures
        scan::entry_views(s.files@).contains(groups[g].members[k].entry),
{
    let files = scan::entry_views(s.files@);
    let entry = groups[g].members[k].entry;
    lemma_video_member(s.pool(), threshold, groups, g, k);
    let i = choose|i: int| 0 <= i < s.pool().len() && (#[trigger] s.pool()[i]).entry == entry;
    let known = known_videos(
        print_views(s.hits@),
        matching::info_views(s.infos@),
        print_views(s.fresh@),
    );
    let a = video_at(files, known, files.len(), i);
    assert(files[a] == entry);
}

/// Groups of similar media hold files that were searched, and no others.
pub proof fn lemma_members_were_searched(
    images: ImageSearch,
    videos: VideoSearch,
    threshold: Float,
    groups: Seq<SimilarGroupView>,
    g: int,
    k: int,
)
    requires
        images.well_formed(),
        videos.well_formed(),
        are_similar_groups(images.pool(), videos.pool(), threshold, groups),
        0 <= g < groups.len(),
        0 <= k < groups[g].members.len(),
    ensures
        scan::entry_views(images.files@).contains(groups[g].members[k].entry)
            || scan::entry_views(videos.files@).contains(groups[g].members[k].entry),
{
    let (a, b) = choose|a: Seq<SimilarGroupView>, b: Seq<SimilarGroupView>|
        #[trigger] are_image_groups(images.pool(), threshold, a) && #[trigger] are_video_groups(
            videos.pool(),
            threshold,
            b,
        ) && groups == a + b;
    if g < a.len() {
        lemma_image_given(images, threshold, a, g, k);
    } else {
        lemma_video_given(videos, threshold, b, g - a.len(), k);
    }
}

/// Classes have no position in common.
proof fn lemma_classes_differ(ids: Seq<Option<Seq<int>>>, buckets: Seq<Vec<usize>>)
    requires
        bucket::are_classes(ids, buckets),
    ensures
        cluster::items_differ(cluster::cluster_views(buckets)),
{
    let parts = cluster::cluster_views(buckets);
    assert forall|c: int, k: int, d: int, l: int|
        0 <= c < parts.len() && 0 <= k < parts[c].len() && 0 <= d < parts.len() && 0 <= l
            < parts[d].len() && !(c == d && k == l) implies #[trigger] parts[c][k]
        != #[trigger] parts[d][l] by {
        let a = buckets[c]@;
        let b = buckets[d]@;
        assert(bucket::is_class(ids, buckets[c]@) && bucket::is_class(ids, buckets[d]@));
        assert(parts[c][k] == a[k] && parts[d][l] == b[l]);
        if c == d {
            if k < l {
                assert(a[k] < a[l]);
            } else {
                assert(a[l] < a[k]);
            }
        } else if a[k] == b[l] {
            bucket::lemma_class_meet(ids, a, b, a[k]);
            if c < d {
                assert(buckets[c]@[0] < buckets[d]@[0]);
            } else {
                assert(buckets[d]@[0] < buckets[c]@[0]);
            }
        }
    }
}

/// Different places of clusters hold different positions.
proof fn lemma_places_differ(
    ids: Seq<Option<Seq<int>>>,
    buckets: Seq<Vec<usize>>,
    keys: Seq<Seq<Seq<int>>>,
    like: spec_fn(usize, usize) -> bool,
    g: int,
    k: int,
    h: int,
    l: int,
)
    requires
        bucket::are_classes(ids, buckets),
        0 <= g < cluster::clusters_in(keys, cluster::cluster_views(buckets), like).len(),
        0 <= k < cluster::clusters_in(keys, cluster::cluster_views(buckets), like)[g].len(),
        0 <= h < cluster::clusters_in(keys, cluster::cluster_views(buckets), like).len(),
        0 <= l < cluster::clusters_in(keys, cluster::cluster_views(buckets), like)[h].len(),
        cluster::clusters_in(keys, cluster::cluster_views(buckets), like)[g][k]
            == cluster::clusters_in(keys, cluster::cluster_views(buckets), like)[h][l],
    ensures
        g == h && k == l,
{
    lemma_classes_differ(ids, buckets);
    cluster::lemma_listed_differ(keys, cluster::cluster_views(buckets), like);
}

/// The position of the file that a fingerprint belongs to.
proof fn image_at(
    images: Seq<EntryView>,
    prints: Seq<Option<ImagePrint>>,
    n: nat,
    i: int,
) -> (a: int)
    requires
        0 <= i < image_prints(images, prints, n).len(),
    ensures
        0 <= a < n,
        prints[a] is Some,
        image_prints(images, prints, n)[i].entry == images[a],
    decreases n,
{
    if i < image_prints(images, prints, (n - 1) as nat).len() {
        image_at(images, prints, (n - 1) as nat, i)
    } else {
        n - 1
    }
}

proof fn lemma_images_in_order(
    images: Seq<EntryView>,
    prints: Seq<Option<ImagePrint>>,
    n: nat,
    i: int,
    j: int,
)
    requires
        n <= images.len(),
        path_table::distinct_paths(scan::entry_paths(images)),
        0 <= i < j < image_prints(images, prints, n).len(),
    ensures
        !image_prints(images, prints, n)[i].entry.path.same(
            image_prints(images, prints, n)[j].entry.path,
        ),
    decreases n,
{
    let before = image_prints(images, prints, (n - 1) as nat);
    if j < before.len() {
        lemma_images_in_order(images, prints, (n - 1) as nat, i, j);
    } else {
        let a = image_at(images, prints, (n - 1) as nat, i);
        let paths = scan::entry_paths(images);
        assert(!paths[a].same(paths[n - 1]));
    }
}

/// No file has two fingerprints to be compared by.
proof fn lemma_image_pool_differs(s: ImageSearch, i: int, j: int)
    requires
        s.well_formed(),
        path_table::distinct_paths(scan::entry_paths(scan::entry_views(s.files@))),
        0 <= i < j < s.pool().len(),
    ensures
        !s.pool()[i].entry.path.same(s.pool()[j].entry.path),
{
    let files = scan::entry_views(s.files@);
    let known = known_images(s.hits@, s.sizes@, s.fresh@);
    lemma_images_in_order(files, known, files.len(), i, j);
}

/// The position of the file that a fingerprint belongs to.
proof fn video_at(
    videos: Seq<EntryView>,
    prints: Seq<Option<PrintView>>,
    n: nat,
    i: int,
) -> (a: int)
    requires
        0 <= i < video_prints(videos, prints, n).len(),
    ensures
        0 <= a < n,
        prints[a] is Some,
        video_prints(videos, prints, n)[i].entry == videos[a],
    decreases n,
{
    if i < video_prints(videos, prints, (n - 1) as nat).len() {
        video_at(videos, prints, (n - 1) as nat, i)
    } else {
        n - 1
    }
}

proof fn lemma_videos_in_order(
    videos: Seq<EntryView>,
    prints: Seq<Option<PrintView>>,
    n: nat,
    i: int,
    j: int,
)
    requires
        n <= videos.len(),
        path_table::distinct_paths(scan::entry_paths(videos)),
        0 <= i < j < video_prints(videos, prints, n).len(),
    ensures
        !video_prints(videos, prints, n)[i].entry.path.same(
            video_prints(videos, prints, n)[j].entry.path,
        ),
    decreases n,
{
    let before = video_prints(videos, prints, (n - 1) as nat);
    if j < before.len() {
        lemma_videos_in_order(videos, prints, (n - 1) as nat, i, j);
    } else {
        let a = video_at(videos, prints, (n - 1) as nat, i);
        let paths = scan::entry_paths(videos);
        assert(!paths[a].same(paths[n - 1]));
    }
}

/// No file has two fingerprints to be compared by.
proof fn lemma_video_pool_differs(s: VideoSearch, i: int, j: int)
    requires
        s.well_formed(),
        path_table::distinct_paths(scan::entry_paths(scan::entry_views(s.files@))),
        0 <= i < j < s.pool().len(),
    ensures
        !s.pool()[i].entry.path.same(s.pool()[j].entry.path),
{
    let files = scan::entry_views(s.files@);
    let known = known_videos(
        print_views(s.hits@),
        matching::info_views(s.infos@),
        print_views(s.fresh@),
    );
    lemma_videos_in_order(files, known, files.len(), i, j);
}

proof fn lemma_image_groups_differ(
    s: ImageSearch,
    threshold: Float,
    groups: Seq<SimilarGroupView>,
    g: int,
    k: int,
    h: int,
    l: int,
)
    requires
        s.well_formed(),
        path_table::distinct_paths(scan::entry_paths(scan::entry_views(s.files@))),
        are_image_groups(s.pool(), threshold, groups),
        0 <= g < groups.len(),
        0 <= k < groups[g].members.len(),
        0 <= h < groups.len(),
        0 <= l < groups[h].members.len(),
        groups[g].members[k].entry.path.same(groups[h].members[l].entry.path),
    ensures
        g == h && k == l,
{
    let pool = s.pool();
    let buckets = choose|buckets: Seq<Vec<usize>>|
        #[trigger] bucket::is_partition(similar::aspect_idents(pool), buckets) && groups
            == similar::image_groups(pool, cluster::cluster_views(buckets), threshold);
    let keys = similar::image_keys(pool);
    let like = similar::image_likes(pool, threshold);
    let parts = cluster::cluster_views(buckets);
    let clusters = cluster::clusters_in(keys, parts, like);
    cluster::lemma_listed_likes(keys, parts, like, g, k);
    cluster::lemma_listed_likes(keys, parts, like, h, l);
    assert(groups[g] == similar::image_group(pool, clusters[g]));
    assert(groups[h] == similar::image_group(pool, clusters[h]));
    let a = clusters[g][k] as int;
    let b = clusters[h][l] as int;
    assert(pool[a].entry == groups[g].members[k].entry);
    assert(pool[b].entry == groups[h].members[l].entry);
    if a < b {
        lemma_image_pool_differs(s, a, b);
    } else if b < a {
        lemma_image_pool_differs(s, b, a);
    } else {
        lemma_places_differ(similar::aspect_idents(pool), buckets, keys, like, g, k, h, l);
    }
}

proof fn lemma_video_groups_differ(
    s: VideoSearch,
    threshold: Float,
    groups: Seq<SimilarGroupView>,
    g: int,
    k: int,
    h: int,
    l: int,
)
    requires
        s.well_formed(),
        path_table::distinct_paths(scan::entry_paths(scan::entry_views(s.files@))),
        are_video_groups(s.pool(), threshold, groups),
        0 <= g < groups.len(),
        0 <= k < groups[g].members.len(),
        0 <= h < groups.len(),
        0 <= l < groups[h].members.len(),
        groups[g].members[k].entry.path.same(groups[h].members[l].entry.path),
    ensures
        g == h && k == l,
{
    let pool = s.pool();
    let buckets = choose|buckets: Seq<Vec<usize>>|
        #[trigger] bucket::is_partition(video::resolution_idents(pool), buckets) && groups
            == video::video_groups(pool, cluster::cluster_views(buckets), threshold);
    let keys = video::video_keys(pool);
    let like = video::video_likes(pool, threshold);
    let parts = cluster::cluster_views(buckets);
    let clusters = cluster::clusters_in(keys, parts, like);
    cluster::lemma_listed_likes(keys, parts, like, g, k);
    cluster::lemma_listed_likes(keys, parts, like, h, l);
    assert(groups[g] == video::video_group(pool, clusters[g]));
    assert(groups[h] == video::video_group(pool, clusters[h]));
    let a = clusters[g][k] as int;
    let b = clusters[h][l] as int;
    assert(pool[a].entry == groups[g].members[k].entry);
    assert(pool[b].entry == groups[h].members[l].entry);
    if a < b {
        lemma_video_pool_differs(s, a, b);
    } else if b < a {
        lemma_video_pool_differs(s, b, a);
    } else {
        lemma_places_differ(video::resolution_idents(pool), buckets, keys, like, g, k, h, l);
    }
}

/// Paths that are distinct in a list are distinct in its parts, and between
/// them.
proof fn lemma_parts_distinct(first: Seq<EntryView>, last: Seq<EntryView>)
    requires
        path_table::distinct_paths(scan::entry_paths(first + last)),
    ensures
        path_table::distinct_paths(scan::entry_paths(first)),
        path_table::distinct_paths(scan::entry_paths(last)),
        forall|x: EntryView, y: EntryView| #[trigger]
            first.contains(x) && #[trigger] last.contains(y) ==> !x.path.same(y.path),
{
    let paths = scan::entry_paths(first + last);
    let n = first.len() as int;
    let a = scan::entry_paths(first);
    let b = scan::entry_paths(last);
    assert forall|i: int, j: int| 0 <= i < j < a.len() implies !(#[trigger] a[i]).same(
        #[trigger] a[j],
    ) by {
        assert(a[i] == paths[i] && a[j] == paths[j]);
    }
    assert forall|i: int, j: int| 0 <= i < j < b.len() implies !(#[trigger] b[i]).same(
        #[trigger] b[j],
    ) by {
        assert(b[i] == paths[n + i] && b[j] == paths[n + j]);
    }
    assert forall|x: EntryView, y: EntryView| #[trigger]
        first.contains(x) && #[trigger] last.contains(y) implies !x.path.same(y.path) by {
        let i = choose|i: int| 0 <= i < first.len() && first[i] == x;
        let j = choose|j: int| 0 <= j < last.len() && last[j] == y;
        assert(paths[i] == x.path && paths[n + j] == y.path);
    }
}

/// No file is in two places of the groups of similar media, where the files
/// that were searched have different paths.
pub proof fn lemma_similar_groups_are_disjoint(
    images: ImageSearch,
    videos: VideoSearch,
    threshold: Float,
    groups: Seq<SimilarGroupView>,
    g: int,
    k: int,
    h: int,
    l: int,
)
    requires
        images.well_formed(),
        videos.well_formed(),
        path_table::distinct_paths(
            scan::entry_paths(scan::entry_views(images.files@) + scan::entry_views(videos.files@)),
        ),
        are_similar_groups(images.pool(), videos.pool(), threshold, groups),
        0 <= g < groups.len(),
        0 <= k < groups[g].members.len(),
        0 <= h < groups.len(),
        0 <= l < groups[h].members.len(),
        groups[g].members[k].entry.path.same(groups[h].members[l].entry.path),
    ensures
        g == h && k == l,
{
    let (a, b) = choose|a: Seq<SimilarGroupView>, b: Seq<SimilarGroupView>|
        #[trigger] are_image_groups(images.pool(), threshold, a) && #[trigger] are_video_groups(
            videos.pool(),
            threshold,
            b,
        ) && groups == a + b;
    let m = a.len() as int;
    lemma_parts_distinct(scan::entry_views(images.files@), scan::entry_views(videos.files@));
    if g < m && h < m {
        lemma_image_groups_differ(images, threshold, a, g, k, h, l);
    } else if g >= m && h >= m {
        lemma_video_groups_differ(videos, threshold, b, g - m, k, h - m, l);
    } else if g < m {
        lemma_image_given(images, threshold, a, g, k);
        lemma_video_given(videos, threshold, b, h - m, l);
    } else {
        lemma_image_given(images, threshold, a, h, l);
        lemma_video_given(videos, threshold, b, g - m, k);
    }
}

/// Images whose hashes are alike are like each other.
proof fn lemma_images_like(pool: Seq<ImageView>, threshold: Float, i: int, j: int)
    requires
        pool.len() <= usize::MAX,
        0 <= i < pool.len(),
        0 <= j < pool.len(),
        binary64::float_ge(fingerprint::likeness(pool[i].hash, pool[j].hash), threshold),
    ensures
        similar::image_likes(pool, threshold)(i as usize, j as usize),
        similar::image_likes(pool, threshold)(j as usize, i as usize),
{
    fingerprint::lemma_likeness(pool[i].hash, pool[j].hash);
}

/// The files of a group of images are those of its cluster.
proof fn lemma_image_group_entry(
    pool: Seq<ImageView>,
    threshold: Float,
    groups: Seq<SimilarGroupView>,
    parts: Seq<Seq<usize>>,
    g: int,
    k: int,
)
    requires
        groups == similar::image_groups(pool, parts, threshold),
        0 <= g < groups.len(),
        0 <= k < cluster::clusters_in(
            similar::image_keys(pool),
            parts,
            similar::image_likes(pool, threshold),
        )[g].len(),
    ensures
        k < groups[g].members.len(),
        groups[g].members[k].entry == pool[cluster::clusters_in(
            similar::image_keys(pool),
            parts,
            similar::image_likes(pool, threshold),
        )[g][k] as int].entry,
{
}

#[verifier::rlimit(80)]
#[verifier::spinoff_prover]
proof fn lemma_like_images_grouped(
    pool: Seq<ImageView>,
    threshold: Float,
    groups: Seq<SimilarGroupView>,
    like: spec_fn(usize, usize) -> bool,
    i: int,
    j: int,
)
    requires
        are_image_groups(pool, threshold, groups),
        pool.len() <= usize::MAX,
        0 <= i < pool.len(),
        0 <= j < pool.len(),
        i != j,
        similar::aspect_of(pool[i].w, pool[i].h) == similar::aspect_of(pool[j].w, pool[j].h),
        like == similar::image_likes(pool, threshold),
        like(i as usize, j as usize),
        like(j as usize, i as usize),
    ensures
        exists|g: int, k: int|
            0 <= g < groups.len() && 0 <= k < groups[g].members.len() && (
            #[trigger] groups[g].members[k].entry == pool[i].entry || groups[g].members[k].entry
                == pool[j].entry),
{
    let ids = similar::aspect_idents(pool);
    let buckets = choose|buckets: Seq<Vec<usize>>|
        #[trigger] bucket::is_partition(ids, buckets) && groups == similar::image_groups(
            pool,
            cluster::cluster_views(buckets),
            threshold,
        );
    let keys = similar::image_keys(pool);
    let parts = cluster::cluster_views(buckets);
    assert(ids[i] is Some && ids[i] == ids[j]);
    let at = lemma_pair_listed(ids, keys, buckets, like, i, j);
    lemma_image_group_entry(pool, threshold, groups, parts, at.0, at.1);
}

/// Of two images with fingerprints that have the same aspect ratio and are as
/// alike as the threshold asks, at least one is in a group.
pub proof fn lemma_alike_images_grouped(
    pool: Seq<ImageView>,
    threshold: Float,
    groups: Seq<SimilarGroupView>,
    i: int,
    j: int,
)
    requires
        are_image_groups(pool, threshold, groups),
        pool.len() <= usize::MAX,
        0 <= i < pool.len(),
        0 <= j < pool.len(),
        i != j,
        similar::aspect_of(pool[i].w, pool[i].h) == similar::aspect_of(pool[j].w, pool[j].h),
        binary64::float_ge(fingerprint::likeness(pool[i].hash, pool[j].hash), threshold),
    ensures
        exists|g: int, k: int|
            0 <= g < groups.len() && 0 <= k < groups[g].members.len() && (
            #[trigger] groups[g].members[k].entry == pool[i].entry || groups[g].members[k].entry
                == pool[j].entry),
{
    lemma_images_like(pool, threshold, i, j);
    lemma_like_images_grouped(
        pool,
        threshold,
        groups,
        similar::image_likes(pool, threshold),
        i,
        j,
    );
}

/// Of two files that are grouped by the same thing and are like each other, at
/// least one is in a cluster that is listed.
proof fn lemma_pair_listed(
    ids: Seq<Option<Seq<int>>>,
    keys: Seq<Seq<Seq<int>>>,
    buckets: Seq<Vec<usize>>,
    like: spec_fn(usize, usize) -> bool,
    i: int,
    j: int,
) -> (at: (int, int))
    requires
        bucket::is_partition(ids, buckets),
        ids.len() <= usize::MAX,
        0 <= i < ids.len(),
        0 <= j < ids.len(),
        i != j,
        ids[i] is Some,
        ids[i] == ids[j],
        like(i as usize, j as usize),
        like(j as usize, i as usize),
    ensures
        ({
            let all = cluster::clusters_in(keys, cluster::cluster_views(buckets), like);
            &&& 0 <= at.0 < all.len()
            &&& 0 <= at.1 < all[at.0].len()
            &&& all[at.0][at.1] == i || all[at.0][at.1] == j
        }),
{
    let parts = cluster::cluster_views(buckets);
    assert(bucket::is_placed(buckets, i as usize));
    let b = choose|b: int| 0 <= b < buckets.len() && #[trigger] buckets[b]@.contains(i as usize);
    assert(bucket::is_class(ids, buckets[b]@));
    assert(buckets[b]@.contains(j as usize));
    assert(parts[b] == buckets[b]@);
    cluster::lemma_like_pair_listed(keys, parts, like, b, i as usize, j as usize)
}

/// The files of a group of videos are those of its cluster.
proof fn lemma_video_group_entry(
    pool: Seq<VideoView>,
    threshold: Float,
    groups: Seq<SimilarGroupView>,
    parts: Seq<Seq<usize>>,
    g: int,
    k: int,
)
    requires
        groups == video::video_groups(pool, parts, threshold),
        0 <= g < groups.len(),
        0 <= k < cluster::clusters_in(
            video::video_keys(pool),
            parts,
            video::video_likes(pool, threshold),
        )[g].len(),
    ensures
        k < groups[g].members.len(),
        groups[g].members[k].entry == pool[cluster::clusters_in(
            video::video_keys(pool),
            parts,
            video::video_likes(pool, threshold),
        )[g][k] as int].entry,
{
}

/// Videos whose durations are close and whose frames are alike both ways are
/// like each other.
proof fn lemma_videos_like(pool: Seq<VideoView>, threshold: Float, i: int, j: int)
    requires
        pool.len() <= usize::MAX,
        0 <= i < pool.len(),
        0 <= j < pool.len(),
        video::durations_near(pool[i].duration_ms, pool[j].duration_ms),
        binary64::float_ge(
            fingerprint::sequence_likeness(pool[i].frames, pool[j].frames, 2),
            threshold,
        ),
        binary64::float_ge(
            fingerprint::sequence_likeness(pool[j].frames, pool[i].frames, 2),
            threshold,
        ),
    ensures
        video::video_likes(pool, threshold)(i as usize, j as usize),
        video::video_likes(pool, threshold)(j as usize, i as usize),
{
    video::lemma_durations_near(pool[i].duration_ms, pool[j].duration_ms);
}

#[verifier::rlimit(80)]
#[verifier::spinoff_prover]
proof fn lemma_like_videos_grouped(
    pool: Seq<VideoView>,
    threshold: Float,
    groups: Seq<SimilarGroupView>,
    like: spec_fn(usize, usize) -> bool,
    i: int,
    j: int,
)
    requires
        are_video_groups(pool, threshold, groups),
        pool.len() <= usize::MAX,
        0 <= i < pool.len(),
        0 <= j < pool.len(),
        i != j,
        pool[i].w == pool[j].w,
        pool[i].h == pool[j].h,
        like == video::video_likes(pool, threshold),
        like(i as usize, j as usize),
        like(j as usize, i as usize),
    ensures
        exists|g: int, k: int|
            0 <= g < groups.len() && 0 <= k < groups[g].members.len() && (
            #[trigger] groups[g].members[k].entry == pool[i].entry || groups[g].members[k].entry
                == pool[j].entry),
{
    let ids = video::resolution_idents(pool);
    let buckets = choose|buckets: Seq<Vec<usize>>|
        #[trigger] bucket::is_partition(ids, buckets) && groups == video::video_groups(
            pool,
            cluster::cluster_views(buckets),
            threshold,
        );
    let keys = video::video_keys(pool);
    let parts = cluster::cluster_views(buckets);
    assert(ids[i] is Some && ids[i] == ids[j]);
    let at = lemma_pair_listed(ids, keys, buckets, like, i, j);
    lemma_video_group_entry(pool, threshold, groups, parts, at.0, at.1);
}

/// Of two videos with fingerprints that have the same resolution and durations
/// that are close, and each of which is as like the other as the threshold asks,
/// at least one is in a group.
pub proof fn lemma_alike_videos_grouped(
    pool: Seq<VideoView>,
    threshold: Float,
    groups: Seq<SimilarGroupView>,
    i: int,
    j: int,
)
    requires
        are_video_groups(pool, threshold, groups),
        pool.len() <= usize::MAX,
        0 <= i < pool.len(),
        0 <= j < pool.len(),
        i != j,
        pool[i].w == pool[j].w,
        pool[i].h == pool[j].h,
        video::durations_near(pool[i].duration_ms, pool[j].duration_ms),
        binary64::float_ge(
            fingerprint::sequence_likeness(pool[i].frames, pool[j].frames, 2),
            threshold,
        ),
        binary64::float_ge(
            fingerprint::sequence_likeness(pool[j].frames, pool[i].frames, 2),
            threshold,
        ),
    ensures
        exists|g: int, k: int|
            0 <= g < groups.len() && 0 <= k < groups[g].members.len() && (
            #[trigger] groups[g].members[k].entry == pool[i].entry || groups[g].members[k].entry
                == pool[j].entry),
{
    lemma_videos_like(pool, threshold, i, j);
    lemma_like_videos_grouped(pool, threshold, groups, video::video_likes(pool, threshold), i, j);
}

/// What the files of a cluster that is listed are grouped by is the same.
proof fn lemma_cluster_idents(
    ids: Seq<Option<Seq<int>>>,
    keys: Seq<Seq<Seq<int>>>,
    buckets: Seq<Vec<usize>>,
    like: spec_fn(usize, usize) -> bool,
    c: int,
)
    requires
        bucket::is_partition(ids, buckets),
        0 <= c < cluster::clusters_in(keys, cluster::cluster_views(buckets), like).len(),
    ensures
        ({
            let members = cluster::clusters_in(keys, cluster::cluster_views(buckets), like)[c];
            &&& members.len() >= 2
            &&& forall|k: int| 0 <= k < members.len() ==> #[trigger] members[k] < ids.len()
            &&& forall|k: int|
                0 <= k < members.len() ==> ids[#[trigger] members[k] as int] is Some
                    && ids[members[k] as int] == ids[members[0] as int]
        }),
{
    let parts = cluster::cluster_views(buckets);
    let members = cluster::clusters_in(keys, parts, like)[c];
    let b = cluster::lemma_listed_in_bucket(keys, parts, like, c);
    assert(parts[b] == buckets[b]@);
    assert(bucket::is_class(ids, buckets[b]@));
    assert forall|k: int| 0 <= k < members.len() implies #[trigger] members[k] < ids.len()
        && ids[members[k] as int] == ids[buckets[b]@[0] as int] by {
        assert(parts[b].contains(members[k]));
        let x = choose|x: int| 0 <= x < buckets[b]@.len() && buckets[b]@[x] == members[k];
        assert(buckets[b]@[x] < ids.len());
    }
}

/// The places in the pool of a group's files.
proof fn lemma_image_cluster_sizes(pool: Seq<ImageView>, members: Seq<usize>)
    requires
        members.len() >= 2,
        forall|k: int| 0 <= k < members.len() ==> #[trigger] members[k] < pool.len(),
        forall|k: int|
            0 <= k < members.len() ==> similar::aspect_idents(pool)[#[trigger] members[k] as int]
                == similar::aspect_idents(pool)[members[0] as int],
    ensures
        forall|k: int|
            0 <= k < members.len() ==> similar::aspect_of(
                pool[#[trigger] members[k] as int].w,
                pool[members[k] as int].h,
            ) == similar::aspect_of(pool[members[0] as int].w, pool[members[0] as int].h),
{
    let ids = similar::aspect_idents(pool);
    assert forall|k: int| 0 <= k < members.len() implies similar::aspect_of(
        pool[#[trigger] members[k] as int].w,
        pool[members[k] as int].h,
    ) == similar::aspect_of(pool[members[0] as int].w, pool[members[0] as int].h) by {
        let a = ids[members[k] as int]->0;
        let c = ids[members[0] as int]->0;
        assert(a[0] == c[0]);
    }
}

proof fn lemma_video_cluster_sizes(pool: Seq<VideoView>, members: Seq<usize>)
    requires
        members.len() >= 2,
        forall|k: int| 0 <= k < members.len() ==> #[trigger] members[k] < pool.len(),
        forall|k: int|
            0 <= k < members.len() ==> video::resolution_idents(pool)[#[trigger] members[k] as int]
                == video::resolution_idents(pool)[members[0] as int],
    ensures
        forall|k: int|
            0 <= k < members.len() ==> pool[#[trigger] members[k] as int].w
                == pool[members[0] as int].w && pool[members[k] as int].h
                == pool[members[0] as int].h,
{
    let ids = video::resolution_idents(pool);
    assert forall|k: int| 0 <= k < members.len() implies pool[#[trigger] members[k] as int].w
        == pool[members[0] as int].w && pool[members[k] as int].h
        == pool[members[0] as int].h by {
        let a = ids[members[k] as int]->0;
        let c = ids[members[0] as int]->0;
        assert(a[0] == c[0] && a[1] == c[1]);
    }
}

proof fn lemma_video_cluster_durations(
    pool: Seq<VideoView>,
    threshold: Float,
    parts: Seq<Seq<usize>>,
    g: int,
    k: int,
)
    requires
        0 <= g < cluster::clusters_in(
            video::video_keys(pool),
            parts,
            video::video_likes(pool, threshold),
        ).len(),
        0 < k < cluster::clusters_in(
            video::video_keys(pool),
            parts,
            video::video_likes(pool, threshold),
        )[g].len(),
    ensures
        ({
            let members = cluster::clusters_in(
                video::video_keys(pool),
                parts,
                video::video_likes(pool, threshold),
            )[g];
            video::durations_near(
                pool[members[k] as int].duration_ms,
                pool[members[0] as int].duration_ms,
            )
        }),
{
    cluster::lemma_listed_likes(
        video::video_keys(pool),
        parts,
        video::video_likes(pool, threshold),
        g,
        k,
    );
}

/// What the group that a cluster of videos makes says of each video.
proof fn lemma_video_cluster_values(pool: Seq<VideoView>, members: Seq<usize>) -> (from: Seq<int>)
    requires
        members.len() >= 2,
        forall|k: int| 0 <= k < members.len() ==> #[trigger] members[k] < pool.len(),
        forall|k: int|
            0 <= k < members.len() ==> pool[#[trigger] members[k] as int].w
                == pool[members[0] as int].w && pool[members[k] as int].h
                == pool[members[0] as int].h,
    ensures
        from.len() == video::video_group(pool, members).members.len(),
        forall|k: int| 0 <= k < from.len() ==> 0 <= #[trigger] from[k] < pool.len(),
        forall|k: int|
            0 <= k < from.len() ==> {
                let m = video::video_group(pool, members).members[k];
                let p = pool[#[trigger] from[k]];
                &&& m.entry == p.entry
                &&& m.w == p.w
                &&& m.h == p.h
                &&& k > 0 ==> m.similarity == fingerprint::sequence_likeness(
                    p.frames,
                    pool[from[0]].frames,
                    2,
                )
                &&& p.w == pool[from[0]].w
                &&& p.h == pool[from[0]].h
            },
        forall|k: int, l: int|
            0 <= l < k < from.len() ==> video::video_group(pool, members).alike(k, l)
                == fingerprint::sequence_likeness(
                pool[#[trigger] from[k]].frames,
                pool[#[trigger] from[l]].frames,
                2,
            ),
{
    let from = members.map_values(|i: usize| i as int);
    assert forall|k: int| 0 <= k < from.len() implies #[trigger] from[k] == members[k] by {}
    from
}

/// A group of similar images is made of images that have fingerprints: each
/// member has the file and the size of one, how alike two members are is how
/// alike their hashes are, and every member has the aspect ratio of the first.
#[verifier::rlimit(80)]
#[verifier::spinoff_prover]
pub proof fn lemma_image_group_made_of(
    pool: Seq<ImageView>,
    threshold: Float,
    groups: Seq<SimilarGroupView>,
    g: int,
) -> (from: Seq<int>)
    requires
        are_image_groups(pool, threshold, groups),
        0 <= g < groups.len(),
    ensures
        from.len() == groups[g].members.len(),
        forall|k: int| 0 <= k < from.len() ==> 0 <= #[trigger] from[k] < pool.len(),
        forall|k: int|
            0 <= k < from.len() ==> {
                let m = groups[g].members[k];
                let p = pool[#[trigger] from[k]];
                &&& m.entry == p.entry
                &&& m.w == p.w
                &&& m.h == p.h
                &&& k > 0 ==> m.similarity == fingerprint::likeness(p.hash, pool[from[0]].hash)
                &&& similar::aspect_of(p.w, p.h) == similar::aspect_of(
                    pool[from[0]].w,
                    pool[from[0]].h,
                )
            },
        forall|k: int, l: int|
            0 <= l < k < from.len() ==> groups[g].alike(k, l) == fingerprint::likeness(
                pool[#[trigger] from[k]].hash,
                pool[#[trigger] from[l]].hash,
            ),
{
    let ids = similar::aspect_idents(pool);
    let buckets = choose|buckets: Seq<Vec<usize>>|
        #[trigger] bucket::is_partition(ids, buckets) && groups == similar::image_groups(
            pool,
            cluster::cluster_views(buckets),
            threshold,
        );
    let keys = similar::image_keys(pool);
    let like = similar::image_likes(pool, threshold);
    let parts = cluster::cluster_views(buckets);
    let members = cluster::clusters_in(keys, parts, like)[g];
    assert(groups[g] == similar::image_group(pool, members));
    lemma_cluster_idents(ids, keys, buckets, like, g);
    lemma_image_cluster_sizes(pool, members);
    let from = members.map_values(|i: usize| i as int);
    assert forall|k: int| 0 <= k < from.len() implies #[trigger] from[k] == members[k] by {}
    from
}

/// A group of similar videos is made of videos that have fingerprints: each
/// member has the file and the size of one, how alike two members are is how
/// alike the frames of the later one are to those of the earlier one, and every
/// member has the resolution of the first.
#[verifier::rlimit(80)]
#[verifier::spinoff_prover]
pub proof fn lemma_video_group_made_of(
    pool: Seq<VideoView>,
    threshold: Float,
    groups: Seq<SimilarGroupView>,
    g: int,
) -> (from: Seq<int>)
    requires
        are_video_groups(pool, threshold, groups),
        0 <= g < groups.len(),
    ensures
        from.len() == groups[g].members.len(),
        forall|k: int| 0 <= k < from.len() ==> 0 <= #[trigger] from[k] < pool.len(),
        forall|k: int|
            0 <= k < from.len() ==> {
                let m = groups[g].members[k];
                let p = pool[#[trigger] from[k]];
                &&& m.entry == p.entry
                &&& m.w == p.w
                &&& m.h == p.h
                &&& k > 0 ==> m.similarity == fingerprint::sequence_likeness(
                    p.frames,
                    pool[from[0]].frames,
                    2,
                )
                &&& p.w == pool[from[0]].w
                &&& p.h == pool[from[0]].h
            },
        forall|k: int, l: int|
            0 <= l < k < from.len() ==> groups[g].alike(k, l) == fingerprint::sequence_likeness(
                pool[#[trigger] from[k]].frames,
                pool[#[trigger] from[l]].frames,
                2,
            ),
{
    let ids = video::resolution_idents(pool);
    let buckets = choose|buckets: Seq<Vec<usize>>|
        #[trigger] bucket::is_partition(ids, buckets) && groups == video::video_groups(
            pool,
            cluster::cluster_views(buckets),
            threshold,
        );
    let keys = video::video_keys(pool);
    let like = video::video_likes(pool, threshold);
    let parts = cluster::cluster_views(buckets);
    let members = cluster::clusters_in(keys, parts, like)[g];
    assert(groups[g] == video::video_group(pool, members));
    lemma_cluster_idents(ids, keys, buckets, like, g);
    lemma_video_cluster_sizes(pool, members);
    lemma_video_cluster_values(pool, members)
}

/// Every member of a group of similar videos but the first has a duration close
/// to that of the first.
pub proof fn lemma_video_group_durations(
    pool: Seq<VideoView>,
    threshold: Float,
    groups: Seq<SimilarGroupView>,
    g: int,
    k: int,
) -> (from: (int, int))
    requires
        are_video_groups(pool, threshold, groups),
        0 <= g < groups.len(),
        0 < k < groups[g].members.len(),
    ensures
        groups[g].members[k].entry == pool[from.0].entry,
        groups[g].members[0].entry == pool[from.1].entry,
        video::durations_near(pool[from.0].duration_ms, pool[from.1].duration_ms),
{
    let buckets = choose|buckets: Seq<Vec<usize>>|
        #[trigger] bucket::is_partition(video::resolution_idents(pool), buckets) && groups
            == video::video_groups(pool, cluster::cluster_views(buckets), threshold);
    let parts = cluster::cluster_views(buckets);
    let members = cluster::clusters_in(
        video::video_keys(pool),
        parts,
        video::video_likes(pool, threshold),
    )[g];
    assert(groups[g] == video::video_group(pool, members));
    lemma_video_cluster_durations(pool, threshold, parts, g, k);
    (members[k] as int, members[0] as int)
}

/// Every file of a kind is among the files of that kind.
pub proof fn lemma_of_kind_all(entries: Seq<EntryView>, kind: MediaKind, i: int)
    requires
        0 <= i < entries.len(),
        media::kind_of(entries[i].path) == kind,
    ensures
        of_kind(entries, kind).contains(entries[i]),
    decreases entries.len(),
{
    let front = entries.drop_last();
    let some = of_kind(front, kind);
    let all = of_kind(entries, kind);
    if i == entries.len() - 1 {
        assert(all[all.len() - 1] == entries[i]);
    } else {
        assert(front[i] == entries[i]);
        lemma_of_kind_all(front, kind, i);
        let k = choose|k: int| 0 <= k < some.len() && some[k] == entries[i];
        assert(all[k] == some[k]);
    }
}

/// An image that is not cached has to be fingerprinted exactly where another
/// one, cached or not, has the aspect ratio that its header gives.
pub proof fn lemma_image_asked(
    hits: Seq<Option<ImagePrint>>,
    sizes: Seq<Option<(u32, u32)>>,
    i: int,
)
    requires
        sizes.len() == hits.len(),
        0 <= i < hits.len(),
    ensures
        hits[i] is Some ==> !image_wanted(hits, sizes, i),
        hits[i] is None && sizes[i] is None ==> !image_wanted(hits, sizes, i),
        hits[i] is None && sizes[i] is Some ==> (image_wanted(hits, sizes, i) <==> exists|j: int|
            0 <= j < hits.len() && j != i && match #[trigger] hits[j] {
                Some(p) => similar::aspect_of(p.w, p.h) == similar::aspect_of(
                    (sizes[i]->0).0,
                    (sizes[i]->0).1,
                ),
                None => sizes[j] is Some && similar::aspect_of((sizes[j]->0).0, (sizes[j]->0).1)
                    == similar::aspect_of((sizes[i]->0).0, (sizes[i]->0).1),
            }),
{
    let ids = header_idents(hits, sizes);
    if hits[i] is None && sizes[i] is Some {
        let mine = similar::aspect_of((sizes[i]->0).0, (sizes[i]->0).1);
        assert forall|j: int| 0 <= j < hits.len() && j != i implies (#[trigger] ids[j] == ids[i]
            <==> match #[trigger] hits[j] {
            Some(p) => similar::aspect_of(p.w, p.h) == mine,
            None => sizes[j] is Some && similar::aspect_of((sizes[j]->0).0, (sizes[j]->0).1)
                == mine,
        }) by {
            if ids[j] == ids[i] {
                assert((ids[j]->0)[0] == (ids[i]->0)[0]);
            }
        }
        if image_wanted(hits, sizes, i) {
            let j = choose|j: int| 0 <= j < ids.len() && j != i && #[trigger] ids[j] == ids[i];
            assert(hits[j] == hits[j]);
            let h = hits[j];
            assert(match h {
                Some(p) => similar::aspect_of(p.w, p.h) == mine,
                None => sizes[j] is Some && similar::aspect_of((sizes[j]->0).0, (sizes[j]->0).1)
                    == mine,
            });
        }
        if exists|j: int|
            0 <= j < hits.len() && j != i && match #[trigger] hits[j] {
                Some(p) => similar::aspect_of(p.w, p.h) == mine,
                None => sizes[j] is Some && similar::aspect_of((sizes[j]->0).0, (sizes[j]->0).1)
                    == mine,
            } {
            let j = choose|j: int|
                0 <= j < hits.len() && j != i && match #[trigger] hits[j] {
                    Some(p) => similar::aspect_of(p.w, p.h) == mine,
                    None => sizes[j] is Some && similar::aspect_of(
                        (sizes[j]->0).0,
                        (sizes[j]->0).1,
                    ) == mine,
                };
            assert(ids[j] == ids[i]);
            assert(bucket::has_twin(ids, i));
        }
    }
}

/// A video that is not cached has to be fingerprinted where its resolution is
/// unknown, and where another video is known to have the same resolution and a
/// duration close to its own; one that is cached never has to be.
pub proof fn lemma_video_asked(
    hits: Seq<Option<PrintView>>,
    infos: Seq<Option<MediaView>>,
    i: int,
    j: int,
)
    requires
        infos.len() == hits.len(),
        0 <= i < hits.len(),
        0 <= j < hits.len(),
        i != j,
    ensures
        hits[i] is Some ==> !video_wanted(hits, infos, i),
        hits[i] is None && infos[i] is None ==> video_wanted(hits, infos, i),
        hits[i] is None && infos[i] is Some && ((infos[i]->0).width is None || (
        infos[i]->0).height is None) ==> video_wanted(hits, infos, i),
        hits[i] is None && infos[i] is Some && (infos[i]->0).width is Some && (
        infos[i]->0).duration_ms is Some && (infos[i]->0).height is Some && match (
            hits[j],
            infos[j],
        ) {
            (Some(p), _) => (infos[i]->0).width == Some(p.w) && (infos[i]->0).height == Some(p.h)
                && video::durations_near((infos[i]->0).duration_ms->0, p.duration_ms),
            (None, Some(m)) => (infos[i]->0).width == m.width && (infos[i]->0).height == m.height
                && m.duration_ms is Some && video::durations_near(
                (infos[i]->0).duration_ms->0,
                m.duration_ms->0,
            ),
            (None, None) => false,
        } ==> video_wanted(hits, infos, i),
{
    if hits[i] is None && infos[i] is Some && (infos[i]->0).width is Some && (
    infos[i]->0).height is Some && (infos[i]->0).duration_ms is Some {
        if partners(hits, infos, i, j) {
            assert(video_wanted(hits, infos, i));
        }
    }
}

/// A video whose resolution is known has to be fingerprinted only where another
/// one is known to have that resolution and a duration close to its own.
pub proof fn lemma_video_not_asked(
    hits: Seq<Option<PrintView>>,
    infos: Seq<Option<MediaView>>,
    i: int,
)
    requires
        infos.len() == hits.len(),
        0 <= i < hits.len(),
        video_wanted(hits, infos, i),
        infos[i] is Some,
        (infos[i]->0).width is Some,
        (infos[i]->0).height is Some,
    ensures
        (infos[i]->0).duration_ms is Some,
        exists|j: int|
            0 <= j < hits.len() && j != i && match (#[trigger] hits[j], infos[j]) {
                (Some(p), _) => (infos[i]->0).width == Some(p.w) && (infos[i]->0).height == Some(
                    p.h,
                ) && video::durations_near((infos[i]->0).duration_ms->0, p.duration_ms),
                (None, Some(m)) => (infos[i]->0).width == m.width && (infos[i]->0).height
                    == m.height && m.duration_ms is Some && video::durations_near(
                    (infos[i]->0).duration_ms->0,
                    m.duration_ms->0,
                ),
                (None, None) => false,
            },
{
    let j = choose|j: int| 0 <= j < hits.len() && #[trigger] partners(hits, infos, i, j);
    let h = hits[j];
    assert(h == hits[j]);
}

/// Every image whose fingerprint is cached, or was asked for and is there, takes
/// part in the comparison, with its own file, size and hash.
pub proof fn lemma_image_takes_part(
    images: Seq<EntryView>,
    hits: Seq<Option<ImagePrint>>,
    sizes: Seq<Option<(u32, u32)>>,
    fresh: Seq<Option<ImagePrint>>,
    i: int,
    p: ImagePrint,
)
    requires
        hits.len() == images.len(),
        0 <= i < images.len(),
        hits[i] == Some(p) || (image_wanted(hits, sizes, i) && fresh[i] == Some(p)),
    ensures
        image_pool(images, hits, sizes, fresh).contains(
            ImageView { entry: images[i], hash: p.hash, w: p.w, h: p.h },
        ),
{
    let prints = known_images(hits, sizes, fresh);
    assert(prints[i] == Some(p));
    lemma_image_print_in(images, prints, images.len(), i, p);
}

proof fn lemma_image_print_in(
    images: Seq<EntryView>,
    prints: Seq<Option<ImagePrint>>,
    n: nat,
    i: int,
    p: ImagePrint,
)
    requires
        0 <= i < n,
        prints[i] == Some(p),
    ensures
        image_prints(images, prints, n).contains(
            ImageView { entry: images[i], hash: p.hash, w: p.w, h: p.h },
        ),
    decreases n,
{
    let v = ImageView { entry: images[i], hash: p.hash, w: p.w, h: p.h };
    let all = image_prints(images, prints, n);
    if i == n - 1 {
        assert(all[all.len() - 1] == v);
    } else {
        lemma_image_print_in(images, prints, (n - 1) as nat, i, p);
        let some = image_prints(images, prints, (n - 1) as nat);
        let k = choose|k: int| 0 <= k < some.len() && some[k] == v;
        assert(all[k] == v);
    }
}

/// Every video whose fingerprint is cached, or was asked for and is there, takes
/// part in the comparison, with its own file, size, duration and frames.
pub proof fn lemma_video_takes_part(
    videos: Seq<EntryView>,
    hits: Seq<Option<PrintView>>,
    infos: Seq<Option<MediaView>>,
    fresh: Seq<Option<PrintView>>,
    i: int,
    p: PrintView,
)
    requires
        hits.len() == videos.len(),
        0 <= i < videos.len(),
        hits[i] == Some(p) || (video_wanted(hits, infos, i) && fresh[i] == Some(p)),
    ensures
        video_pool(videos, hits, infos, fresh).contains(
            VideoView {
                entry: videos[i],
                w: p.w,
                h: p.h,
                duration_ms: p.duration_ms,
                frames: p.frames,
            },
        ),
{
    let prints = known_videos(hits, infos, fresh);
    assert(prints[i] == Some(p));
    lemma_video_print_in(videos, prints, videos.len(), i, p);
}

proof fn lemma_video_print_in(
    videos: Seq<EntryView>,
    prints: Seq<Option<PrintView>>,
    n: nat,
    i: int,
    p: PrintView,
)
    requires
        0 <= i < n,
        prints[i] == Some(p),
    ensures
        video_prints(videos, prints, n).contains(
            VideoView {
                entry: videos[i],
                w: p.w,
                h: p.h,
                duration_ms: p.duration_ms,
                frames: p.frames,
            },
        ),
    decreases n,
{
    let v = VideoView {
        entry: videos[i],
        w: p.w,
        h: p.h,
        duration_ms: p.duration_ms,
        frames: p.frames,
    };
    let all = video_prints(videos, prints, n);
    if i == n - 1 {
        assert(all[all.len() - 1] == v);
    } else {
        lemma_video_print_in(videos, prints, (n - 1) as nat, i, p);
        let some = video_prints(videos, prints, (n - 1) as nat);
        let k = choose|k: int| 0 <= k < some.len() && some[k] == v;
        assert(all[k] == v);
    }
}

/// Every new fingerprint of a file whose modification time is known is to be
/// cached, under the file's path, with its size and that time.
pub proof fn lemma_print_is_written(
    files: Seq<EntryView>,
    fps: Seq<Option<FpView>>,
    n: nat,
    i: int,
    fp: FpView,
    t: i64,
)
    requires
        0 <= i < n,
        fps[i] == Some(fp),
        files[i].mtime_secs == Some(t),
    ensures
        fp_writes(files, fps, n).contains(
            StoredView {
                path: files[i].path,
                stamp: StampView { size: files[i].size, mtime_secs: t, fp },
            },
        ),
    decreases n,
{
    let v = StoredView {
        path: files[i].path,
        stamp: StampView { size: files[i].size, mtime_secs: t, fp },
    };
    let all = fp_writes(files, fps, n);
    if i == n - 1 {
        assert(all[all.len() - 1] == v);
    } else {
        lemma_print_is_written(files, fps, (n - 1) as nat, i, fp, t);
        let some = fp_writes(files, fps, (n - 1) as nat);
        let k = choose|k: int| 0 <= k < some.len() && some[k] == v;
        assert(all[k] == v);
    }
}

/// Nothing else is to be cached.
pub proof fn lemma_written_is_print(
    files: Seq<EntryView>,
    fps: Seq<Option<FpView>>,
    n: nat,
    k: int,
)
    requires
        0 <= k < fp_writes(files, fps, n).len(),
    ensures
        exists|i: int|
            0 <= i < n && #[trigger] fps[i] == Some(fp_writes(files, fps, n)[k].stamp.fp)
                && files[i].mtime_secs == Some(fp_writes(files, fps, n)[k].stamp.mtime_secs)
                && files[i].size == fp_writes(files, fps, n)[k].stamp.size && files[i].path
                == fp_writes(files, fps, n)[k].path,
    decreases n,
{
    let all = fp_writes(files, fps, n);
    if n > 0 {
        let m = (n - 1) as nat;
        let some = fp_writes(files, fps, m);
        if k < some.len() {
            assert(all[k] == some[k]);
            lemma_written_is_print(files, fps, m, k);
            let i = choose|i: int|
                0 <= i < m && #[trigger] fps[i] == Some(some[k].stamp.fp) && files[i].mtime_secs
                    == Some(some[k].stamp.mtime_secs) && files[i].size == some[k].stamp.size
                    && files[i].path == some[k].path;
            assert(fps[i] == Some(all[k].stamp.fp));
        } else {
            assert(fps[n - 1] == Some(all[k].stamp.fp));
        }
    }
}

/// A cached fingerprint is used for an image only where it is that of an image,
/// and for a video only where it is that of a video, as it was stored.
pub proof fn lemma_cached_kinds(
    stored: Map<Seq<PartView>, StoredView>,
    e: EntryView,
    w: u32,
    h: u32,
    hash: u64,
    ms: u64,
    frames: Seq<u64>,
)
    ensures
        ({
            let found = cache::valid_fp(stored, e.path, e.size, e.mtime_secs);
            &&& found is None ==> cached_image(stored, e) is None && cached_video(stored, e) is None
            &&& found == Some(FpView::Image { w, h, hash }) ==> cached_image(stored, e) == Some(
                ImagePrint { w, h, hash },
            ) && cached_video(stored, e) is None
            &&& found == Some(FpView::Video { w, h, duration_ms: ms, frames }) ==> cached_video(
                stored,
                e,
            ) == Some(PrintView { w, h, duration_ms: ms, frames }) && cached_image(
                stored,
                e,
            ) is None
        }),
{
}

/// What was not asked for does not take part: of an image that is neither cached
/// nor has to be fingerprinted no fingerprint is known, whatever there is.
pub proof fn lemma_not_asked_is_unknown(
    hits: Seq<Option<ImagePrint>>,
    sizes: Seq<Option<(u32, u32)>>,
    fresh: Seq<Option<ImagePrint>>,
    prints: Seq<Option<PrintView>>,
    infos: Seq<Option<MediaView>>,
    found: Seq<Option<PrintView>>,
    i: int,
)
    ensures
        0 <= i < hits.len() && hits[i] is None && !image_wanted(hits, sizes, i) ==> known_images(
            hits,
            sizes,
            fresh,
        )[i] is None,
        0 <= i < hits.len() && hits[i] is Some ==> known_images(hits, sizes, fresh)[i] == hits[i],
        0 <= i < prints.len() && prints[i] is None && !video_wanted(prints, infos, i)
            ==> known_videos(prints, infos, found)[i] is None,
        0 <= i < prints.len() && prints[i] is Some ==> known_videos(prints, infos, found)[i]
            == prints[i],
{
}

/// The groups of similar images come first, then those of similar videos.
pub proof fn lemma_images_first(
    images: Seq<ImageView>,
    videos: Seq<VideoView>,
    threshold: Float,
    groups: Seq<SimilarGroupView>,
    i: int,
    j: int,
)
    requires
        are_similar_groups(images, videos, threshold, groups),
        0 <= i < j < groups.len(),
    ensures
        groups[i].kind == MediaKind::Image || groups[i].kind == MediaKind::Video,
        groups[i].kind == MediaKind::Video ==> groups[j].kind == MediaKind::Video,
{
    let (a, b) = choose|a: Seq<SimilarGroupView>, b: Seq<SimilarGroupView>|
        #[trigger] are_image_groups(images, threshold, a) && #[trigger] are_video_groups(
            videos,
            threshold,
            b,
        ) && groups == a + b;
    lemma_group_kinds(images, videos, threshold, a, b, i);
    lemma_group_kinds(images, videos, threshold, a, b, j);
}

proof fn lemma_group_kinds(
    images: Seq<ImageView>,
    videos: Seq<VideoView>,
    threshold: Float,
    a: Seq<SimilarGroupView>,
    b: Seq<SimilarGroupView>,
    i: int,
)
    requires
        are_image_groups(images, threshold, a),
        are_video_groups(videos, threshold, b),
        0 <= i < a.len() + b.len(),
    ensures
        i < a.len() ==> (a + b)[i].kind == MediaKind::Image,
        i >= a.len() ==> (a + b)[i].kind == MediaKind::Video,
{
    if i < a.len() {
        lemma_image_kind(images, threshold, a, i);
    } else {
        lemma_video_kind(videos, threshold, b, i - a.len());
    }
}

proof fn lemma_image_kind(
    pool: Seq<ImageView>,
    threshold: Float,
    groups: Seq<SimilarGroupView>,
    g: int,
)
    requires
        are_image_groups(pool, threshold, groups),
        0 <= g < groups.len(),
    ensures
        groups[g].kind == MediaKind::Image,
{
}

proof fn lemma_video_kind(
    pool: Seq<VideoView>,
    threshold: Float,
    groups: Seq<SimilarGroupView>,
    g: int,
)
    requires
        are_video_groups(pool, threshold, groups),
        0 <= g < groups.len(),
    ensures
        groups[g].kind == MediaKind::Video,
{
}

/// The file is in one of the groups.
pub open spec fn is_grouped(groups: Seq<SimilarGroupView>, e: EntryView) -> bool {
    exists|g: int, k: int|
        0 <= g < groups.len() && 0 <= k < groups[g].members.len()
            && #[trigger] groups[g].members[k].entry == e
}

proof fn lemma_grouped_in_sum(
    a: Seq<SimilarGroupView>,
    b: Seq<SimilarGroupView>,
    e: EntryView,
)
    ensures
        is_grouped(a, e) || is_grouped(b, e) ==> is_grouped(a + b, e),
{
    let all = a + b;
    if is_grouped(a, e) {
        let (g, k) = choose|g: int, k: int|
            0 <= g < a.len() && 0 <= k < a[g].members.len() && #[trigger] a[g].members[k].entry
                == e;
        assert(all[g] == a[g]);
        assert(all[g].members[k].entry == e);
    } else if is_grouped(b, e) {
        let (g, k) = choose|g: int, k: int|
            0 <= g < b.len() && 0 <= k < b[g].members.len() && #[trigger] b[g].members[k].entry
                == e;
        assert(all[a.len() + g] == b[g]);
        assert(all[a.len() + g].members[k].entry == e);
    }
}

/// A search misses no pair: of two images with the same aspect ratio that are as
/// alike as the threshold asks, at least one is in one of the groups found.
pub proof fn lemma_search_finds_images(
    images: Seq<ImageView>,
    videos: Seq<VideoView>,
    threshold: Float,
    groups: Seq<SimilarGroupView>,
    i: int,
    j: int,
)
    requires
        are_similar_groups(images, videos, threshold, groups),
        images.len() <= usize::MAX,
        0 <= i < images.len(),
        0 <= j < images.len(),
        i != j,
        similar::aspect_of(images[i].w, images[i].h) == similar::aspect_of(
            images[j].w,
            images[j].h,
        ),
        binary64::float_ge(fingerprint::likeness(images[i].hash, images[j].hash), threshold),
    ensures
        is_grouped(groups, images[i].entry) || is_grouped(groups, images[j].entry),
{
    lemma_images_like(images, threshold, i, j);
    lemma_sum_finds_images(
        images,
        videos,
        threshold,
        groups,
        similar::image_likes(images, threshold),
        i,
        j,
    );
}

proof fn lemma_sum_finds_images(
    images: Seq<ImageView>,
    videos: Seq<VideoView>,
    threshold: Float,
    groups: Seq<SimilarGroupView>,
    like: spec_fn(usize, usize) -> bool,
    i: int,
    j: int,
)
    requires
        are_similar_groups(images, videos, threshold, groups),
        images.len() <= usize::MAX,
        0 <= i < images.len(),
        0 <= j < images.len(),
        i != j,
        similar::aspect_of(images[i].w, images[i].h) == similar::aspect_of(
            images[j].w,
            images[j].h,
        ),
        like == similar::image_likes(images, threshold),
        like(i as usize, j as usize),
        like(j as usize, i as usize),
    ensures
        is_grouped(groups, images[i].entry) || is_grouped(groups, images[j].entry),
{
    let (a, b) = choose|a: Seq<SimilarGroupView>, b: Seq<SimilarGroupView>|
        #[trigger] are_image_groups(images, threshold, a) && #[trigger] are_video_groups(
            videos,
            threshold,
            b,
        ) && groups == a + b;
    lemma_like_images_grouped(images, threshold, a, like, i, j);
    lemma_grouped_in_sum(a, b, images[i].entry);
    lemma_grouped_in_sum(a, b, images[j].entry);
}

/// The same of videos: of two with the same resolution and close durations, each
/// of which is as like the other as the threshold asks, at least one is in one
/// of the groups found.
pub proof fn lemma_search_finds_videos(
    images: Seq<ImageView>,
    videos: Seq<VideoView>,
    threshold: Float,
    groups: Seq<SimilarGroupView>,
    i: int,
    j: int,
)
    requires
        are_similar_groups(images, videos, threshold, groups),
        videos.len() <= usize::MAX,
        0 <= i < videos.len(),
        0 <= j < videos.len(),
        i != j,
        videos[i].w == videos[j].w,
        videos[i].h == videos[j].h,
        video::durations_near(videos[i].duration_ms, videos[j].duration_ms),
        binary64::float_ge(
            fingerprint::sequence_likeness(videos[i].frames, videos[j].frames, 2),
            threshold,
        ),
        binary64::float_ge(
            fingerprint::sequence_likeness(videos[j].frames, videos[i].frames, 2),
            threshold,
        ),
    ensures
        is_grouped(groups, videos[i].entry) || is_grouped(groups, videos[j].entry),
{
    lemma_videos_like(videos, threshold, i, j);
    lemma_sum_finds_videos(
        images,
        videos,
        threshold,
        groups,
        video::video_likes(videos, threshold),
        i,
        j,
    );
}

proof fn lemma_sum_finds_videos(
    images: Seq<ImageView>,
    videos: Seq<VideoView>,
    threshold: Float,
    groups: Seq<SimilarGroupView>,
    like: spec_fn(usize, usize) -> bool,
    i: int,
    j: int,
)
    requires
        are_similar_groups(images, videos, threshold, groups),
        videos.len() <= usize::MAX,
        0 <= i < videos.len(),
        0 <= j < videos.len(),
        i != j,
        videos[i].w == videos[j].w,
        videos[i].h == videos[j].h,
        like == video::video_likes(videos, threshold),
        like(i as usize, j as usize),
        like(j as usize, i as usize),
    ensures
        is_grouped(groups, videos[i].entry) || is_grouped(groups, videos[j].entry),
{
    let (a, b) = choose|a: Seq<SimilarGroupView>, b: Seq<SimilarGroupView>|
        #[trigger] are_image_groups(images, threshold, a) && #[trigger] are_video_groups(
            videos,
            threshold,
            b,
        ) && groups == a + b;
    lemma_like_videos_grouped(videos, threshold, b, like, i, j);
    lemma_grouped_in_sum(a, b, videos[i].entry);
    lemma_grouped_in_sum(a, b, videos[j].entry);
}

} // verus!
