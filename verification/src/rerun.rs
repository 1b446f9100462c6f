//! What a later run finds that has the fingerprints of an earlier one in its
//! cache.

use crate::binary64::Float;
use crate::bucket;
use crate::cache;
use crate::cache::{FpView, StoredView};
use crate::cluster;
use crate::matching;
use crate::media::MediaView;
use crate::path::PartView;
use crate::path_table;
use crate::scan;
use crate::scan::EntryView;
use crate::search;
use crate::search::{ImagePrint, ImageSearch, PrintView, VideoSearch};
use crate::similar;
use crate::similar::{ImageView, SimilarGroupView};
use crate::video;
use crate::video::VideoView;
use vstd::prelude::*;

verus! {

/// The position of the file that a write belongs to.
proof fn write_at(files: Seq<EntryView>, fps: Seq<Option<FpView>>, n: nat, k: int) -> (a: int)
    requires
        0 <= k < search::fp_writes(files, fps, n).len(),
    ensures
        0 <= a < n,
        fps[a] is Some,
        files[a].mtime_secs is Some,
        search::fp_writes(files, fps, n)[k].path == files[a].path,
        search::fp_writes(files, fps, n)[k].stamp.size == files[a].size,
        Some(search::fp_writes(files, fps, n)[k].stamp.mtime_secs) == files[a].mtime_secs,
        Some(search::fp_writes(files, fps, n)[k].stamp.fp) == fps[a],
    decreases n,
{
    if k < search::fp_writes(files, fps, (n - 1) as nat).len() {
        write_at(files, fps, (n - 1) as nat, k)
    } else {
        n - 1
    }
}

/// The write that belongs to a file.
proof fn write_of(files: Seq<EntryView>, fps: Seq<Option<FpView>>, n: nat, a: int) -> (k: int)
    requires
        0 <= a < n,
        fps[a] is Some,
        files[a].mtime_secs is Some,
    ensures
        0 <= k < search::fp_writes(files, fps, n).len(),
        search::fp_writes(files, fps, n)[k].path == files[a].path,
        search::fp_writes(files, fps, n)[k].stamp.size == files[a].size,
        Some(search::fp_writes(files, fps, n)[k].stamp.mtime_secs) == files[a].mtime_secs,
        Some(search::fp_writes(files, fps, n)[k].stamp.fp) == fps[a],
    decreases n,
{
    let before = search::fp_writes(files, fps, (n - 1) as nat);
    if a < n - 1 {
        write_of(files, fps, (n - 1) as nat, a)
    } else {
        before.len() as int
    }
}

proof fn lemma_writes_differ(
    files: Seq<EntryView>,
    fps: Seq<Option<FpView>>,
    n: nat,
    i: int,
    j: int,
)
    requires
        n <= files.len(),
        path_table::distinct_paths(scan::entry_paths(files)),
        0 <= i < j < search::fp_writes(files, fps, n).len(),
    ensures
        !search::fp_writes(files, fps, n)[i].path.same(search::fp_writes(files, fps, n)[j].path),
    decreases n,
{
    let before = search::fp_writes(files, fps, (n - 1) as nat);
    if j < before.len() {
        lemma_writes_differ(files, fps, (n - 1) as nat, i, j);
    } else {
        let a = write_at(files, fps, (n - 1) as nat, i);
        let paths = scan::entry_paths(files);
        assert(!paths[a].same(paths[n - 1]));
    }
}

/// Once the fingerprints of some files have been written to a cache, it serves
/// for each of these files its fingerprint, or, where none was written, what it
/// served before.
proof fn lemma_reread(
    stored: Map<Seq<PartView>, StoredView>,
    files: Seq<EntryView>,
    fps: Seq<Option<FpView>>,
    a: int,
)
    requires
        path_table::distinct_paths(scan::entry_paths(files)),
        0 <= a < files.len(),
    ensures
        cache::valid_fp(
            cache::put_each(stored, search::fp_writes(files, fps, files.len())),
            files[a].path,
            files[a].size,
            files[a].mtime_secs,
        ) == if fps[a] is Some && files[a].mtime_secs is Some {
            fps[a]
        } else {
            cache::valid_fp(stored, files[a].path, files[a].size, files[a].mtime_secs)
        },
{
    let n = files.len();
    let writes = search::fp_writes(files, fps, n);
    let e = files[a];
    assert forall|i: int, j: int| 0 <= i < j < writes.len() implies !(
    #[trigger] writes[i]).path.same((#[trigger] writes[j]).path) by {
        lemma_writes_differ(files, fps, n, i, j);
    }
    cache::lemma_each_is_served(stored, writes, e.path, e.size, e.mtime_secs);
    if fps[a] is Some && e.mtime_secs is Some {
        let k = write_of(files, fps, n, a);
        assert(writes[k].path.same(e.path));
    } else {
        assert forall|k: int| 0 <= k < writes.len() implies !(#[trigger] writes[k]).path.same(
            e.path,
        ) by {
            let b = write_at(files, fps, n, k);
            let paths = scan::entry_paths(files);
            if b < a {
                assert(!paths[b].same(paths[a]));
            } else {
                assert(!paths[a].same(paths[b]));
            }
        }
    }
}

/// What is to be cached of two lists of files is what is to be cached of both
/// together.
proof fn lemma_join_writes(
    first: Seq<EntryView>,
    a: Seq<Option<FpView>>,
    last: Seq<EntryView>,
    b: Seq<Option<FpView>>,
    n: nat,
)
    requires
        a.len() == first.len(),
        b.len() == last.len(),
        n <= last.len(),
    ensures
        search::fp_writes(first + last, a + b, first.len() + n) == search::fp_writes(
            first,
            a,
            first.len(),
        ) + search::fp_writes(last, b, n),
    decreases n,
{
    let files = first + last;
    let fps = a + b;
    let whole = search::fp_writes(first, a, first.len());
    if n == 0 {
        lemma_same_writes(first, a, files, fps, first.len());
        assert(whole + search::fp_writes(last, b, 0) =~= whole);
    } else {
        lemma_join_writes(first, a, last, b, (n - 1) as nat);
        let i = first.len() + n - 1;
        assert(files[i] == last[n - 1] && fps[i] == b[n - 1]);
        assert(search::fp_writes(files, fps, first.len() + n) =~= whole + search::fp_writes(
            last,
            b,
            n,
        ));
    }
}

proof fn lemma_same_writes(
    files: Seq<EntryView>,
    fps: Seq<Option<FpView>>,
    more_files: Seq<EntryView>,
    more_fps: Seq<Option<FpView>>,
    n: nat,
)
    requires
        n <= files.len() <= more_files.len(),
        n <= fps.len() <= more_fps.len(),
        forall|i: int| 0 <= i < n ==> #[trigger] files[i] == more_files[i],
        forall|i: int| 0 <= i < n ==> #[trigger] fps[i] == more_fps[i],
    ensures
        search::fp_writes(files, fps, n) == search::fp_writes(more_files, more_fps, n),
    decreases n,
{
    if n > 0 {
        lemma_same_writes(files, fps, more_files, more_fps, (n - 1) as nat);
        assert(files[n - 1] == more_files[n - 1] && fps[n - 1] == more_fps[n - 1]);
    }
}

/// Where nothing is to be cached of any file there are no writes.
proof fn lemma_no_writes(files: Seq<EntryView>, fps: Seq<Option<FpView>>, n: nat)
    requires
        forall|i: int|
            0 <= i < n ==> (#[trigger] fps[i]) is None || files[i].mtime_secs is None,
    ensures
        search::fp_writes(files, fps, n) == Seq::<StoredView>::empty(),
    decreases n,
{
    if n > 0 {
        lemma_no_writes(files, fps, (n - 1) as nat);
        assert(fps[n - 1] is None || files[n - 1].mtime_secs is None);
    }
}

/// What a cache serves after a run: what it served before, and what the run
/// wrote to it.
pub open spec fn serves_image(
    image: EntryView,
    hit: Option<ImagePrint>,
    asked: Option<ImagePrint>,
) -> Option<ImagePrint> {
    if asked is Some && image.mtime_secs is Some {
        asked
    } else {
        hit
    }
}

/// What a cache serves after a run: what it served before, and what the run
/// wrote to it.
pub open spec fn serves_video(
    video: EntryView,
    hit: Option<PrintView>,
    asked: Option<PrintView>,
) -> Option<PrintView> {
    if asked is Some && video.mtime_secs is Some {
        asked
    } else {
        hit
    }
}

/// The images that were fingerprinted have the aspect ratio in their headers.
pub open spec fn headers_agree(
    hits: Seq<Option<ImagePrint>>,
    sizes: Seq<Option<(u32, u32)>>,
    fresh: Seq<Option<ImagePrint>>,
) -> bool {
    forall|i: int|
        0 <= i < hits.len() ==> (#[trigger] search::asked_images(hits, sizes, fresh)[i] matches Some(
            p,
        ) ==> (sizes[i] matches Some(s) && similar::aspect_of(p.w, p.h) == similar::aspect_of(
            s.0,
            s.1,
        )))
}

/// Images that a later run has to look at are as they were.
pub open spec fn images_unchanged(
    again: Seq<Option<ImagePrint>>,
    sizes: Seq<Option<(u32, u32)>>,
    fresh: Seq<Option<ImagePrint>>,
    later_sizes: Seq<Option<(u32, u32)>>,
    later_fresh: Seq<Option<ImagePrint>>,
) -> bool {
    forall|i: int|
        0 <= i < again.len() && (#[trigger] again[i]) is None ==> later_sizes[i] == sizes[i]
            && later_fresh[i] == fresh[i]
}

proof fn lemma_images_again(
    images: Seq<EntryView>,
    hits: Seq<Option<ImagePrint>>,
    sizes: Seq<Option<(u32, u32)>>,
    fresh: Seq<Option<ImagePrint>>,
    again: Seq<Option<ImagePrint>>,
    later_sizes: Seq<Option<(u32, u32)>>,
    later_fresh: Seq<Option<ImagePrint>>,
)
    requires
        hits.len() == images.len(),
        again.len() == images.len(),
        forall|i: int|
            0 <= i < images.len() ==> #[trigger] again[i] == serves_image(
                images[i],
                hits[i],
                search::asked_images(hits, sizes, fresh)[i],
            ),
        headers_agree(hits, sizes, fresh),
        images_unchanged(again, sizes, fresh, later_sizes, later_fresh),
    ensures
        search::known_images(again, later_sizes, later_fresh) == search::known_images(
            hits,
            sizes,
            fresh,
        ),
        search::image_writes(
            images,
            search::asked_images(again, later_sizes, later_fresh),
            images.len(),
        ) == Seq::<StoredView>::empty(),
{
    let n = images.len();
    let asked = search::asked_images(hits, sizes, fresh);
    let later = search::asked_images(again, later_sizes, later_fresh);
    let ids = search::header_idents(hits, sizes);
    let later_ids = search::header_idents(again, later_sizes);
    assert forall|i: int| 0 <= i < n implies later_ids[i] == ids[i] by {
        assert(again[i] == serves_image(images[i], hits[i], asked[i]));
        assert(asked[i] is Some ==> hits[i] is None);
    }
    assert(later_ids =~= ids);
    assert forall|i: int| 0 <= i < n implies #[trigger] later[i] == if again[i] is None {
        asked[i]
    } else {
        None
    } by {
        assert(again[i] == serves_image(images[i], hits[i], asked[i]));
        assert(search::image_wanted(again, later_sizes, i) <==> again[i] is None
            && bucket::has_twin(ids, i));
    }
    assert(search::known_images(again, later_sizes, later_fresh) =~= search::known_images(
        hits,
        sizes,
        fresh,
    )) by {
        assert forall|i: int| 0 <= i < n implies search::known_images(
            again,
            later_sizes,
            later_fresh,
        )[i] == search::known_images(hits, sizes, fresh)[i] by {
            assert(again[i] == serves_image(images[i], hits[i], asked[i]));
            assert(asked[i] is Some ==> hits[i] is None);
        }
    }
    let fps = search::image_fps(later);
    assert forall|i: int| 0 <= i < n implies (#[trigger] fps[i]) is None || images[i].mtime_secs
        is None by {
        assert(again[i] == serves_image(images[i], hits[i], asked[i]));
        assert(later[i] is Some ==> again[i] is None && asked[i] is Some);
    }
    lemma_no_writes(images, fps, n);
}

/// A video that was fingerprinted has the size and duration that its probe
/// found. Where the probe found no size, no other probe found the size that the
/// fingerprint has: one without a size.
pub open spec fn probe_agrees(infos: Seq<Option<MediaView>>, i: int, p: PrintView) -> bool {
    match search::known_size(None, infos[i]) {
        Some(size) => size == (p.w, p.h) && search::known_duration(None, infos[i]) == Some(
            p.duration_ms,
        ),
        None => forall|j: int|
            0 <= j < infos.len() ==> search::known_size(None, #[trigger] infos[j]) != Some(
                (p.w, p.h),
            ),
    }
}

/// The videos that were fingerprinted agree with what probing found.
pub open spec fn probes_agree(
    hits: Seq<Option<PrintView>>,
    infos: Seq<Option<MediaView>>,
    fresh: Seq<Option<PrintView>>,
) -> bool {
    forall|i: int|
        0 <= i < hits.len() ==> (#[trigger] search::asked_videos(hits, infos, fresh)[i] matches Some(
            p,
        ) ==> probe_agrees(infos, i, p))
}

/// Videos that a later run has to look at are as they were.
pub open spec fn videos_unchanged(
    again: Seq<Option<PrintView>>,
    infos: Seq<Option<MediaView>>,
    fresh: Seq<Option<PrintView>>,
    later_infos: Seq<Option<MediaView>>,
    later_fresh: Seq<Option<PrintView>>,
) -> bool {
    forall|i: int|
        0 <= i < again.len() && (#[trigger] again[i]) is None ==> later_infos[i] == infos[i]
            && later_fresh[i] == fresh[i]
}

/// A video that is still not cached has the same partners as before.
proof fn lemma_partners_again(
    videos: Seq<EntryView>,
    hits: Seq<Option<PrintView>>,
    infos: Seq<Option<MediaView>>,
    fresh: Seq<Option<PrintView>>,
    again: Seq<Option<PrintView>>,
    later_infos: Seq<Option<MediaView>>,
    later_fresh: Seq<Option<PrintView>>,
    i: int,
    j: int,
)
    requires
        hits.len() == videos.len(),
        infos.len() == videos.len(),
        again.len() == videos.len(),
        forall|i: int|
            0 <= i < videos.len() ==> #[trigger] again[i] == serves_video(
                videos[i],
                hits[i],
                search::asked_videos(hits, infos, fresh)[i],
            ),
        probes_agree(hits, infos, fresh),
        videos_unchanged(again, infos, fresh, later_infos, later_fresh),
        0 <= i < videos.len(),
        0 <= j < videos.len(),
        again[i] is None,
    ensures
        search::partners(again, later_infos, i, j) == search::partners(hits, infos, i, j),
{
    let asked = search::asked_videos(hits, infos, fresh);
    assert(again[i] == serves_video(videos[i], hits[i], asked[i]));
    assert(again[j] == serves_video(videos[j], hits[j], asked[j]));
    assert(asked[i] is Some ==> hits[i] is None);
    assert(asked[j] is Some ==> hits[j] is None);
    if again[j] is Some && hits[j] is None {
        let p = asked[j]->0;
        assert(again[j] == Some(p));
        assert(probe_agrees(infos, j, p));
        assert(search::known_size(None, infos[i]) == search::known_size(hits[i], infos[i]));
    }
}

proof fn lemma_wanted_again(
    videos: Seq<EntryView>,
    hits: Seq<Option<PrintView>>,
    infos: Seq<Option<MediaView>>,
    fresh: Seq<Option<PrintView>>,
    again: Seq<Option<PrintView>>,
    later_infos: Seq<Option<MediaView>>,
    later_fresh: Seq<Option<PrintView>>,
    i: int,
)
    requires
        hits.len() == videos.len(),
        infos.len() == videos.len(),
        again.len() == videos.len(),
        forall|i: int|
            0 <= i < videos.len() ==> #[trigger] again[i] == serves_video(
                videos[i],
                hits[i],
                search::asked_videos(hits, infos, fresh)[i],
            ),
        probes_agree(hits, infos, fresh),
        videos_unchanged(again, infos, fresh, later_infos, later_fresh),
        0 <= i < videos.len(),
        again[i] is None,
    ensures
        search::video_wanted(again, later_infos, i) == search::video_wanted(hits, infos, i),
{
    let n = videos.len();
    assert(again[i] == serves_video(
        videos[i],
        hits[i],
        search::asked_videos(hits, infos, fresh)[i],
    ));
    assert forall|j: int| 0 <= j < n implies search::partners(again, later_infos, i, j)
        == search::partners(hits, infos, i, j) by {
        lemma_partners_again(
            videos,
            hits,
            infos,
            fresh,
            again,
            later_infos,
            later_fresh,
            i,
            j,
        );
    }
    if exists|j: int| 0 <= j < n && #[trigger] search::partners(again, later_infos, i, j) {
        let j = choose|j: int| 0 <= j < n && #[trigger] search::partners(again, later_infos, i, j);
        assert(search::partners(hits, infos, i, j));
    }
    if exists|j: int| 0 <= j < n && #[trigger] search::partners(hits, infos, i, j) {
        let j = choose|j: int| 0 <= j < n && #[trigger] search::partners(hits, infos, i, j);
        assert(search::partners(again, later_infos, i, j));
    }
}

proof fn lemma_videos_again(
    videos: Seq<EntryView>,
    hits: Seq<Option<PrintView>>,
    infos: Seq<Option<MediaView>>,
    fresh: Seq<Option<PrintView>>,
    again: Seq<Option<PrintView>>,
    later_infos: Seq<Option<MediaView>>,
    later_fresh: Seq<Option<PrintView>>,
)
    requires
        hits.len() == videos.len(),
        infos.len() == videos.len(),
        again.len() == videos.len(),
        forall|i: int|
            0 <= i < videos.len() ==> #[trigger] again[i] == serves_video(
                videos[i],
                hits[i],
                search::asked_videos(hits, infos, fresh)[i],
            ),
        probes_agree(hits, infos, fresh),
        videos_unchanged(again, infos, fresh, later_infos, later_fresh),
    ensures
        search::known_videos(again, later_infos, later_fresh) == search::known_videos(
            hits,
            infos,
            fresh,
        ),
        search::video_writes(
            videos,
            search::asked_videos(again, later_infos, later_fresh),
            videos.len(),
        ) == Seq::<StoredView>::empty(),
{
    let n = videos.len();
    let asked = search::asked_videos(hits, infos, fresh);
    let later = search::asked_videos(again, later_infos, later_fresh);
    assert forall|i: int| 0 <= i < n implies #[trigger] later[i] == if again[i] is None {
        asked[i]
    } else {
        None
    } by {
        assert(again[i] == serves_video(videos[i], hits[i], asked[i]));
        if again[i] is None {
            lemma_wanted_again(
                videos,
                hits,
                infos,
                fresh,
                again,
                later_infos,
                later_fresh,
                i,
            );
        }
    }
    assert(search::known_videos(again, later_infos, later_fresh) =~= search::known_videos(
        hits,
        infos,
        fresh,
    )) by {
        assert forall|i: int| 0 <= i < n implies search::known_videos(
            again,
            later_infos,
            later_fresh,
        )[i] == search::known_videos(hits, infos, fresh)[i] by {
            assert(again[i] == serves_video(videos[i], hits[i], asked[i]));
            assert(asked[i] is Some ==> hits[i] is None);
            assert(later[i] == if again[i] is None {
                asked[i]
            } else {
                None
            });
        }
    }
    let fps = search::video_fps(later);
    assert forall|i: int| 0 <= i < n implies (#[trigger] fps[i]) is None || videos[i].mtime_secs
        is None by {
        assert(again[i] == serves_video(videos[i], hits[i], asked[i]));
        assert(later[i] == if again[i] is None {
            asked[i]
        } else {
            None
        });
    }
    lemma_no_writes(videos, fps, n);
}

/// The hits of a search for images are what a cache serves.
pub open spec fn images_looked_up(
    s: ImageSearch,
    stored: Map<Seq<PartView>, StoredView>,
) -> bool {
    s.hits@ == scan::entry_views(s.files@).map_values(
        |e: EntryView| search::cached_image(stored, e),
    )
}

/// The hits of a search for videos are what a cache serves.
pub open spec fn videos_looked_up(
    s: VideoSearch,
    stored: Map<Seq<PartView>, StoredView>,
) -> bool {
    search::print_views(s.hits@) == scan::entry_views(s.files@).map_values(
        |e: EntryView| search::cached_video(stored, e),
    )
}

/// A later run over the same files that has in its cache what a run wrote to it,
/// and whatever else was there before. The files are as they were, and
/// fingerprints have the shape that the header of an image, or the probe of a
/// video, gives.
pub open spec fn follows(
    stored: Map<Seq<PartView>, StoredView>,
    images: ImageSearch,
    videos: VideoSearch,
    later_images: ImageSearch,
    later_videos: VideoSearch,
) -> bool {
    &&& images.well_formed()
    &&& videos.well_formed()
    &&& later_images.well_formed()
    &&& later_videos.well_formed()
    &&& path_table::distinct_paths(
        scan::entry_paths(scan::entry_views(images.files@) + scan::entry_views(videos.files@)),
    )
    &&& scan::entry_views(later_images.files@) == scan::entry_views(images.files@)
    &&& scan::entry_views(later_videos.files@) == scan::entry_views(videos.files@)
    &&& images_looked_up(images, stored)
    &&& videos_looked_up(videos, stored)
    &&& images_looked_up(later_images, cache::put_each(stored, images.writes() + videos.writes()))
    &&& videos_looked_up(later_videos, cache::put_each(stored, images.writes() + videos.writes()))
    &&& headers_agree(images.hits@, images.sizes@, images.fresh@)
    &&& probes_agree(
        search::print_views(videos.hits@),
        matching::info_views(videos.infos@),
        search::print_views(videos.fresh@),
    )
    &&& images_unchanged(
        later_images.hits@,
        images.sizes@,
        images.fresh@,
        later_images.sizes@,
        later_images.fresh@,
    )
    &&& videos_unchanged(
        search::print_views(later_videos.hits@),
        matching::info_views(videos.infos@),
        search::print_views(videos.fresh@),
        matching::info_views(later_videos.infos@),
        search::print_views(later_videos.fresh@),
    )
}

proof fn lemma_pool_sizes(images: ImageSearch, videos: VideoSearch)
    requires
        images.well_formed(),
        videos.well_formed(),
    ensures
        images.pool().len() <= images.files@.len(),
        videos.pool().len() <= videos.files@.len(),
{
    let a = scan::entry_views(images.files@);
    lemma_image_prints_len(
        a,
        search::known_images(images.hits@, images.sizes@, images.fresh@),
        a.len(),
    );
    let b = scan::entry_views(videos.files@);
    let known = search::known_videos(
        search::print_views(videos.hits@),
        matching::info_views(videos.infos@),
        search::print_views(videos.fresh@),
    );
    lemma_video_prints_len(b, known, b.len());
}

proof fn lemma_image_prints_len(
    files: Seq<EntryView>,
    prints: Seq<Option<ImagePrint>>,
    n: nat,
)
    ensures
        search::image_prints(files, prints, n).len() <= n,
    decreases n,
{
    if n > 0 {
        lemma_image_prints_len(files, prints, (n - 1) as nat);
    }
}

proof fn lemma_video_prints_len(files: Seq<EntryView>, prints: Seq<Option<PrintView>>, n: nat)
    ensures
        search::video_prints(files, prints, n).len() <= n,
    decreases n,
{
    if n > 0 {
        lemma_video_prints_len(files, prints, (n - 1) as nat);
    }
}

/// A later run that has in its cache what a run wrote to it, whatever the cache
/// held before, compares the same files by the same fingerprints, finds the same
/// groups, and has nothing to add to the cache.
pub proof fn lemma_second_run(
    stored: Map<Seq<PartView>, StoredView>,
    images: ImageSearch,
    videos: VideoSearch,
    later_images: ImageSearch,
    later_videos: VideoSearch,
    threshold: Float,
    groups: Seq<SimilarGroupView>,
    later_groups: Seq<SimilarGroupView>,
)
    requires
        follows(stored, images, videos, later_images, later_videos),
        images.files@.len() <= usize::MAX,
        videos.files@.len() <= usize::MAX,
        search::are_similar_groups(images.pool(), videos.pool(), threshold, groups),
        search::are_similar_groups(
            later_images.pool(),
            later_videos.pool(),
            threshold,
            later_groups,
        ),
    ensures
        later_images.pool() == images.pool(),
        later_videos.pool() == videos.pool(),
        later_groups == groups,
        later_images.writes() == Seq::<StoredView>::empty(),
        later_videos.writes() == Seq::<StoredView>::empty(),
{
    lemma_same_pools(stored, images, videos, later_images, later_videos);
    lemma_pool_sizes(images, videos);
    lemma_groups_are_determined(images.pool(), videos.pool(), threshold, groups, later_groups);
}

proof fn lemma_same_pools(
    stored: Map<Seq<PartView>, StoredView>,
    images: ImageSearch,
    videos: VideoSearch,
    later_images: ImageSearch,
    later_videos: VideoSearch,
)
    requires
        follows(stored, images, videos, later_images, later_videos),
    ensures
        later_images.pool() == images.pool(),
        later_videos.pool() == videos.pool(),
        later_images.writes() == Seq::<StoredView>::empty(),
        later_videos.writes() == Seq::<StoredView>::empty(),
{
    let a = scan::entry_views(images.files@);
    let b = scan::entry_views(videos.files@);
    let asked_a = search::asked_images(images.hits@, images.sizes@, images.fresh@);
    let hits_b = search::print_views(videos.hits@);
    let asked_b = search::asked_videos(
        hits_b,
        matching::info_views(videos.infos@),
        search::print_views(videos.fresh@),
    );
    let fps_a = search::image_fps(asked_a);
    let fps_b = search::video_fps(asked_b);
    let after = cache::put_each(stored, images.writes() + videos.writes());
    lemma_join_writes(a, fps_a, b, fps_b, b.len());
    assert(a.len() + b.len() == (a + b).len());
    assert forall|i: int| 0 <= i < a.len() implies #[trigger] later_images.hits@[i]
        == serves_image(a[i], images.hits@[i], asked_a[i]) by {
        lemma_reread(stored, a + b, fps_a + fps_b, i);
        assert((a + b)[i] == a[i] && (fps_a + fps_b)[i] == fps_a[i]);
        assert(later_images.hits@[i] == search::cached_image(after, a[i]));
        assert(images.hits@[i] == search::cached_image(stored, a[i]));
    }
    lemma_images_again(
        a,
        images.hits@,
        images.sizes@,
        images.fresh@,
        later_images.hits@,
        later_images.sizes@,
        later_images.fresh@,
    );
    let later_b = search::print_views(later_videos.hits@);
    assert forall|i: int| 0 <= i < b.len() implies #[trigger] later_b[i] == serves_video(
        b[i],
        hits_b[i],
        asked_b[i],
    ) by {
        let k = a.len() + i;
        lemma_reread(stored, a + b, fps_a + fps_b, k);
        assert((a + b)[k] == b[i] && (fps_a + fps_b)[k] == fps_b[i]);
        assert(later_b[i] == search::cached_video(after, b[i]));
        assert(hits_b[i] == search::cached_video(stored, b[i]));
    }
    lemma_videos_again(
        b,
        hits_b,
        matching::info_views(videos.infos@),
        search::print_views(videos.fresh@),
        later_b,
        matching::info_views(later_videos.infos@),
        search::print_views(later_videos.fresh@),
    );
}

proof fn lemma_image_groups_determined(
    pool: Seq<ImageView>,
    threshold: Float,
    groups: Seq<SimilarGroupView>,
    others: Seq<SimilarGroupView>,
)
    requires
        pool.len() <= usize::MAX,
        search::are_image_groups(pool, threshold, groups),
        search::are_image_groups(pool, threshold, others),
    ensures
        groups == others,
{
    let ids = similar::aspect_idents(pool);
    let p = choose|p: Seq<Vec<usize>>|
        #[trigger] bucket::is_partition(ids, p) && groups == similar::image_groups(
            pool,
            cluster::cluster_views(p),
            threshold,
        );
    let q = choose|q: Seq<Vec<usize>>|
        #[trigger] bucket::is_partition(ids, q) && others == similar::image_groups(
            pool,
            cluster::cluster_views(q),
            threshold,
        );
    bucket::lemma_partition_unique(ids, p, q);
    assert(cluster::cluster_views(p) =~= cluster::cluster_views(q));
}

proof fn lemma_video_groups_determined(
    pool: Seq<VideoView>,
    threshold: Float,
    groups: Seq<SimilarGroupView>,
    others: Seq<SimilarGroupView>,
)
    requires
        pool.len() <= usize::MAX,
        search::are_video_groups(pool, threshold, groups),
        search::are_video_groups(pool, threshold, others),
    ensures
        groups == others,
{
    let ids = video::resolution_idents(pool);
    let p = choose|p: Seq<Vec<usize>>|
        #[trigger] bucket::is_partition(ids, p) && groups == video::video_groups(
            pool,
            cluster::cluster_views(p),
            threshold,
        );
    let q = choose|q: Seq<Vec<usize>>|
        #[trigger] bucket::is_partition(ids, q) && others == video::video_groups(
            pool,
            cluster::cluster_views(q),
            threshold,
        );
    bucket::lemma_partition_unique(ids, p, q);
    assert(cluster::cluster_views(p) =~= cluster::cluster_views(q));
}

/// The groups that are found depend on the fingerprints and the threshold alone.
pub proof fn lemma_groups_are_determined(
    images: Seq<ImageView>,
    videos: Seq<VideoView>,
    threshold: Float,
    groups: Seq<SimilarGroupView>,
    others: Seq<SimilarGroupView>,
)
    requires
        images.len() <= usize::MAX,
        videos.len() <= usize::MAX,
        search::are_similar_groups(images, videos, threshold, groups),
        search::are_similar_groups(images, videos, threshold, others),
    ensures
        groups == others,
{
    let (a, b) = choose|a: Seq<SimilarGroupView>, b: Seq<SimilarGroupView>|
        #[trigger] search::are_image_groups(images, threshold, a)
            && #[trigger] search::are_video_groups(videos, threshold, b) && groups == a + b;
    let (c, d) = choose|c: Seq<SimilarGroupView>, d: Seq<SimilarGroupView>|
        #[trigger] search::are_image_groups(images, threshold, c)
            && #[trigger] search::are_video_groups(videos, threshold, d) && others == c + d;
    lemma_image_groups_determined(images, threshold, a, c);
    lemma_video_groups_determined(videos, threshold, b, d);
}

/// Only what was missing from the cache is written to it: each write of a search
/// for images carries the path, the size and the modification time of a file
/// that was not served, and the fingerprint that it was given.
pub proof fn lemma_image_writes_are_misses(s: ImageSearch, k: int)
    requires
        s.well_formed(),
        0 <= k < s.writes().len(),
    ensures
        exists|i: int|
            {
                let e = #[trigger] scan::entry_views(s.files@)[i];
                let w = s.writes()[k];
                &&& 0 <= i < s.files@.len()
                &&& s.hits@[i] is None
                &&& w.path == e.path
                &&& w.stamp.size == e.size
                &&& e.mtime_secs == Some(w.stamp.mtime_secs)
                &&& s.fresh@[i] matches Some(p) && w.stamp.fp == (FpView::Image {
                    w: p.w,
                    h: p.h,
                    hash: p.hash,
                })
            },
{
    let files = scan::entry_views(s.files@);
    let asked = search::asked_images(s.hits@, s.sizes@, s.fresh@);
    let i = write_at(files, search::image_fps(asked), files.len(), k);
    assert(asked[i] is Some);
    assert(scan::entry_views(s.files@)[i] == files[i]);
}

/// Only what was missing from the cache is written to it: each write of a search
/// for videos carries the path, the size and the modification time of a file
/// that was not served, and the fingerprint that it was given.
pub proof fn lemma_video_writes_are_misses(s: VideoSearch, k: int)
    requires
        s.well_formed(),
        0 <= k < s.writes().len(),
    ensures
        exists|i: int|
            {
                let e = #[trigger] scan::entry_views(s.files@)[i];
                let w = s.writes()[k];
                &&& 0 <= i < s.files@.len()
                &&& s.hits@[i] is None
                &&& w.path == e.path
                &&& w.stamp.size == e.size
                &&& e.mtime_secs == Some(w.stamp.mtime_secs)
                &&& s.fresh@[i] matches Some(p) && w.stamp.fp == (FpView::Video {
                    w: p.w,
                    h: p.h,
                    duration_ms: p.duration_ms,
                    frames: p.frames@,
                })
            },
{
    let files = scan::entry_views(s.files@);
    let hits = search::print_views(s.hits@);
    let fresh = search::print_views(s.fresh@);
    let asked = search::asked_videos(hits, matching::info_views(s.infos@), fresh);
    let i = write_at(files, search::video_fps(asked), files.len(), k);
    assert(asked[i] is Some);
    assert(hits[i] == search::print_view(s.hits@[i]));
    assert(fresh[i] == search::print_view(s.fresh@[i]));
    assert(scan::entry_views(s.files@)[i] == files[i]);
}

} // verus!
