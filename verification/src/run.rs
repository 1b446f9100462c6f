//! What the options of a run ask for, and how its stages fit together.

use crate::accuracy;
use crate::binary64;
use crate::binary64::{Binary64, Float};
use crate::cli::Cli;
use crate::matching;
use crate::matching::{Group, GroupView};
use crate::media;
use crate::media::{classify, MediaKind};
use crate::path::PathView;
use crate::path_table;
use crate::path_table::PathTable;
use crate::report::ScanStats;
use crate::scan;
use crate::scan::{EntryView, FileEntry, ScanResult};
use crate::search;
use crate::search::{ImageSearch, VideoSearch};
use crate::similar::SimilarGroupView;
use crate::util;
use crate::util::{parse_size, SizeError};
use vstd::arithmetic::power2::pow2;
use vstd::prelude::*;

verus! {

/// Why a run cannot start.
#[derive(Debug)]
pub enum RunError {
    /// The similarity is not between 0 and 100.
    Similarity,
    /// The minimum size could not be read.
    MinSize(SizeError),
    /// The maximum size could not be read.
    MaxSize(SizeError),
}

/// What a run does.
pub struct Plan {
    /// How similar media must be to count as duplicated (0..=1).
    pub threshold: Binary64,
    /// The smallest size that is considered.
    pub size_min: u64,
    /// The largest size that is considered; zero stands for none.
    pub size_max: u64,
    /// Progress is shown.
    pub progress: bool,
    /// Similar media is sought.
    pub similar: bool,
    /// The fingerprint cache is read and written.
    pub cache: bool,
}

/// A percentage from 0 to 100.
pub open spec fn in_percent_range(pct: Option<Binary64>) -> bool {
    match pct {
        Some(p) => binary64::float_ge(binary64::nearest(100, 1), p@),
        None => false,
    }
}

/// What a size limit says; none is zero.
pub open spec fn limit_of(raw: Option<String>) -> util::SizeView {
    match raw {
        Some(s) => util::size_of_text(s@),
        None => util::SizeView::Bytes(0),
    }
}

fn read_limit(raw: &Option<String>) -> (r: Result<u64, SizeError>)
    ensures
        util::size_view(r) == limit_of(*raw),
{
    match raw {
        Some(s) => parse_size(s.as_str()),
        None => Ok(0),
    }
}

/// Similar media is sought, unless only exact duplicates are wanted.
pub open spec fn seeks_similar(cli: Cli) -> bool {
    !cli.exact
}

/// The fingerprint cache is used: similar media is sought, and the cache is not
/// switched off.
pub open spec fn uses_cache(cli: Cli) -> bool {
    !cli.exact && !cli.no_cache
}

/// Progress is shown: neither silence nor a machine-readable report is asked
/// for.
pub open spec fn shows_progress(cli: Cli) -> bool {
    !cli.quiet && !cli.json
}

/// Plans a run. The similarity must be between 0 and 100 and the size limits
/// must be sizes; the first that is not is reported.
pub fn plan(cli: &Cli) -> (r: Result<Plan, RunError>)
    requires
        cli.similarity matches Some(p) ==> p.moderate(),
    ensures
        match r {
            Ok(plan) => {
                &&& in_percent_range(cli.similarity)
                &&& plan.threshold@ == binary64::float_div(
                    cli.similarity->0@,
                    binary64::nearest(100, 1),
                )
                &&& plan.threshold@.normal()
                &&& limit_of(cli.min_size) == util::SizeView::Bytes(plan.size_min)
                &&& limit_of(cli.max_size) == util::SizeView::Bytes(plan.size_max)
                &&& plan.progress == (!cli.quiet && !cli.json)
                &&& plan.similar == !cli.exact
                &&& plan.cache == (!cli.exact && !cli.no_cache)
                &&& plan.progress == shows_progress(*cli)
                &&& plan.similar == seeks_similar(*cli)
                &&& plan.cache == uses_cache(*cli)
            },
            Err(RunError::Similarity) => !in_percent_range(cli.similarity),
            Err(RunError::MinSize(e)) => in_percent_range(cli.similarity) && limit_of(cli.min_size)
                == util::size_view(Err(e)),
            Err(RunError::MaxSize(e)) => in_percent_range(cli.similarity) && limit_of(
                cli.min_size,
            ) is Bytes && limit_of(cli.max_size) == util::size_view(Err(e)),
        },
{
    let pct = match cli.similarity {
        Some(p) => p,
        None => {
            return Err(RunError::Similarity);
        },
    };
    let hundred = Binary64::from_u64(100);
    if !hundred.at_least(pct) {
        return Err(RunError::Similarity);
    }
    let threshold = pct.div(hundred);
    let size_min = match read_limit(&cli.min_size) {
        Ok(n) => n,
        Err(e) => {
            return Err(RunError::MinSize(e));
        },
    };
    let size_max = match read_limit(&cli.max_size) {
        Ok(n) => n,
        Err(e) => {
            return Err(RunError::MaxSize(e));
        },
    };
    Ok(
        Plan {
            threshold,
            size_min,
            size_max,
            progress: !cli.quiet && !cli.json,
            similar: !cli.exact,
            cache: !cli.exact && !cli.no_cache,
        },
    )
}

/// Output is colored on a terminal, unless colors are switched off.
pub open spec fn is_colored(no_color_set: bool, is_terminal: bool) -> bool {
    is_terminal && !no_color_set
}

/// Colors are enabled only when the output is a terminal and `NO_COLOR` is
/// unset, so redirected or piped output stays plain and parseable.
pub fn colors_enabled(no_color_set: bool, is_terminal: bool) -> (r: bool)
    ensures
        r == (is_terminal && !no_color_set),
        r == is_colored(no_color_set, is_terminal),
{
    is_terminal && !no_color_set
}

/// Some file is of one of the kinds.
pub open spec fn has_kind(entries: Seq<EntryView>, image: bool) -> bool {
    exists|i: int|
        0 <= i < entries.len() && match media::kind_of((#[trigger] entries[i]).path) {
            MediaKind::Video => true,
            MediaKind::Image => image,
            MediaKind::Other => false,
        }
}

/// Tells whether there is any image or video among some files.
pub fn any_media(entries: &Vec<FileEntry>) -> (r: bool)
    ensures
        r == exists|i: int|
            0 <= i < entries@.len() && media::kind_of(
                (#[trigger] scan::entry_views(entries@)[i]).path,
            ) != MediaKind::Other,
        r == has_kind(scan::entry_views(entries@), true),
{
    let ghost views = scan::entry_views(entries@);
    let mut i: usize = 0;
    while i < entries.len()
        invariant
            0 <= i <= entries@.len(),
            views == scan::entry_views(entries@),
            forall|j: int|
                0 <= j < i ==> media::kind_of((#[trigger] views[j]).path) == MediaKind::Other,
        decreases entries@.len() - i,
    {
        assert(views[i as int] == entries@[i as int]@);
        if classify(&entries[i].path) != MediaKind::Other {
            return true;
        }
        i = i + 1;
    }
    false
}

/// Tells whether there is any video among some files.
pub fn any_video(entries: &Vec<FileEntry>) -> (r: bool)
    ensures
        r == exists|i: int|
            0 <= i < entries@.len() && media::kind_of(
                (#[trigger] scan::entry_views(entries@)[i]).path,
            ) == MediaKind::Video,
        r == has_kind(scan::entry_views(entries@), false),
{
    let ghost views = scan::entry_views(entries@);
    let mut i: usize = 0;
    while i < entries.len()
        invariant
            0 <= i <= entries@.len(),
            views == scan::entry_views(entries@),
            forall|j: int|
                0 <= j < i ==> media::kind_of((#[trigger] views[j]).path) != MediaKind::Video,
        decreases entries@.len() - i,
    {
        assert(views[i as int] == entries@[i as int]@);
        if classify(&entries[i].path) == MediaKind::Video {
            return true;
        }
        i = i + 1;
    }
    false
}

/// How many bytes some files have.
pub open spec fn total_size(entries: Seq<EntryView>) -> nat
    decreases entries.len(),
{
    if entries.len() == 0 {
        0
    } else {
        total_size(entries.drop_last()) + entries.last().size as nat
    }
}

proof fn lemma_total_size(entries: Seq<EntryView>, i: int)
    requires
        0 <= i <= entries.len(),
    ensures
        total_size(entries.take(i)) <= total_size(entries),
    decreases entries.len() - i,
{
    if i < entries.len() {
        lemma_total_size(entries, i + 1);
        assert(entries.take(i + 1).drop_last() =~= entries.take(i));
    } else {
        assert(entries.take(i) =~= entries);
    }
}

/// Sums a scan up for the report, and hands out its files.
pub fn scan_stats(scanned: ScanResult) -> (r: (Vec<FileEntry>, ScanStats))
    requires
        total_size(scanned@.entries) <= u64::MAX,
    ensures
        r.0@ == scanned.entries@,
        r.1.files_scanned == scanned@.entries.len(),
        r.1.bytes_scanned == total_size(scanned@.entries),
        r.1.dirs_skipped == scanned.dirs_skipped,
        r.1.files_skipped == scanned.files_skipped,
        r.1.dir_read_errors@ == scanned.dir_read_errors@,
{
    let ghost views = scanned@.entries;
    let mut bytes: u64 = 0;
    let mut i: usize = 0;
    while i < scanned.entries.len()
        invariant
            0 <= i <= scanned.entries@.len(),
            views == scan::entry_views(scanned.entries@),
            total_size(views) <= u64::MAX,
            bytes == total_size(views.take(i as int)),
        decreases scanned.entries@.len() - i,
    {
        proof {
            assert(views.take(i + 1).drop_last() =~= views.take(i as int));
            lemma_total_size(views, i + 1);
        }
        bytes = bytes + scanned.entries[i].size;
        i = i + 1;
    }
    assert(views.take(i as int) =~= views);
    let stats = ScanStats {
        files_scanned: scanned.entries.len(),
        bytes_scanned: bytes,
        dirs_skipped: scanned.dirs_skipped,
        files_skipped: scanned.files_skipped,
        dir_read_errors: scanned.dir_read_errors,
    };
    (scanned.entries, stats)
}

/// The path is that of a file in one of the groups.
pub open spec fn in_groups(groups: Seq<GroupView>, p: PathView) -> bool {
    exists|g: int, m: int|
        0 <= g < groups.len() && 0 <= m < groups[g].members.len() && (
        #[trigger] groups[g].members[m]).path.same(p)
}

/// The files that are in none of the groups.
pub open spec fn outside(entries: Seq<EntryView>, groups: Seq<GroupView>) -> Seq<EntryView>
    decreases entries.len(),
{
    if entries.len() == 0 {
        Seq::empty()
    } else if in_groups(groups, entries.last().path) {
        outside(entries.drop_last(), groups)
    } else {
        outside(entries.drop_last(), groups).push(entries.last())
    }
}

/// The paths in a table are those of the files in some groups.
spec fn holds_paths(table: Seq<PathView>, groups: Seq<GroupView>) -> bool {
    forall|p: PathView| #[trigger] path_table::has_path(table, p) <==> in_groups(groups, p)
}

proof fn lemma_holds_more(
    table: Seq<PathView>,
    groups: Seq<GroupView>,
    more: Seq<PathView>,
    g: GroupView,
)
    requires
        holds_paths(table, groups),
        forall|p: PathView| #[trigger]
            path_table::has_path(more, p) <==> path_table::has_path(table, p) || member_path(g, p),
    ensures
        holds_paths(more, groups.push(g)),
{
    let all = groups.push(g);
    assert forall|p: PathView| #[trigger] path_table::has_path(more, p) <==> in_groups(all, p) by {
        if in_groups(groups, p) {
            let (a, m) = choose|a: int, m: int|
                0 <= a < groups.len() && 0 <= m < groups[a].members.len() && (
                #[trigger] groups[a].members[m]).path.same(p);
            assert(all[a].members[m].path.same(p));
        }
        if member_path(g, p) {
            let m = choose|m: int| 0 <= m < g.members.len() && (#[trigger] g.members[m]).path.same(p);
            assert(all[groups.len() as int].members[m].path.same(p));
        }
        if in_groups(all, p) {
            let (a, m) = choose|a: int, m: int|
                0 <= a < all.len() && 0 <= m < all[a].members.len() && (
                #[trigger] all[a].members[m]).path.same(p);
            if a < groups.len() {
                assert(groups[a].members[m].path.same(p));
            } else {
                assert(g.members[m].path.same(p));
            }
        }
        assert(path_table::has_path(table, p) <==> in_groups(groups, p));
    }
}

/// The path is that of a file in the group.
pub open spec fn member_path(g: GroupView, p: PathView) -> bool {
    exists|m: int| 0 <= m < g.members.len() && (#[trigger] g.members[m]).path.same(p)
}

/// A table with one more path.
proof fn lemma_has_pushed(table: Seq<PathView>, q: PathView)
    ensures
        forall|p: PathView| #[trigger]
            path_table::has_path(table.push(q), p) <==> path_table::has_path(table, p) || q.same(p),
{
    let more = table.push(q);
    assert forall|p: PathView| #[trigger]
        path_table::has_path(more, p) <==> path_table::has_path(table, p) || q.same(p) by {
        if path_table::has_path(table, p) {
            let i = choose|i: int| 0 <= i < table.len() && (#[trigger] table[i]).same(p);
            assert(more[i].same(p));
        }
        if q.same(p) {
            assert(more[table.len() as int].same(p));
        }
        if path_table::has_path(more, p) {
            let i = choose|i: int| 0 <= i < more.len() && (#[trigger] more[i]).same(p);
            if i < table.len() {
                assert(table[i].same(p));
            }
        }
    }
}

/// Adds the paths of a group's files to a table.
fn note_paths(table: &mut PathTable, group: &Group)
    requires
        old(table).well_formed(),
    ensures
        final(table).well_formed(),
        forall|p: PathView| #[trigger]
            path_table::has_path(final(table)@, p) <==> path_table::has_path(old(table)@, p)
                || member_path(group@, p),
{
    let ghost start = table@;
    let ghost members = group@.members;
    let mut m: usize = 0;
    while m < group.members.len()
        invariant
            0 <= m <= group.members@.len(),
            members == group@.members,
            table.well_formed(),
            forall|p: PathView| #[trigger]
                path_table::has_path(table@, p) <==> path_table::has_path(start, p) || (exists|
                    k: int,
                | 0 <= k < m && (#[trigger] members[k]).path.same(p)),
        decreases group.members@.len() - m,
    {
        let ghost before = table@;
        let path = &group.members[m].path;
        assert(members[m as int].path == path@);
        let known = table.contains(path);
        if !known {
            proof {
                lemma_has_pushed(before, path@);
            }
            table.add(path.clone());
        }
        proof {
            let q = path@;
            assert forall|p: PathView| #[trigger]
                path_table::has_path(table@, p) <==> path_table::has_path(start, p) || (exists|
                    k: int,
                | 0 <= k < m + 1 && (#[trigger] members[k]).path.same(p)) by {
                assert(path_table::has_path(before, p) <==> path_table::has_path(start, p) || (
                exists|k: int| 0 <= k < m && (#[trigger] members[k]).path.same(p)));
                if known && q.same(p) {
                    let i = choose|i: int|
                        0 <= i < before.len() && (#[trigger] before[i]).same(q);
                    assert(before[i].same(p));
                }
                if q.same(p) {
                    assert(members[m as int].path.same(p));
                }
                if path_table::has_path(before, p) && !path_table::has_path(start, p) {
                    let k = choose|k: int| 0 <= k < m && (#[trigger] members[k]).path.same(p);
                    assert(members[k].path.same(p));
                }
            }
        }
        m = m + 1;
    }
}

/// The files in which similar media is sought: those that are in no group of
/// exact duplicates.
pub fn similar_candidates(entries: &Vec<FileEntry>, groups: &Vec<Group>) -> (r: Vec<FileEntry>)
    ensures
        scan::entry_views(r@) == outside(
            scan::entry_views(entries@),
            matching::group_views(groups@),
        ),
{
    let ghost views = scan::entry_views(entries@);
    let ghost all = matching::group_views(groups@);
    let mut table = PathTable::new();
    let mut g: usize = 0;
    assert(all.take(0) =~= Seq::empty());
    while g < groups.len()
        invariant
            0 <= g <= groups@.len(),
            all == matching::group_views(groups@),
            table.well_formed(),
            holds_paths(table@, all.take(g as int)),
        decreases groups@.len() - g,
    {
        let ghost before = table@;
        note_paths(&mut table, &groups[g]);
        proof {
            lemma_holds_more(before, all.take(g as int), table@, all[g as int]);
            assert(all.take(g + 1) =~= all.take(g as int).push(all[g as int]));
        }
        g = g + 1;
    }
    assert(all.take(g as int) =~= all);
    let mut out: Vec<FileEntry> = Vec::new();
    let mut i: usize = 0;
    assert(views.take(0) =~= Seq::empty());
    assert(scan::entry_views(out@) =~= Seq::empty());
    while i < entries.len()
        invariant
            0 <= i <= entries@.len(),
            views == scan::entry_views(entries@),
            table.well_formed(),
            holds_paths(table@, all),
            scan::entry_views(out@) == outside(views.take(i as int), all),
        decreases entries@.len() - i,
    {
        let e = &entries[i];
        assert(views.take(i + 1).drop_last() =~= views.take(i as int));
        assert(views.take(i + 1).last() == e@);
        let ghost was = scan::entry_views(out@);
        assert(path_table::has_path(table@, e.path@) <==> in_groups(all, e.path@));
        if !table.contains(&e.path) {
            let copy = e.clone();
            out.push(copy);
            assert(scan::entry_views(out@) =~= was.push(e@));
        }
        i = i + 1;
    }
    assert(views.take(i as int) =~= views);
    out
}

/// No file in which similar media is sought is in a group of exact duplicates,
/// and all of them were scanned.
pub proof fn lemma_candidates_outside(entries: Seq<EntryView>, groups: Seq<GroupView>)
    ensures
        forall|i: int|
            0 <= i < outside(entries, groups).len() ==> {
                &&& !in_groups(groups, (#[trigger] outside(entries, groups)[i]).path)
                &&& entries.contains(outside(entries, groups)[i])
            },
    decreases entries.len(),
{
    if entries.len() > 0 {
        let front = entries.drop_last();
        lemma_candidates_outside(front, groups);
        let out = outside(entries, groups);
        assert forall|i: int| 0 <= i < out.len() implies {
            &&& !in_groups(groups, (#[trigger] out[i]).path)
            &&& entries.contains(out[i])
        } by {
            let before = outside(front, groups);
            if i < before.len() {
                assert(before[i] == out[i]);
                let k = choose|k: int| 0 <= k < front.len() && front[k] == before[i];
                assert(entries[k] == out[i]);
            } else {
                assert(entries[entries.len() - 1] == out[i]);
            }
        }
    }
}

/// A file that is in a group of exact duplicates is in no group of similar
/// media, and what is in one was scanned.
pub proof fn lemma_exact_and_similar_are_apart(
    entries: Seq<EntryView>,
    exact: Seq<GroupView>,
    images: ImageSearch,
    videos: VideoSearch,
    threshold: Float,
    groups: Seq<SimilarGroupView>,
    g: int,
    k: int,
)
    requires
        images.well_formed(),
        videos.well_formed(),
        scan::entry_views(images.files@) == search::of_kind(
            outside(entries, exact),
            MediaKind::Image,
        ),
        scan::entry_views(videos.files@) == search::of_kind(
            outside(entries, exact),
            MediaKind::Video,
        ),
        search::are_similar_groups(images.pool(), videos.pool(), threshold, groups),
        0 <= g < groups.len(),
        0 <= k < groups[g].members.len(),
    ensures
        !in_groups(exact, groups[g].members[k].entry.path),
        entries.contains(groups[g].members[k].entry),
{
    let entry = groups[g].members[k].entry;
    let candidates = outside(entries, exact);
    search::lemma_members_were_searched(images, videos, threshold, groups, g, k);
    let kind = if scan::entry_views(images.files@).contains(entry) {
        MediaKind::Image
    } else {
        MediaKind::Video
    };
    let files = search::of_kind(candidates, kind);
    let i = choose|i: int| 0 <= i < files.len() && files[i] == entry;
    search::lemma_of_kind(candidates, kind, i);
    lemma_candidates_outside(entries, exact);
    let j = choose|j: int| 0 <= j < candidates.len() && candidates[j] == entry;
    assert(candidates[j] == entry);
}

/// The bytes of some files add up over the files.
pub proof fn lemma_total_adds(a: Seq<EntryView>, b: Seq<EntryView>, e: EntryView)
    ensures
        total_size(a + b) == total_size(a) + total_size(b),
        total_size(seq![e]) == e.size,
        total_size(Seq::<EntryView>::empty()) == 0,
    decreases b.len(),
{
    let one = seq![e];
    let none = Seq::<EntryView>::empty();
    assert(one.drop_last() =~= none);
    assert(one.last() == e);
    assert(total_size(none) == 0);
    if b.len() == 0 {
        assert(a + b =~= a);
    } else {
        assert((a + b).drop_last() =~= a + b.drop_last());
        assert((a + b).last() == b.last());
        lemma_total_adds(a, b.drop_last(), e);
    }
}

/// Every file that is in no group of exact duplicates is one in which similar
/// media is sought.
pub proof fn lemma_outside_all(entries: Seq<EntryView>, groups: Seq<GroupView>, i: int)
    requires
        0 <= i < entries.len(),
        forall|g: int, m: int|
            0 <= g < groups.len() && 0 <= m < groups[g].members.len() ==> (
            #[trigger] groups[g].members[m]).path.parts != entries[i].path.parts,
    ensures
        outside(entries, groups).contains(entries[i]),
    decreases entries.len(),
{
    let front = entries.drop_last();
    let some = outside(front, groups);
    let all = outside(entries, groups);
    if i == entries.len() - 1 {
        assert(!in_groups(groups, entries.last().path)) by {
            if in_groups(groups, entries.last().path) {
                let (g, m) = choose|g: int, m: int|
                    0 <= g < groups.len() && 0 <= m < groups[g].members.len() && (
                    #[trigger] groups[g].members[m]).path.same(entries.last().path);
                assert(groups[g].members[m].path.parts != entries[i].path.parts);
            }
        }
        assert(all[all.len() - 1] == entries[i]);
    } else {
        assert(front[i] == entries[i]);
        lemma_outside_all(front, groups, i);
        let k = choose|k: int| 0 <= k < some.len() && some[k] == entries[i];
        assert(all[k] == some[k]);
    }
}

/// A percentage is accepted exactly where it is a hundred at most.
pub proof fn lemma_percent_range(p: Binary64)
    requires
        p.moderate(),
    ensures
        in_percent_range(Some(p)) <==> p@.above() <= 100 * p@.below(),
        !in_percent_range(None),
{
    let h = binary64::nearest(100, 1);
    accuracy::lemma_small(100, 52);
    let k: nat = if p.exp < -52 {
        (-p.exp) as nat
    } else {
        52
    };
    accuracy::lemma_small(100, k);
    accuracy::lemma_ge(h, p@, k);
    accuracy::lemma_units_fraction(p@, k);
    let u = accuracy::units(p@, k as int);
    let a = p@.above();
    let b = p@.below();
    let c = pow2(k);
    assert(100 * c >= u <==> a <= 100 * b) by (nonlinear_arith)
        requires
            u * b == a * c,
            b > 0,
            c > 0,
    {
        assert((100 * c) * b == (100 * b) * c);
        assert(100 * c >= u <==> (100 * c) * b >= u * b);
        assert(a <= 100 * b <==> a * c <= (100 * b) * c);
    }
}

/// The threshold that a percentage stands for is a hundredth of it, up to
/// rounding.
pub proof fn lemma_threshold(p: Binary64)
    requires
        p.moderate(),
        p.mant > 0,
    ensures
        accuracy::close(
            100 * binary64::float_div(p@, binary64::nearest(100, 1)).above() * p@.below(),
            p@.above() * binary64::float_div(p@, binary64::nearest(100, 1)).below(),
        ),
{
    let h = binary64::nearest(100, 1);
    let t = binary64::float_div(p@, h);
    accuracy::lemma_small(100, 52);
    let k: nat = 200_000;
    accuracy::lemma_div(p@, h, k as int, 52);
    accuracy::lemma_units_scale(p@, k as int, 52);
    let u = accuracy::units(t, k as int);
    let v = accuracy::units(p@, k as int);
    let c = pow2(52);
    vstd::arithmetic::power2::lemma_pow2_pos(52);
    assert(u * (100 * c) == (100 * u) * c) by (nonlinear_arith);
    accuracy::lemma_near_divide(100 * u, v, c);
    accuracy::lemma_near_close(100 * u, v);
    accuracy::lemma_units_fraction(p@, k);
    accuracy::lemma_units_fraction(t, k);
    let a = t.above();
    let b = t.below();
    let x = p@.above();
    let y = p@.below();
    let q = pow2(k);
    accuracy::lemma_close_times(100 * u, v, b * y);
    assert((100 * u) * (b * y) == (100 * a * y) * q && v * (b * y) == (x * b) * q)
        by (nonlinear_arith)
        requires
            u * b == a * q,
            v * y == x * q,
    {
        assert((100 * u) * (b * y) == 100 * ((u * b) * y));
        assert(100 * ((a * q) * y) == (100 * a * y) * q);
        assert(v * (b * y) == (v * y) * b);
        assert((x * q) * b == (x * b) * q);
    }
    accuracy::lemma_close_divide(100 * a * y, x * b, q);
}

/// What the options switch: asking for exact duplicates alone switches off the
/// search for similar media and with it the cache, which can be switched off by
/// itself too; asking for silence or for a machine-readable report switches off
/// progress. Nothing else does.
pub proof fn lemma_switches(cli: Cli)
    ensures
        cli.exact ==> !seeks_similar(cli) && !uses_cache(cli),
        cli.no_cache ==> !uses_cache(cli),
        !cli.exact ==> seeks_similar(cli),
        !cli.exact && !cli.no_cache ==> uses_cache(cli),
        cli.quiet || cli.json ==> !shows_progress(cli),
        !cli.quiet && !cli.json ==> shows_progress(cli),
{
}

/// Colors need a terminal, and can be switched off.
pub proof fn lemma_colors()
    ensures
        is_colored(false, true),
        !is_colored(true, true),
        !is_colored(false, false),
        !is_colored(true, false),
{
}

/// A single image or video among the files is enough to have media, wherever it
/// stands, and a single video to have video; an image is no video.
pub proof fn lemma_some_media(entries: Seq<EntryView>, i: int)
    requires
        0 <= i < entries.len(),
    ensures
        media::kind_of(entries[i].path) == MediaKind::Video ==> has_kind(entries, true) && has_kind(
            entries,
            false,
        ),
        media::kind_of(entries[i].path) == MediaKind::Image ==> has_kind(entries, true),
        (forall|j: int|
            0 <= j < entries.len() ==> media::kind_of((#[trigger] entries[j]).path)
                != MediaKind::Video) ==> !has_kind(entries, false),
        (forall|j: int|
            0 <= j < entries.len() ==> media::kind_of((#[trigger] entries[j]).path)
                == MediaKind::Other) ==> !has_kind(entries, true),
{
    let e = entries[i];
    assert(e == entries[i]);
}

/// A limit that is not given is zero, and one that is given is what its text
/// says.
pub proof fn lemma_limits(raw: String)
    ensures
        limit_of(None) == util::SizeView::Bytes(0),
        limit_of(Some(raw)) == util::size_of_text(raw@),
{
}

} // verus!
