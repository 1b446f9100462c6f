//! Why the file that is kept stays.

use crate::actions;
use crate::actions::{DeletionStep, DeletionView};
use crate::binary64::Float;
use crate::hashing;
use crate::hashing::DuplicateView;
use crate::matching;
use crate::matching::{GroupView, MemberView};
use crate::media;
use crate::media::{MediaKind, MediaView};
use crate::order;
use crate::path::PathView;
use crate::path_table;
use crate::run;
use crate::scan;
use crate::scan::{EntryView, ResultView, Root, Rules};
use crate::search;
use crate::search::{ImageSearch, VideoSearch};
use crate::similar::SimilarGroupView;
use crate::similar_report;
use vstd::prelude::*;

verus! {

/// There is a file at this place of the groups.
pub open spec fn is_place(groups: Seq<GroupView>, g: int, m: int) -> bool {
    0 <= g < groups.len() && 0 <= m < groups[g].members.len()
}

/// No path is in two places of the groups.
pub open spec fn each_once(groups: Seq<GroupView>) -> bool {
    forall|g: int, m: int, h: int, k: int|
        #![trigger groups[g].members[m], groups[h].members[k]]
        is_place(groups, g, m) && is_place(groups, h, k) && groups[g].members[m].path.same(
            groups[h].members[k].path,
        ) ==> g == h && m == k
}

/// All paths in the groups are those of files in a list.
pub open spec fn listed(entries: Seq<EntryView>, groups: Seq<GroupView>) -> bool {
    forall|g: int, m: int| #![trigger groups[g].members[m]]
        is_place(groups, g, m) ==> path_table::has_path(
            scan::entry_paths(entries),
            groups[g].members[m].path,
        )
}

/// Where a file that was found really is.
pub open spec fn real_path(found: ResultView, p: PathView) -> PathView {
    let i = choose|i: int| 0 <= i < found.entries.len() && (#[trigger] found.entries[i]).path.same(p);
    found.real_paths[i]
}

/// While groups of files that a scan found are worked through, the file that is
/// removed next is none that is kept: not under this path, nor under another
/// spelling of it.
pub proof fn lemma_kept_file_stays(
    rules: Rules,
    roots: Seq<Root>,
    groups: Seq<GroupView>,
    s: DeletionView,
    g: usize,
    m: usize,
    h: int,
    k: int,
)
    requires
        listed(scan::after_roots(rules, roots).entries, groups),
        each_once(groups),
        actions::is_state(groups, s),
        s.next == (DeletionStep::Remove { group: g, member: m }),
        is_place(groups, g as int, m as int),
        is_place(groups, h, k),
        groups[h].members[k].keep,
    ensures
        !groups[g as int].members[m as int].path.same(groups[h].members[k].path),
        !real_path(
            scan::after_roots(rules, roots),
            groups[g as int].members[m as int].path,
        ).same(real_path(scan::after_roots(rules, roots), groups[h].members[k].path)),
{
    let found = scan::after_roots(rules, roots);
    let removed = groups[g as int].members[m as int];
    let kept = groups[h].members[k];
    scan::lemma_scan_sound(rules, roots);
    assert(removed.path.same(kept.path) ==> g == h && m == k);
    if removed.keep {
        actions::lemma_keepers_stay(groups, s, g, m);
    }
    let paths = scan::entry_paths(found.entries);
    assert(path_table::has_path(paths, removed.path));
    assert(path_table::has_path(paths, kept.path));
    let a = choose|a: int| 0 <= a < paths.len() && (#[trigger] paths[a]).same(removed.path);
    let b = choose|b: int| 0 <= b < paths.len() && (#[trigger] paths[b]).same(kept.path);
    assert(found.entries[a].path.same(removed.path));
    assert(found.entries[b].path.same(kept.path));
    let i = choose|i: int|
        0 <= i < found.entries.len() && (#[trigger] found.entries[i]).path.same(removed.path);
    let j = choose|j: int|
        0 <= j < found.entries.len() && (#[trigger] found.entries[j]).path.same(kept.path);
    assert(i != j);
    if i < j {
        assert(!found.real_paths[i].same(found.real_paths[j]));
    } else {
        assert(!found.real_paths[j].same(found.real_paths[i]));
    }
}

/// Where each member of a group comes from, once the group is arranged.
proof fn places_of(members: Seq<MemberView>, k: int, out: Seq<MemberView>) -> (q: Seq<int>)
    requires
        members.len() <= usize::MAX,
        matching::arranged(matching::marked(members, k), k, out),
    ensures
        q.len() == out.len() == members.len(),
        q.no_duplicates(),
        forall|l: int| 0 <= l < q.len() ==> 0 <= #[trigger] q[l] < members.len(),
        forall|l: int| 0 <= l < out.len() ==> (#[trigger] out[l]).path == members[q[l]].path,
{
    let ms = matching::marked(members, k);
    let rest = ms.remove(k);
    let keys = matching::path_keys(rest);
    let p = choose|p: Seq<usize>|
        #[trigger] order::sorts(keys, order::upto(rest.len()), p) && out.skip(1) == order::pick(
            rest,
            p,
        );
    order::lemma_permutation(rest.len(), p);
    let q = Seq::new(
        out.len(),
        |l: int|
            if l == 0 {
                k
            } else if p[l - 1] < k {
                p[l - 1] as int
            } else {
                p[l - 1] + 1
            },
    );
    assert forall|l: int| 0 <= l < q.len() implies 0 <= #[trigger] q[l] < members.len() by {
        if l > 0 {
            assert(p[l - 1] < rest.len());
        }
    }
    assert forall|l: int| 0 <= l < out.len() implies (#[trigger] out[l]).path
        == members[q[l]].path by {
        if l > 0 {
            assert(out.skip(1)[l - 1] == out[l]);
            assert(p[l - 1] < rest.len());
            assert(rest[p[l - 1] as int] == ms[q[l]]);
        }
    }
    assert forall|l: int, n: int| 0 <= l < q.len() && 0 <= n < q.len() && l != n implies q[l]
        != q[n] by {
        if l > 0 && n > 0 {
            assert(p[l - 1] != p[n - 1]);
        }
    }
    q
}

/// Where the members of a group of exact duplicates come from.
proof fn exact_places(
    group: DuplicateView,
    index: nat,
    keep_smaller: bool,
    probe: bool,
    infos: Seq<Option<MediaView>>,
    out: GroupView,
) -> (q: Seq<int>)
    requires
        group.members.len() <= usize::MAX,
        matching::is_assembled(group, index, keep_smaller, probe, infos, out),
    ensures
        q.len() == out.members.len(),
        q.no_duplicates(),
        forall|l: int| 0 <= l < q.len() ==> 0 <= #[trigger] q[l] < group.members.len(),
        forall|l: int|
            0 <= l < out.members.len() ==> (#[trigger] out.members[l]).path
                == group.members[q[l]].path,
{
    let k = choose|k: int|
        {
            let kind = media::kind_of(group.members[k].path);
            let members = matching::exact_members(
                group.members,
                matching::probing(kind, probe),
                infos,
            );
            &&& #[trigger] order::first_least(
                matching::keep_keys(group.members, keep_smaller),
                k,
            )
            &&& matching::arranged(matching::marked(members, k), k, out.members)
        };
    let kind = media::kind_of(group.members[k].path);
    places_of(
        matching::exact_members(group.members, matching::probing(kind, probe), infos),
        k,
        out.members,
    )
}

/// Where the members of a group of similar files come from.
proof fn similar_places(
    group: SimilarGroupView,
    index: nat,
    keep_smaller: bool,
    probe: bool,
    infos: Seq<Option<MediaView>>,
    hashes: Seq<Option<Seq<char>>>,
    out: GroupView,
) -> (q: Seq<int>)
    requires
        group.members.len() <= usize::MAX,
        similar_report::is_built(group, index, keep_smaller, probe, infos, hashes, out),
    ensures
        q.len() == out.members.len(),
        q.no_duplicates(),
        forall|l: int| 0 <= l < q.len() ==> 0 <= #[trigger] q[l] < group.members.len(),
        forall|l: int|
            0 <= l < out.members.len() ==> (#[trigger] out.members[l]).path
                == group.members[q[l]].entry.path,
{
    let k = choose|k: int|
        {
            &&& #[trigger] similar_report::is_best(group.members, keep_smaller, k)
            &&& matching::arranged(
                matching::marked(
                    similar_report::report_members(group, k, probe, infos, hashes),
                    k,
                ),
                k,
                out.members,
            )
        };
    places_of(
        similar_report::report_members(group, k, probe, infos, hashes),
        k,
        out.members,
    )
}

/// The groups are small enough to be held.
pub open spec fn held_exact(groups: Seq<DuplicateView>) -> bool {
    groups.len() <= usize::MAX && forall|i: int|
        0 <= i < groups.len() ==> (#[trigger] groups[i]).members.len() <= usize::MAX
}

/// The groups are small enough to be held.
pub open spec fn held_similar(groups: Seq<SimilarGroupView>) -> bool {
    forall|i: int| 0 <= i < groups.len() ==> (#[trigger] groups[i]).members.len() <= usize::MAX
}

/// Groups of exact duplicates list files that were scanned, and none of them
/// twice, where the files have different paths.
pub proof fn lemma_exact_groups_list_once(
    entries: Seq<EntryView>,
    partials: Seq<Option<Seq<char>>>,
    fulls: Seq<Option<Seq<char>>>,
    groups: Seq<DuplicateView>,
    keep_smaller: bool,
    probe: bool,
    infos: Seq<Seq<Option<MediaView>>>,
    out: Seq<GroupView>,
)
    requires
        path_table::distinct_paths(scan::entry_paths(entries)),
        hashing::are_duplicates(entries, partials, fulls, groups),
        held_exact(groups),
        matching::are_assembled(groups, keep_smaller, probe, infos, out),
    ensures
        listed(entries, out),
        each_once(out),
{
    let ready = choose|ready: Seq<GroupView>|
        {
            &&& ready.len() == groups.len()
            &&& forall|i: int|
                0 <= i < groups.len() ==> matching::is_assembled(
                    groups[i],
                    (i + 1) as nat,
                    keep_smaller,
                    probe,
                    infos[i],
                    #[trigger] ready[i],
                )
            &&& #[trigger] order::stable_sorted(ready, matching::hash_keys(ready), out)
        };
    let p = choose|p: Seq<usize>|
        #[trigger] order::sorts(matching::hash_keys(ready), order::upto(ready.len()), p) && out
            == order::pick(ready, p);
    order::lemma_permutation(ready.len(), p);
    assert forall|i: int, j: int| 0 <= i < j < entries.len() implies !(
    #[trigger] entries[i]).path.same((#[trigger] entries[j]).path) by {
        let paths = scan::entry_paths(entries);
        assert(!paths[i].same(paths[j]));
    }
    assert forall|g: int, m: int| #![trigger out[g].members[m]] is_place(out, g, m) implies path_table::has_path(
        scan::entry_paths(entries),
        out[g].members[m].path,
    ) by {
        let a = p[g] as int;
        assert(p[g] < ready.len());
        assert(out[g] == ready[a]);
        let q = exact_places(groups[a], (a + 1) as nat, keep_smaller, probe, infos[a], out[g]);
        hashing::lemma_group_agrees(entries, partials, fulls, groups, a);
        let member = groups[a].members[q[m]];
        assert(out[g].members[m].path == member.path);
        let i = choose|i: int|
            {
                &&& 0 <= i < entries.len()
                &&& member == #[trigger] entries[i]
                &&& fulls[i] == Some(groups[a].hash)
            };
        assert(scan::entry_paths(entries)[i].same(out[g].members[m].path));
    }
    assert forall|g: int, m: int, h: int, k: int|
        #![trigger out[g].members[m], out[h].members[k]]
        is_place(out, g, m) && is_place(out, h, k) && out[g].members[m].path.same(
            out[h].members[k].path,
        ) implies g == h && m == k by {
        let a = p[g] as int;
        let b = p[h] as int;
        assert(p[g] < ready.len() && p[h] < ready.len());
        assert(out[g] == ready[a] && out[h] == ready[b]);
        let q = exact_places(groups[a], (a + 1) as nat, keep_smaller, probe, infos[a], out[g]);
        let r = if g == h {
            q
        } else {
            exact_places(groups[b], (b + 1) as nat, keep_smaller, probe, infos[b], out[h])
        };
        assert(out[g].members[m].path == groups[a].members[q[m]].path);
        assert(out[h].members[k].path == groups[b].members[r[k]].path);
        hashing::lemma_groups_are_disjoint(
            entries,
            partials,
            fulls,
            groups,
            a,
            q[m],
            b,
            r[k],
        );
        if g != h {
            assert(p[g] != p[h]);
        }
    }
}

/// Files of different paths that are picked out of a list.
proof fn lemma_outside_distinct(entries: Seq<EntryView>, groups: Seq<GroupView>)
    requires
        path_table::distinct_paths(scan::entry_paths(entries)),
    ensures
        path_table::distinct_paths(scan::entry_paths(run::outside(entries, groups))),
    decreases entries.len(),
{
    if entries.len() > 0 {
        let front = entries.drop_last();
        lemma_front_distinct(entries);
        lemma_outside_distinct(front, groups);
        run::lemma_candidates_outside(front, groups);
        let before = run::outside(front, groups);
        if !run::in_groups(groups, entries.last().path) {
            assert forall|i: int| 0 <= i < before.len() implies front.contains(
                #[trigger] before[i],
            ) by {}
            lemma_push_distinct(entries, before);
        }
    }
}

proof fn lemma_front_distinct(entries: Seq<EntryView>)
    requires
        entries.len() > 0,
        path_table::distinct_paths(scan::entry_paths(entries)),
    ensures
        path_table::distinct_paths(scan::entry_paths(entries.drop_last())),
{
    let all = scan::entry_paths(entries);
    let some = scan::entry_paths(entries.drop_last());
    assert forall|i: int, j: int| 0 <= i < j < some.len() implies !(#[trigger] some[i]).same(
        #[trigger] some[j],
    ) by {
        assert(some[i] == all[i] && some[j] == all[j]);
    }
}

/// Files picked from a list without its last one, and then the last one.
proof fn lemma_push_distinct(entries: Seq<EntryView>, before: Seq<EntryView>)
    requires
        entries.len() > 0,
        path_table::distinct_paths(scan::entry_paths(entries)),
        path_table::distinct_paths(scan::entry_paths(before)),
        forall|i: int|
            0 <= i < before.len() ==> entries.drop_last().contains(#[trigger] before[i]),
    ensures
        path_table::distinct_paths(scan::entry_paths(before.push(entries.last()))),
{
    let all = scan::entry_paths(entries);
    let was = scan::entry_paths(before);
    let now = scan::entry_paths(before.push(entries.last()));
    let front = entries.drop_last();
    assert forall|i: int, j: int| 0 <= i < j < now.len() implies !(#[trigger] now[i]).same(
        #[trigger] now[j],
    ) by {
        if j < was.len() {
            assert(now[i] == was[i] && now[j] == was[j]);
        } else {
            assert(front.contains(before[i]));
            let a = choose|a: int| 0 <= a < front.len() && front[a] == before[i];
            assert(all[a] == now[i]);
            assert(all[entries.len() - 1] == now[j]);
        }
    }
}

proof fn lemma_kind_distinct(entries: Seq<EntryView>, kind: MediaKind)
    requires
        path_table::distinct_paths(scan::entry_paths(entries)),
    ensures
        path_table::distinct_paths(scan::entry_paths(search::of_kind(entries, kind))),
    decreases entries.len(),
{
    if entries.len() > 0 {
        let front = entries.drop_last();
        lemma_front_distinct(entries);
        lemma_kind_distinct(front, kind);
        let before = search::of_kind(front, kind);
        assert forall|i: int| 0 <= i < before.len() implies front.contains(#[trigger] before[i]) by {
            search::lemma_of_kind(front, kind, i);
        }
        if media::kind_of(entries.last().path) == kind {
            lemma_push_distinct(entries, before);
        }
    }
}

/// The images and the videos among files of different paths have different
/// paths.
proof fn lemma_media_distinct(entries: Seq<EntryView>)
    requires
        path_table::distinct_paths(scan::entry_paths(entries)),
    ensures
        path_table::distinct_paths(
            scan::entry_paths(
                search::of_kind(entries, MediaKind::Image) + search::of_kind(
                    entries,
                    MediaKind::Video,
                ),
            ),
        ),
{
    let a = search::of_kind(entries, MediaKind::Image);
    let b = search::of_kind(entries, MediaKind::Video);
    lemma_kind_distinct(entries, MediaKind::Image);
    lemma_kind_distinct(entries, MediaKind::Video);
    let all = scan::entry_paths(a + b);
    let pa = scan::entry_paths(a);
    let pb = scan::entry_paths(b);
    let n = a.len() as int;
    assert forall|i: int, j: int| 0 <= i < j < all.len() implies !(#[trigger] all[i]).same(
        #[trigger] all[j],
    ) by {
        if j < n {
            assert(all[i] == pa[i] && all[j] == pa[j]);
        } else if i >= n {
            assert(all[i] == pb[i - n] && all[j] == pb[j - n]);
        } else {
            search::lemma_of_kind(entries, MediaKind::Image, i);
            search::lemma_of_kind(entries, MediaKind::Video, j - n);
            assert(all[i] == a[i].path && all[j] == b[j - n].path);
            if all[i].same(all[j]) {
                assert(all[i].extension() == all[j].extension());
            }
        }
    }
}

/// Groups of similar files list files that were scanned and are in no group of
/// exact duplicates, and none of them twice, where the files have different
/// paths.
pub proof fn lemma_similar_groups_list_once(
    entries: Seq<EntryView>,
    exact: Seq<GroupView>,
    images: ImageSearch,
    videos: VideoSearch,
    threshold: Float,
    groups: Seq<SimilarGroupView>,
    start: nat,
    keep_smaller: bool,
    probe: bool,
    infos: Seq<Seq<Option<MediaView>>>,
    hashes: Seq<Seq<Option<Seq<char>>>>,
    out: Seq<GroupView>,
)
    requires
        path_table::distinct_paths(scan::entry_paths(entries)),
        images.well_formed(),
        videos.well_formed(),
        scan::entry_views(images.files@) == search::of_kind(
            run::outside(entries, exact),
            MediaKind::Image,
        ),
        scan::entry_views(videos.files@) == search::of_kind(
            run::outside(entries, exact),
            MediaKind::Video,
        ),
        search::are_similar_groups(images.pool(), videos.pool(), threshold, groups),
        held_similar(groups),
        similar_report::are_built(groups, start, keep_smaller, probe, infos, hashes, out),
    ensures
        listed(entries, out),
        each_once(out),
        forall|g: int, m: int| #![trigger out[g].members[m]]
            is_place(out, g, m) ==> !run::in_groups(exact, out[g].members[m].path),
{
    lemma_outside_distinct(entries, exact);
    lemma_media_distinct(run::outside(entries, exact));
    assert forall|g: int, m: int| #![trigger out[g].members[m]] is_place(out, g, m) implies {
        &&& path_table::has_path(scan::entry_paths(entries), out[g].members[m].path)
        &&& !run::in_groups(exact, out[g].members[m].path)
    } by {
        let q = similar_places(
            groups[g],
            (start + g) as nat,
            keep_smaller,
            probe,
            infos[g],
            hashes[g],
            out[g],
        );
        assert(out[g].members[m].path == groups[g].members[q[m]].entry.path);
        run::lemma_exact_and_similar_are_apart(
            entries,
            exact,
            images,
            videos,
            threshold,
            groups,
            g,
            q[m],
        );
        let e = groups[g].members[q[m]].entry;
        let i = choose|i: int| 0 <= i < entries.len() && entries[i] == e;
        assert(scan::entry_paths(entries)[i].same(out[g].members[m].path));
    }
    assert forall|g: int, m: int, h: int, k: int|
        #![trigger out[g].members[m], out[h].members[k]]
        is_place(out, g, m) && is_place(out, h, k) && out[g].members[m].path.same(
            out[h].members[k].path,
        ) implies g == h && m == k by {
        let q = similar_places(
            groups[g],
            (start + g) as nat,
            keep_smaller,
            probe,
            infos[g],
            hashes[g],
            out[g],
        );
        let r = if g == h {
            q
        } else {
            similar_places(
                groups[h],
                (start + h) as nat,
                keep_smaller,
                probe,
                infos[h],
                hashes[h],
                out[h],
            )
        };
        assert(out[g].members[m].path == groups[g].members[q[m]].entry.path);
        assert(out[h].members[k].path == groups[h].members[r[k]].entry.path);
        search::lemma_similar_groups_are_disjoint(
            images,
            videos,
            threshold,
            groups,
            g,
            q[m],
            h,
            r[k],
        );
    }
}

/// Groups of exact duplicates and, behind them, groups of similar files that are
/// in none of those list no file twice.
pub proof fn lemma_all_groups_list_once(
    entries: Seq<EntryView>,
    exact: Seq<GroupView>,
    similar: Seq<GroupView>,
)
    requires
        listed(entries, exact),
        listed(entries, similar),
        each_once(exact),
        each_once(similar),
        forall|g: int, m: int| #![trigger similar[g].members[m]]
            is_place(similar, g, m) ==> !run::in_groups(exact, similar[g].members[m].path),
    ensures
        listed(entries, exact + similar),
        each_once(exact + similar),
{
    let all = exact + similar;
    let n = exact.len() as int;
    assert forall|g: int, m: int| #![trigger all[g].members[m]] is_place(all, g, m) implies path_table::has_path(
        scan::entry_paths(entries),
        all[g].members[m].path,
    ) by {
        if g < n {
            assert(is_place(exact, g, m) && all[g].members[m] == exact[g].members[m]);
        } else {
            assert(is_place(similar, g - n, m) && all[g].members[m] == similar[g - n].members[m]);
        }
    }
    assert forall|g: int, m: int, h: int, k: int|
        #![trigger all[g].members[m], all[h].members[k]]
        is_place(all, g, m) && is_place(all, h, k) && all[g].members[m].path.same(
            all[h].members[k].path,
        ) implies g == h && m == k by {
        if g < n && h < n {
            assert(all[g].members[m] == exact[g].members[m]);
            assert(all[h].members[k] == exact[h].members[k]);
            assert(is_place(exact, g, m) && is_place(exact, h, k));
        } else if g >= n && h >= n {
            assert(all[g].members[m] == similar[g - n].members[m]);
            assert(all[h].members[k] == similar[h - n].members[k]);
            assert(is_place(similar, g - n, m) && is_place(similar, h - n, k));
        } else if g < n {
            let p = similar[h - n].members[k].path;
            assert(is_place(similar, h - n, k));
            assert(exact[g].members[m].path.same(p));
            assert(run::in_groups(exact, p));
        } else {
            let p = similar[g - n].members[m].path;
            assert(is_place(similar, g - n, m));
            assert(exact[h].members[k].path.same(p));
            assert(run::in_groups(exact, p));
        }
    }
}

} // verus!
