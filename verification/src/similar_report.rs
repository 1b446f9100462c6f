//! Groups of similar files as they are reported.

use crate::binary64;
use crate::binary64::{Binary64, Float};
use crate::hashing;
use crate::matching;
use crate::matching::{arrange, copy_info, rank_sized, Group, GroupMember, GroupView, MemberView};
use crate::media::{MediaInfo, MediaView};
use crate::order;
use crate::order::Rank;
use crate::similar;
use crate::similar::{SimilarGroup, SimilarGroupView, SimilarMember, SimilarMemberView};
use crate::text;
use crate::text::{copy_text, push_decimal};
use vstd::prelude::*;
use vstd::string::*;

verus! {

/// The resolution of a member is known.
pub open spec fn has_size(m: SimilarMemberView) -> bool {
    m.w > 0 && m.h > 0
}

/// The key that decides which file is kept: the larger number of pixels comes
/// first, and any known one before an unknown one; then the smaller size; then
/// the path.
pub open spec fn quality_key(m: SimilarMemberView) -> Seq<Seq<int>> {
    let pixels = if has_size(m) {
        seq![0, -(m.w * m.h)]
    } else {
        seq![1, 0]
    };
    seq![pixels] + matching::sized_key(m.entry)
}

/// The keys that decide which file is kept.
pub open spec fn quality_keys(members: Seq<SimilarMemberView>) -> Seq<Seq<Seq<int>>> {
    members.map_values(|m: SimilarMemberView| quality_key(m))
}

/// The number of pixels, where it is known.
fn area(m: &SimilarMember) -> (r: Option<u64>)
    ensures
        match r {
            Some(a) => has_size(m@) && a == m.w * m.h,
            None => !has_size(m@),
        },
{
    if m.w > 0 && m.h > 0 {
        assert(m.w * m.h <= 0xffff_ffff * 0xffff_ffff) by (nonlinear_arith)
            requires
                m.w <= 0xffff_ffff,
                m.h <= 0xffff_ffff,
        ;
        Some(m.w as u64 * m.h as u64)
    } else {
        None
    }
}

/// Compares members by quality; the better one comes first.
fn rank_quality(a: &SimilarMember, b: &SimilarMember) -> (r: Rank)
    ensures
        r == order::rank_key(quality_key(a@), quality_key(b@)),
{
    let ghost ka = quality_key(a@);
    let ghost kb = quality_key(b@);
    proof {
        assert(ka.skip(1) =~= matching::sized_key(a@.entry));
        assert(kb.skip(1) =~= matching::sized_key(b@.entry));
        let pa = ka[0];
        let pb = kb[0];
        assert(pa.skip(1)[0] == pa[1]);
        assert(pb.skip(1)[0] == pb[1]);
        assert(pa.skip(1).skip(1) =~= pb.skip(1).skip(1));
        order::lemma_rank_word_equal(pa.skip(1).skip(1), pb.skip(1).skip(1));
        reveal_with_fuel(order::rank_word, 3);
    }
    match (area(a), area(b)) {
        (Some(x), Some(y)) => if x > y {
            Rank::Less
        } else if x < y {
            Rank::Greater
        } else {
            rank_sized(&a.entry, &b.entry)
        },
        (Some(_), None) => Rank::Less,
        (None, Some(_)) => Rank::Greater,
        (None, None) => rank_sized(&a.entry, &b.entry),
    }
}

/// Pick the member to keep where smaller files are preferred: the highest
/// resolution (width × height) wins, ties broken by smallest size then path.
/// Members with unknown resolution (0×0) rank below any member with known
/// resolution; when nobody has a known resolution, the smallest file is kept.
pub fn choose_keep_best_resolution(members: &Vec<SimilarMember>) -> (best: usize)
    requires
        members@.len() > 0,
    ensures
        order::first_least(quality_keys(similar::similar_views(members@)), best as int),
{
    let ghost keys = quality_keys(similar::similar_views(members@));
    let mut best: usize = 0;
    let mut i: usize = 1;
    proof {
        order::lemma_rank_key_equal(keys[0], keys[0]);
        assert(order::first_least(keys.take(1), 0));
    }
    while i < members.len()
        invariant
            1 <= i <= members@.len(),
            keys == quality_keys(similar::similar_views(members@)),
            order::first_least(keys.take(i as int), best as int),
        decreases members@.len() - i,
    {
        let r = rank_quality(&members[i], &members[best]);
        proof {
            order::lemma_first_least_step(keys, i as int, best as int);
        }
        match r {
            Rank::Less => {
                best = i;
            },
            _ => {},
        }
        i = i + 1;
    }
    assert(keys.take(i as int) =~= keys);
    best
}

/// The lower of two similarities.
pub open spec fn lower(a: Float, b: Float) -> Float {
    if binary64::float_ge(a, b) {
        b
    } else {
        a
    }
}

/// The lowest of `start` and the first `n` similarities of a row.
pub open spec fn row_worst(start: Float, row: Seq<Float>, n: nat) -> Float
    decreases n,
{
    if n == 0 {
        start
    } else {
        lower(row_worst(start, row, (n - 1) as nat), row[n - 1])
    }
}

/// The lowest similarity of any two of the first `n` files; one where there are
/// no two.
pub open spec fn worst(pairs: Seq<Seq<Float>>, n: nat) -> Float
    decreases n,
{
    if n == 0 {
        binary64::float_one()
    } else {
        row_worst(worst(pairs, (n - 1) as nat), pairs[n - 1], pairs[n - 1].len())
    }
}

/// The members of a group for the report, each with its similarity to the
/// member at position `k`, with the metadata found by probing it, where it was
/// probed, and with its content hash.
pub open spec fn report_members(
    group: SimilarGroupView,
    k: int,
    probe: bool,
    infos: Seq<Option<MediaView>>,
    hashes: Seq<Option<Seq<char>>>,
) -> Seq<MemberView> {
    Seq::new(
        group.members.len(),
        |i: int|
            MemberView {
                path: group.members[i].entry.path,
                size: group.members[i].entry.size,
                mtime_secs: group.members[i].entry.mtime_secs,
                keep: false,
                media: if probe {
                    infos[i]
                } else {
                    None
                },
                similarity: Some(group.alike(i, k)),
                content_hash: hashes[i],
            },
    )
}

/// Position `k` is that of the file to keep: the first, or, where smaller
/// files are preferred, the one of the highest quality.
pub open spec fn is_best(members: Seq<SimilarMemberView>, keep_smaller: bool, k: int) -> bool {
    if keep_smaller {
        order::first_least(quality_keys(members), k)
    } else {
        k == 0
    }
}

/// `out` is a group of similar files made ready for the report.
pub open spec fn is_built(
    group: SimilarGroupView,
    index: nat,
    keep_smaller: bool,
    probe: bool,
    infos: Seq<Option<MediaView>>,
    hashes: Seq<Option<Seq<char>>>,
    out: GroupView,
) -> bool {
    exists|k: int|
        {
            &&& #[trigger] is_best(group.members, keep_smaller, k)
            &&& out.index == index
            &&& out.hash == "similar#"@ + text::decimal(index)
            &&& out.media_kind == group.kind
            &&& out.similarity == Some(worst(group.pairs, group.pairs.len()))
            &&& matching::arranged(
                matching::marked(report_members(group, k, probe, infos, hashes), k),
                k,
                out.members,
            )
        }
}

/// Finds the lowest of a similarity and those in a row.
fn worst_in_row(start: Binary64, row: &Vec<Binary64>) -> (r: Binary64)
    requires
        start@.normal(),
        similar::proper_row(row@, row@.len()),
    ensures
        r@ == row_worst(start@, binary64::floats(row@), row@.len()),
        r@.normal(),
{
    let mut r = start;
    let mut i: usize = 0;
    while i < row.len()
        invariant
            0 <= i <= row@.len(),
            similar::proper_row(row@, row@.len()),
            r@ == row_worst(start@, binary64::floats(row@), i as nat),
            r@.normal(),
        decreases row@.len() - i,
    {
        assert(row@[i as int].moderate());
        assert(binary64::floats(row@)[i as int] == row@[i as int]@);
        let next = row[i];
        if r.at_least(next) {
            r = next;
        }
        i = i + 1;
    }
    r
}

/// Finds the lowest similarity of any two files in a group.
fn worst_similarity(pairs: &Vec<Vec<Binary64>>) -> (r: Binary64)
    requires
        forall|i: int|
            0 <= i < pairs@.len() ==> similar::proper_row((#[trigger] pairs@[i])@, i as nat),
    ensures
        r@ == worst(similar::pair_views(pairs@), pairs@.len()),
{
    let ghost views = similar::pair_views(pairs@);
    let mut r = Binary64::one();
    let mut i: usize = 0;
    while i < pairs.len()
        invariant
            0 <= i <= pairs@.len(),
            views == similar::pair_views(pairs@),
            forall|j: int|
                0 <= j < pairs@.len() ==> similar::proper_row((#[trigger] pairs@[j])@, j as nat),
            r@ == worst(views, i as nat),
            r@.normal(),
        decreases pairs@.len() - i,
    {
        assert(similar::proper_row(pairs@[i as int]@, i as nat));
        assert(views[i as int] == binary64::floats(pairs@[i as int]@));
        r = worst_in_row(r, &pairs[i]);
        i = i + 1;
    }
    r
}

/// Turns one set of similar files into a group for the report, given what
/// probing each file found and the hash of each file's content.
pub fn build_similar_group(
    group: &SimilarGroup,
    index: usize,
    keep_smaller: bool,
    probe: bool,
    infos: &Vec<Option<MediaInfo>>,
    hashes: &Vec<Option<String>>,
) -> (out: Group)
    requires
        similar::proper_group(*group),
        infos@.len() == group.members@.len(),
        hashes@.len() == group.members@.len(),
    ensures
        is_built(
            group@,
            index as nat,
            keep_smaller,
            probe,
            matching::info_views(infos@),
            hashing::hash_views(hashes@),
            out@,
        ),
{
    let ghost iv = matching::info_views(infos@);
    let ghost hv = hashing::hash_views(hashes@);
    let keep: usize = if keep_smaller {
        choose_keep_best_resolution(&group.members)
    } else {
        0
    };
    assert(is_best(group@.members, keep_smaller, keep as int));
    let ghost expected = report_members(group@, keep as int, probe, iv, hv);
    let mut members: Vec<GroupMember> = Vec::new();
    let mut i: usize = 0;
    while i < group.members.len()
        invariant
            0 <= i <= group.members@.len(),
            infos@.len() == group.members@.len(),
            hashes@.len() == group.members@.len(),
            iv == matching::info_views(infos@),
            hv == hashing::hash_views(hashes@),
            similar::proper_group(*group),
            keep < group.members@.len(),
            expected == report_members(group@, keep as int, probe, iv, hv),
            members@.len() == i,
            forall|j: int| 0 <= j < i ==> (#[trigger] members@[j])@ == expected[j],
        decreases group.members@.len() - i,
    {
        let m = &group.members[i];
        let media = if probe {
            copy_info(&infos[i])
        } else {
            None
        };
        members.push(
            GroupMember {
                path: m.entry.path.clone(),
                size: m.entry.size,
                mtime_secs: m.entry.mtime_secs,
                keep: false,
                media,
                similarity: Some(group.similarity(i, keep)),
                content_hash: copy_text(&hashes[i]),
            },
        );
        assert(members@[i as int]@ == expected[i as int]);
        i = i + 1;
    }
    assert(matching::member_views(members@) =~= expected);
    assert forall|j: int| 0 <= j < members@.len() implies !(#[trigger] members@[j]).keep by {
        assert(members@[j]@ == expected[j]);
    }
    let ordered = arrange(members, keep);
    let similarity = worst_similarity(&group.pairs);
    let mut hash = String::new();
    hash.append("similar#");
    push_decimal(&mut hash, index as u128);
    assert(hash@ =~= "similar#"@ + text::decimal(index as nat));
    Group {
        index,
        hash,
        media_kind: group.kind,
        similarity: Some(similarity),
        members: ordered,
    }
}

/// The hashes of the files of each group.
pub open spec fn all_hash_views(hashes: Seq<Vec<Option<String>>>) -> Seq<Seq<Option<Seq<char>>>> {
    hashes.map_values(|h: Vec<Option<String>>| hashing::hash_views(h@))
}

/// `out` are the groups made ready for the report, numbered from `start` on.
pub open spec fn are_built(
    groups: Seq<SimilarGroupView>,
    start: nat,
    keep_smaller: bool,
    probe: bool,
    infos: Seq<Seq<Option<MediaView>>>,
    hashes: Seq<Seq<Option<Seq<char>>>>,
    out: Seq<GroupView>,
) -> bool {
    &&& out.len() == groups.len()
    &&& forall|i: int|
        0 <= i < groups.len() ==> is_built(
            groups[i],
            (start + i) as nat,
            keep_smaller,
            probe,
            infos[i],
            hashes[i],
            #[trigger] out[i],
        )
}

/// Convert perceptual groups into groups for the report (with media metadata,
/// keep decisions, and a content hash per member used as a deletion safety
/// check). `start_index` continues the numbering after the exact groups.
pub fn build_similar_groups(
    groups: &Vec<SimilarGroup>,
    keep_smaller: bool,
    probe: bool,
    infos: &Vec<Vec<Option<MediaInfo>>>,
    hashes: &Vec<Vec<Option<String>>>,
    start_index: usize,
) -> (out: Vec<Group>)
    requires
        similar::proper_groups(groups@),
        infos@.len() == groups@.len(),
        hashes@.len() == groups@.len(),
        forall|i: int|
            0 <= i < groups@.len() ==> infos@[i]@.len() == (#[trigger] groups@[i]).members@.len()
                && hashes@[i]@.len() == groups@[i].members@.len(),
        start_index + groups@.len() <= usize::MAX,
    ensures
        are_built(
            similar::similar_group_views(groups@),
            start_index as nat,
            keep_smaller,
            probe,
            matching::all_info_views(infos@),
            all_hash_views(hashes@),
            matching::group_views(out@),
        ),
{
    let ghost gv = similar::similar_group_views(groups@);
    let ghost iv = matching::all_info_views(infos@);
    let ghost hv = all_hash_views(hashes@);
    let mut out: Vec<Group> = Vec::new();
    let mut i: usize = 0;
    while i < groups.len()
        invariant
            0 <= i <= groups@.len(),
            similar::proper_groups(groups@),
            infos@.len() == groups@.len(),
            hashes@.len() == groups@.len(),
            forall|i: int|
                0 <= i < groups@.len() ==> infos@[i]@.len() == (
                #[trigger] groups@[i]).members@.len() && hashes@[i]@.len()
                    == groups@[i].members@.len(),
            start_index + groups@.len() <= usize::MAX,
            gv == similar::similar_group_views(groups@),
            iv == matching::all_info_views(infos@),
            hv == all_hash_views(hashes@),
            out@.len() == i,
            forall|j: int|
                0 <= j < i ==> is_built(
                    gv[j],
                    (start_index + j) as nat,
                    keep_smaller,
                    probe,
                    iv[j],
                    hv[j],
                    (#[trigger] out@[j])@,
                ),
        decreases groups@.len() - i,
    {
        assert(similar::proper_group(groups@[i as int]));
        let group = build_similar_group(
            &groups[i],
            start_index + i,
            keep_smaller,
            probe,
            &infos[i],
            &hashes[i],
        );
        out.push(group);
        i = i + 1;
    }
    assert forall|j: int| 0 <= j < gv.len() implies is_built(
        gv[j],
        (start_index + j) as nat,
        keep_smaller,
        probe,
        iv[j],
        hv[j],
        #[trigger] matching::group_views(out@)[j],
    ) by {
        assert(out@[j]@ == matching::group_views(out@)[j]);
    }
    out
}

/// A group of similar files keeps exactly one of them, listed first. Where
/// smaller files are preferred, no other file has a better resolution: one that
/// is known beats one that is not, and more pixels beat fewer; of files with
/// the same resolution the smallest is kept, and of those the one with the
/// first path.
pub proof fn lemma_best_is_kept(
    group: SimilarGroupView,
    index: nat,
    probe: bool,
    infos: Seq<Option<MediaView>>,
    hashes: Seq<Option<Seq<char>>>,
    out: GroupView,
)
    requires
        group.members.len() <= usize::MAX,
        is_built(group, index, true, probe, infos, hashes, out),
    ensures
        out.members[0].keep,
        matching::kept(out.members) == 1,
        exists|k: int|
            {
                let best = #[trigger] group.members[k];
                &&& 0 <= k < group.members.len()
                &&& best.entry.path == out.members[0].path
                &&& forall|j: int|
                    0 <= j < group.members.len() ==> {
                        let other = #[trigger] group.members[j];
                        &&& has_size(other) ==> has_size(best) && best.w * best.h >= other.w
                            * other.h
                        &&& has_size(other) == has_size(best) && (has_size(other) ==> best.w * best.h
                            == other.w * other.h) ==> best.entry.size < other.entry.size || (
                        best.entry.size == other.entry.size && !other.entry.path.less(
                            best.entry.path,
                        ))
                    }
            },
{
    let keys = quality_keys(group.members);
    let k = choose|k: int|
        {
            &&& #[trigger] is_best(group.members, true, k)
            &&& matching::arranged(
                matching::marked(report_members(group, k, probe, infos, hashes), k),
                k,
                out.members,
            )
        };
    matching::lemma_arranged(report_members(group, k, probe, infos, hashes), k, out.members);
    let best = group.members[k];
    assert forall|j: int| 0 <= j < group.members.len() implies {
        let other = #[trigger] group.members[j];
        &&& has_size(other) ==> has_size(best) && best.w * best.h >= other.w * other.h
        &&& has_size(other) == has_size(best) && (has_size(other) ==> best.w * best.h == other.w
            * other.h) ==> best.entry.size < other.entry.size || (best.entry.size
            == other.entry.size && !other.entry.path.less(best.entry.path))
    } by {
        let other = group.members[j];
        let a = keys[k];
        let b = keys[j];
        assert(order::rank_key(a, b) != Rank::Greater);
        assert(a == quality_key(best) && b == quality_key(other));
        assert(a.skip(1) =~= matching::sized_key(best.entry));
        assert(b.skip(1) =~= matching::sized_key(other.entry));
        let pa = a[0];
        let pb = b[0];
        assert(pa.skip(1)[0] == pa[1]);
        assert(pb.skip(1)[0] == pb[1]);
        assert(pa.skip(1).skip(1) =~= pb.skip(1).skip(1));
        order::lemma_rank_word_equal(pa.skip(1).skip(1), pb.skip(1).skip(1));
        reveal_with_fuel(order::rank_word, 3);
        reveal_with_fuel(order::rank_key, 3);
        let sa = matching::sized_key(best.entry);
        let sb = matching::sized_key(other.entry);
        assert(sa[0][0] == best.entry.size && sb[0][0] == other.entry.size);
        assert(sa[0].skip(1) =~= sb[0].skip(1));
        assert(sa.skip(1) =~= best.entry.path.key());
        assert(sb.skip(1) =~= other.entry.path.key());
        order::lemma_rank_word_equal(sa[0].skip(1), sb[0].skip(1));
        order::lemma_rank_key_flip(best.entry.path.key(), other.entry.path.key());
    }
    assert(group.members[k].entry.path == out.members[0].path);
}

/// A group of similar files keeps exactly one of them, listed first: the first
/// of the group, unless smaller files are preferred. No file is left out.
pub proof fn lemma_one_is_kept(
    group: SimilarGroupView,
    index: nat,
    keep_smaller: bool,
    probe: bool,
    infos: Seq<Option<MediaView>>,
    hashes: Seq<Option<Seq<char>>>,
    out: GroupView,
)
    requires
        group.members.len() <= usize::MAX,
        is_built(group, index, keep_smaller, probe, infos, hashes, out),
    ensures
        out.members.len() == group.members.len(),
        out.members[0].keep,
        matching::kept(out.members) == 1,
        !keep_smaller ==> out.members[0].path == group.members[0].entry.path,
        forall|i: int|
            0 <= i < group.members.len() ==> exists|j: int|
                0 <= j < out.members.len() && (#[trigger] out.members[j]).path == (
                #[trigger] group.members[i]).entry.path,
{
    broadcast use vstd::seq_lib::group_to_multiset_ensures;

    let k = choose|k: int|
        {
            &&& #[trigger] is_best(group.members, keep_smaller, k)
            &&& matching::arranged(
                matching::marked(report_members(group, k, probe, infos, hashes), k),
                k,
                out.members,
            )
        };
    let members = report_members(group, k, probe, infos, hashes);
    let marked = matching::marked(members, k);
    matching::lemma_arranged(members, k, out.members);
    assert forall|i: int| 0 <= i < group.members.len() implies exists|j: int|
        0 <= j < out.members.len() && (#[trigger] out.members[j]).path == (
        #[trigger] group.members[i]).entry.path by {
        assert(marked[i].path == group.members[i].entry.path);
        assert(marked.to_multiset().contains(marked[i]));
        assert(out.members.contains(marked[i]));
        let j = choose|j: int| 0 <= j < out.members.len() && out.members[j] == marked[i];
        assert(out.members[j].path == group.members[i].entry.path);
    }
}

proof fn lemma_row_worst(start: Float, row: Seq<Float>, n: nat)
    requires
        n <= row.len(),
        start.normal(),
        forall|j: int| 0 <= j < row.len() ==> (#[trigger] row[j]).normal(),
    ensures
        row_worst(start, row, n).normal(),
        binary64::float_ge(start, row_worst(start, row, n)),
        forall|j: int| 0 <= j < n ==> binary64::float_ge(#[trigger] row[j], row_worst(start, row, n)),
        row_worst(start, row, n) == start || exists|j: int|
            0 <= j < n && #[trigger] row[j] == row_worst(start, row, n),
    decreases n,
{
    if n > 0 {
        lemma_row_worst(start, row, (n - 1) as nat);
        let rest = row_worst(start, row, (n - 1) as nat);
        let next = row[n - 1];
        binary64::lemma_compare(rest, next);
        binary64::lemma_compare(next, rest);
        binary64::lemma_compare(next, next);
        binary64::lemma_compare(start, rest);
        binary64::lemma_compare(start, next);
        assert forall|j: int| 0 <= j < n implies binary64::float_ge(
            #[trigger] row[j],
            row_worst(start, row, n),
        ) by {
            if j < n - 1 {
                binary64::lemma_compare(row[j], rest);
                binary64::lemma_compare(row[j], next);
            }
        }
    } else {
        binary64::lemma_compare(start, start);
    }
}

/// All similarities are numbers that can be compared.
pub open spec fn comparable(pairs: Seq<Seq<Float>>) -> bool {
    forall|i: int, j: int|
        0 <= i < pairs.len() && 0 <= j < pairs[i].len() ==> (#[trigger] pairs[i][j]).normal()
}

proof fn lemma_worst(pairs: Seq<Seq<Float>>, n: nat)
    requires
        n <= pairs.len(),
        comparable(pairs),
    ensures
        worst(pairs, n).normal(),
        binary64::float_ge(binary64::float_one(), worst(pairs, n)),
        forall|i: int, j: int|
            0 <= i < n && 0 <= j < pairs[i].len() ==> binary64::float_ge(
                #[trigger] pairs[i][j],
                worst(pairs, n),
            ),
        worst(pairs, n) == binary64::float_one() || exists|i: int, j: int|
            0 <= i < n && 0 <= j < pairs[i].len() && #[trigger] pairs[i][j] == worst(pairs, n),
    decreases n,
{
    if n > 0 {
        lemma_worst(pairs, (n - 1) as nat);
        let rest = worst(pairs, (n - 1) as nat);
        let row = pairs[n - 1];
        assert forall|j: int| 0 <= j < row.len() implies (#[trigger] row[j]).normal() by {
            assert(pairs[n - 1][j].normal());
        }
        lemma_row_worst(rest, row, row.len());
        let all = worst(pairs, n);
        binary64::lemma_compare(binary64::float_one(), rest);
        binary64::lemma_compare(rest, all);
        binary64::lemma_compare(binary64::float_one(), all);
        assert forall|i: int, j: int| 0 <= i < n && 0 <= j < pairs[i].len() implies binary64::float_ge(
            #[trigger] pairs[i][j],
            all,
        ) by {
            if i < n - 1 {
                binary64::lemma_compare(pairs[i][j], rest);
                binary64::lemma_compare(pairs[i][j], all);
            }
        }
        if all != rest {
            let j = choose|j: int| 0 <= j < row.len() && #[trigger] row[j] == all;
            assert(pairs[n - 1][j] == all);
        }
    } else {
        binary64::lemma_compare(binary64::float_one(), binary64::float_one());
    }
}

/// The similarity of a group is the lowest that any two of its files have: it
/// is at most that of each two, and some two have it, unless they are all
/// wholly alike.
pub proof fn lemma_group_similarity(
    group: SimilarGroupView,
    index: nat,
    keep_smaller: bool,
    probe: bool,
    infos: Seq<Option<MediaView>>,
    hashes: Seq<Option<Seq<char>>>,
    out: GroupView,
)
    requires
        is_built(group, index, keep_smaller, probe, infos, hashes, out),
        comparable(group.pairs),
        group.pairs.len() == group.members.len(),
        forall|i: int|
            0 <= i < group.pairs.len() ==> (#[trigger] group.pairs[i]).len() == i,
    ensures
        out.similarity is Some,
        forall|i: int, j: int|
            0 <= i < group.members.len() && 0 <= j < group.members.len() ==> binary64::float_ge(
                #[trigger] group.alike(i, j),
                out.similarity->0,
            ),
        exists|i: int, j: int|
            0 <= i < group.members.len() && 0 <= j < group.members.len() && #[trigger] group.alike(
                i,
                j,
            ) == out.similarity->0,
{
    let n = group.pairs.len();
    let all = worst(group.pairs, n);
    lemma_worst(group.pairs, n);
    assert forall|i: int, j: int|
        0 <= i < group.members.len() && 0 <= j < group.members.len() implies binary64::float_ge(
        #[trigger] group.alike(i, j),
        all,
    ) by {
        if i > j {
            assert(binary64::float_ge(group.pairs[i][j], all));
        } else if j > i {
            assert(binary64::float_ge(group.pairs[j][i], all));
        }
    }
    if all == binary64::float_one() {
        assert(group.members.len() > 0) by {
            let k = choose|k: int| #[trigger] is_best(group.members, keep_smaller, k) && matching::arranged(
                matching::marked(report_members(group, k, probe, infos, hashes), k),
                k,
                out.members,
            );
        }
        assert(group.alike(0, 0) == all);
    } else {
        let (i, j) = choose|i: int, j: int|
            0 <= i < n && 0 <= j < group.pairs[i].len() && #[trigger] group.pairs[i][j] == all;
        assert(group.alike(i, j) == all);
    }
}

/// Each file of a group is reported with its similarity to the file that is
/// kept, and that file with a similarity of exactly one.
pub proof fn lemma_similar_to_kept(
    group: SimilarGroupView,
    index: nat,
    keep_smaller: bool,
    probe: bool,
    infos: Seq<Option<MediaView>>,
    hashes: Seq<Option<Seq<char>>>,
    out: GroupView,
)
    requires
        group.members.len() <= usize::MAX,
        is_built(group, index, keep_smaller, probe, infos, hashes, out),
    ensures
        out.members[0].keep,
        out.members[0].similarity == Some(binary64::float_one()),
        exists|k: int|
            {
                &&& 0 <= k < group.members.len()
                &&& #[trigger] group.members[k].entry.path == out.members[0].path
                &&& forall|j: int|
                    0 <= j < out.members.len() ==> exists|i: int|
                        {
                            &&& 0 <= i < group.members.len()
                            &&& #[trigger] group.members[i].entry.path == (
                            #[trigger] out.members[j]).path
                            &&& out.members[j].similarity == Some(group.alike(i, k))
                        }
            },
{
    broadcast use vstd::seq_lib::group_to_multiset_ensures;

    let k = choose|k: int|
        {
            &&& #[trigger] is_best(group.members, keep_smaller, k)
            &&& matching::arranged(
                matching::marked(report_members(group, k, probe, infos, hashes), k),
                k,
                out.members,
            )
        };
    let members = report_members(group, k, probe, infos, hashes);
    let marked = matching::marked(members, k);
    matching::lemma_arranged(members, k, out.members);
    assert(out.members[0] == marked[k]);
    assert(group.members[k].entry.path == out.members[0].path);
    assert forall|j: int| 0 <= j < out.members.len() implies exists|i: int|
        {
            &&& 0 <= i < group.members.len()
            &&& #[trigger] group.members[i].entry.path == (#[trigger] out.members[j]).path
            &&& out.members[j].similarity == Some(group.alike(i, k))
        } by {
        assert(out.members.to_multiset().contains(out.members[j]));
        assert(marked.contains(out.members[j]));
        let i = choose|i: int| 0 <= i < marked.len() && marked[i] == out.members[j];
        assert(group.members[i].entry.path == out.members[j].path);
    }
}

/// Every file of a group of similar files made ready for the report is one of
/// the group, with its path, size and time, its own content hash, and with what
/// was found by probing it exactly where probing is on. The group has the number
/// that it is given, and a name with that number in place of a hash.
pub proof fn lemma_built_members(
    group: SimilarGroupView,
    index: nat,
    keep_smaller: bool,
    probe: bool,
    infos: Seq<Option<MediaView>>,
    hashes: Seq<Option<Seq<char>>>,
    out: GroupView,
    x: int,
) -> (i: int)
    requires
        group.members.len() <= usize::MAX,
        is_built(group, index, keep_smaller, probe, infos, hashes, out),
        0 <= x < out.members.len(),
    ensures
        out.index == index,
        out.hash == "similar#"@ + text::decimal(index),
        out.media_kind == group.kind,
        0 <= i < group.members.len(),
        out.members[x].path == group.members[i].entry.path,
        out.members[x].size == group.members[i].entry.size,
        out.members[x].mtime_secs == group.members[i].entry.mtime_secs,
        out.members[x].content_hash == hashes[i],
        probe ==> out.members[x].media == infos[i],
        !probe ==> out.members[x].media is None,
{
    broadcast use vstd::seq_lib::group_to_multiset_ensures;

    let k = choose|k: int|
        {
            &&& #[trigger] is_best(group.members, keep_smaller, k)
            &&& out.index == index
            &&& out.hash == "similar#"@ + text::decimal(index)
            &&& out.media_kind == group.kind
            &&& matching::arranged(
                matching::marked(report_members(group, k, probe, infos, hashes), k),
                k,
                out.members,
            )
        };
    let members = report_members(group, k, probe, infos, hashes);
    let marked = matching::marked(members, k);
    matching::lemma_arranged(members, k, out.members);
    assert(out.members.to_multiset().contains(out.members[x]));
    assert(marked.contains(out.members[x]));
    let i = choose|i: int| 0 <= i < marked.len() && marked[i] == out.members[x];
    assert(members[i].path == group.members[i].entry.path);
    i
}

/// Behind the file that is kept, the files of a group of similar files stand by
/// path.
pub proof fn lemma_built_by_path(
    group: SimilarGroupView,
    index: nat,
    keep_smaller: bool,
    probe: bool,
    infos: Seq<Option<MediaView>>,
    hashes: Seq<Option<Seq<char>>>,
    out: GroupView,
    i: int,
    j: int,
)
    requires
        group.members.len() <= usize::MAX,
        is_built(group, index, keep_smaller, probe, infos, hashes, out),
        1 <= i < j < out.members.len(),
    ensures
        !out.members[j].path.less(out.members[i].path),
{
    let k = choose|k: int|
        {
            &&& #[trigger] is_best(group.members, keep_smaller, k)
            &&& matching::arranged(
                matching::marked(report_members(group, k, probe, infos, hashes), k),
                k,
                out.members,
            )
        };
    let marked = matching::marked(report_members(group, k, probe, infos, hashes), k);
    matching::lemma_rest_by_path(marked, k, out.members, i, j);
}

/// Groups of similar files are numbered one after the other, in their order.
pub proof fn lemma_built_numbers(
    groups: Seq<SimilarGroupView>,
    start: nat,
    keep_smaller: bool,
    probe: bool,
    infos: Seq<Seq<Option<MediaView>>>,
    hashes: Seq<Seq<Option<Seq<char>>>>,
    out: Seq<GroupView>,
    i: int,
)
    requires
        are_built(groups, start, keep_smaller, probe, infos, hashes, out),
        0 <= i < groups.len(),
    ensures
        out.len() == groups.len(),
        out[i].index == start + i,
        out[i].hash == "similar#"@ + text::decimal((start + i) as nat),
        out[i].media_kind == groups[i].kind,
{
    assert(is_built(
        groups[i],
        (start + i) as nat,
        keep_smaller,
        probe,
        infos[i],
        hashes[i],
        out[i],
    ));
}

} // verus!
