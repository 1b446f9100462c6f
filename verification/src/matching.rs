//! Groups of duplicates as they are reported, each with the file to keep.

use crate::binary64;
use crate::binary64::{Binary64, Float};
use crate::bucket;
use crate::hashing;
use crate::hashing::{DuplicateGroup, DuplicateView};
use crate::media;
use crate::media::{classify, MediaInfo, MediaKind, MediaView};
use crate::order;
use crate::order::{stable_sort, Rank, SortKey};
use crate::path::{FilePath, PathView};
use crate::scan;
use crate::scan::{EntryView, FileEntry};
use crate::text;
use crate::text::chars_of;
use vstd::prelude::*;

verus! {

/// A file inside a duplicate group, with its keep decision and media metadata.
#[derive(Debug)]
pub struct GroupMember {
    pub path: FilePath,
    pub size: u64,
    pub mtime_secs: Option<i64>,
    pub keep: bool,
    pub media: Option<MediaInfo>,
    /// Perceptual similarity to the file that is kept (0..=1; exactly 1 for
    /// that file itself); `None` for exact duplicates.
    pub similarity: Option<Binary64>,
    /// The file's own content hash, where the group has none in common: it is
    /// checked before the file is deleted.
    pub content_hash: Option<String>,
}

/// What is known of a file inside a group.
#[verifier::ext_equal]
pub struct MemberView {
    pub path: PathView,
    pub size: u64,
    pub mtime_secs: Option<i64>,
    pub keep: bool,
    pub media: Option<MediaView>,
    pub similarity: Option<Float>,
    pub content_hash: Option<Seq<char>>,
}

impl View for GroupMember {
    type V = MemberView;

    open spec fn view(&self) -> MemberView {
        MemberView {
            path: self.path@,
            size: self.size,
            mtime_secs: self.mtime_secs,
            keep: self.keep,
            media: media::info_view(self.media),
            similarity: binary64::option_float(self.similarity),
            content_hash: text::option_text(self.content_hash),
        }
    }
}

/// What is known of each file in a list.
pub open spec fn member_views(members: Seq<GroupMember>) -> Seq<MemberView> {
    members.map_values(|m: GroupMember| m@)
}

impl SortKey for GroupMember {
    open spec fn sort_key(&self) -> Seq<Seq<int>> {
        self.path@.key()
    }

    fn rank(&self, other: &Self) -> (r: Rank) {
        self.path.rank(&other.path)
    }
}

/// A set of duplicates, with the file to keep first.
#[derive(Debug)]
pub struct Group {
    pub index: usize,
    pub hash: String,
    pub media_kind: MediaKind,
    /// The lowest similarity of any two files in the group (0..=1); `None` for
    /// exact duplicates.
    pub similarity: Option<Binary64>,
    pub members: Vec<GroupMember>,
}

/// What is known of a group.
#[verifier::ext_equal]
pub struct GroupView {
    pub index: nat,
    pub hash: Seq<char>,
    pub media_kind: MediaKind,
    pub similarity: Option<Float>,
    pub members: Seq<MemberView>,
}

impl View for Group {
    type V = GroupView;

    open spec fn view(&self) -> GroupView {
        GroupView {
            index: self.index as nat,
            hash: self.hash@,
            media_kind: self.media_kind,
            similarity: binary64::option_float(self.similarity),
            members: member_views(self.members@),
        }
    }
}

/// What is known of each group in a list.
pub open spec fn group_views(groups: Seq<Group>) -> Seq<GroupView> {
    groups.map_values(|g: Group| g@)
}

impl SortKey for Group {
    open spec fn sort_key(&self) -> Seq<Seq<int>> {
        hash_key(self.hash@)
    }

    fn rank(&self, other: &Self) -> (r: Rank) {
        proof {
            let a = hash_key(self.hash@);
            let b = hash_key(other.hash@);
            assert(a.skip(1) =~= b.skip(1));
            order::lemma_rank_key_equal(a.skip(1), b.skip(1));
        }
        rank_text(self.hash.as_str(), other.hash.as_str())
    }
}

/// The key by which groups are sorted: the characters of their hashes.
pub open spec fn hash_key(hash: Seq<char>) -> Seq<Seq<int>> {
    seq![bucket::text_ident(hash)]
}

/// Compares texts character by character.
fn rank_text(a: &str, b: &str) -> (r: Rank)
    ensures
        r == order::rank_word(bucket::text_ident(a@), bucket::text_ident(b@)),
{
    let x = chars_of(a);
    let y = chars_of(b);
    let ghost ka = bucket::text_ident(x@);
    let ghost kb = bucket::text_ident(y@);
    let mut i: usize = 0;
    assert(ka.skip(0) =~= ka);
    assert(kb.skip(0) =~= kb);
    while i < x.len() && i < y.len()
        invariant
            0 <= i <= x@.len(),
            i <= y@.len(),
            x@ == a@,
            y@ == b@,
            ka == bucket::text_ident(x@),
            kb == bucket::text_ident(y@),
            order::rank_word(ka, kb) == order::rank_word(ka.skip(i as int), kb.skip(i as int)),
        decreases x@.len() - i,
    {
        assert(ka.skip(i as int)[0] == x@[i as int] as int);
        assert(kb.skip(i as int)[0] == y@[i as int] as int);
        if x[i] < y[i] {
            return Rank::Less;
        }
        if y[i] < x[i] {
            return Rank::Greater;
        }
        assert(ka.skip(i as int).skip(1) =~= ka.skip(i + 1));
        assert(kb.skip(i as int).skip(1) =~= kb.skip(i + 1));
        i = i + 1;
    }
    if i < y.len() {
        Rank::Less
    } else if i < x.len() {
        Rank::Greater
    } else {
        Rank::Equal
    }
}

/// How many files of a group are kept.
pub open spec fn kept(members: Seq<MemberView>) -> nat
    decreases members.len(),
{
    if members.len() == 0 {
        0
    } else if members.last().keep {
        kept(members.drop_last()) + 1
    } else {
        kept(members.drop_last())
    }
}

/// How many bytes the files of a group have that are not kept.
pub open spec fn spare_bytes(members: Seq<MemberView>) -> nat
    decreases members.len(),
{
    if members.len() == 0 {
        0
    } else if members.last().keep {
        spare_bytes(members.drop_last())
    } else {
        spare_bytes(members.drop_last()) + members.last().size as nat
    }
}

/// Fewer files have no more bytes to spare.
pub proof fn lemma_spare_bytes_grow(members: Seq<MemberView>, i: int)
    requires
        0 <= i <= members.len(),
    ensures
        spare_bytes(members.take(i)) <= spare_bytes(members),
    decreases members.len() - i,
{
    if i < members.len() {
        lemma_spare_bytes_grow(members, i + 1);
        assert(members.take(i + 1).drop_last() =~= members.take(i));
    } else {
        assert(members.take(i) =~= members);
    }
}

/// No more files are kept than there are.
pub proof fn lemma_kept_bound(members: Seq<MemberView>)
    ensures
        kept(members) <= members.len(),
    decreases members.len(),
{
    if members.len() > 0 {
        lemma_kept_bound(members.drop_last());
    }
}

impl Group {
    /// Counts the files that are kept.
    pub fn keep_count(&self) -> (n: usize)
        ensures
            n == kept(self@.members),
    {
        let mut n: usize = 0;
        let mut i: usize = 0;
        while i < self.members.len()
            invariant
                0 <= i <= self.members@.len(),
                n <= i,
                n == kept(self@.members.take(i as int)),
            decreases self.members@.len() - i,
        {
            assert(self@.members.take(i + 1).drop_last() =~= self@.members.take(i as int));
            if self.members[i].keep {
                n = n + 1;
            }
            i = i + 1;
        }
        assert(self@.members.take(i as int) =~= self@.members);
        n
    }

    /// Bytes that would be freed by deleting every file that is not kept.
    pub fn dup_bytes(&self) -> (n: u64)
        requires
            spare_bytes(self@.members) <= u64::MAX,
        ensures
            n == spare_bytes(self@.members),
    {
        let mut n: u64 = 0;
        let mut i: usize = 0;
        while i < self.members.len()
            invariant
                0 <= i <= self.members@.len(),
                n == spare_bytes(self@.members.take(i as int)),
                spare_bytes(self@.members) <= u64::MAX,
            decreases self.members@.len() - i,
        {
            proof {
                assert(self@.members.take(i + 1).drop_last() =~= self@.members.take(i as int));
                lemma_spare_bytes_grow(self@.members, i + 1);
            }
            if !self.members[i].keep {
                n = n + self.members[i].size;
            }
            i = i + 1;
        }
        assert(self@.members.take(i as int) =~= self@.members);
        n
    }
}

/// The key that decides which file is kept: the path, behind the size where
/// smaller files are preferred.
pub open spec fn keep_key(e: EntryView, keep_smaller: bool) -> Seq<Seq<int>> {
    if keep_smaller {
        sized_key(e)
    } else {
        e.path.key()
    }
}

/// A key that compares sizes first, then paths.
pub open spec fn sized_key(e: EntryView) -> Seq<Seq<int>> {
    seq![seq![e.size as int]] + e.path.key()
}

/// The keys that decide which file is kept.
pub open spec fn keep_keys(members: Seq<EntryView>, keep_smaller: bool) -> Seq<Seq<Seq<int>>> {
    members.map_values(|e: EntryView| keep_key(e, keep_smaller))
}

/// Compares sizes first, then paths.
pub fn rank_sized(a: &FileEntry, b: &FileEntry) -> (r: Rank)
    ensures
        r == order::rank_key(sized_key(a@), sized_key(b@)),
{
    proof {
        let ka = sized_key(a@);
        let kb = sized_key(b@);
        assert(ka.skip(1) =~= a@.path.key());
        assert(kb.skip(1) =~= b@.path.key());
        assert(ka[0].skip(1) =~= kb[0].skip(1));
        order::lemma_rank_word_equal(ka[0].skip(1), kb[0].skip(1));
    }
    if a.size < b.size {
        Rank::Less
    } else if b.size < a.size {
        Rank::Greater
    } else {
        a.path.rank(&b.path)
    }
}

/// Chooses the file to keep: the first path, or, where smaller files are
/// preferred, the smallest file, ties broken by path.
pub fn choose_keep(members: &Vec<FileEntry>, keep_smaller: bool) -> (best: usize)
    requires
        members@.len() > 0,
    ensures
        order::first_least(
            keep_keys(scan::entry_views(members@), keep_smaller),
            best as int,
        ),
{
    let ghost keys = keep_keys(scan::entry_views(members@), keep_smaller);
    let mut best: usize = 0;
    let mut i: usize = 1;
    proof {
        order::lemma_rank_key_equal(keys[0], keys[0]);
        assert(order::first_least(keys.take(1), 0));
    }
    while i < members.len()
        invariant
            1 <= i <= members@.len(),
            keys == keep_keys(scan::entry_views(members@), keep_smaller),
            order::first_least(keys.take(i as int), best as int),
        decreases members@.len() - i,
    {
        let r = if keep_smaller {
            rank_sized(&members[i], &members[best])
        } else {
            members[i].path.rank(&members[best].path)
        };
        proof {
            order::lemma_first_least_step(keys, i as int, best as int);
        }
        match r {
            Rank::Less => {
                best = i;
            },
            _ => {},
        }
        i = i + 1;
    }
    assert(keys.take(i as int) =~= keys);
    best
}

/// The files of a group, of which the one at position `k` is kept.
pub open spec fn marked(members: Seq<MemberView>, k: int) -> Seq<MemberView> {
    Seq::new(members.len(), |i: int| MemberView { keep: i == k, ..members[i] })
}

/// The keys by which the files of a group are sorted: their paths.
pub open spec fn path_keys(members: Seq<MemberView>) -> Seq<Seq<Seq<int>>> {
    members.map_values(|m: MemberView| m.path.key())
}

/// `out` has the file at position `k` first, then the others by path.
pub open spec fn arranged(members: Seq<MemberView>, k: int, out: Seq<MemberView>) -> bool {
    &&& 0 <= k < members.len()
    &&& out.len() == members.len()
    &&& out[0] == members[k]
    &&& order::stable_sorted(members.remove(k), path_keys(members.remove(k)), out.skip(1))
}

/// Marks the file at position `k` as the one to keep, and puts it first and
/// the others behind it by path.
pub fn arrange(members: Vec<GroupMember>, k: usize) -> (out: Vec<GroupMember>)
    requires
        k < members@.len(),
        forall|i: int| 0 <= i < members@.len() ==> !(#[trigger] members@[i]).keep,
    ensures
        arranged(marked(member_views(members@), k as int), k as int, member_views(out@)),
{
    let ghost all = member_views(members@);
    let ghost ms = marked(all, k as int);
    assert(members.len() == members@.len());
    let mut rest = members;
    let mut keeper = rest.remove(k);
    keeper.keep = true;
    let ghost others = rest@;
    assert(member_views(others) =~= ms.remove(k as int));
    let sorted = stable_sort(rest);
    proof {
        let f = |m: GroupMember| m@;
        order::lemma_sorted_map(others, order::keys_of(others), sorted@, f);
        assert(order::keys_of(others) =~= path_keys(ms.remove(k as int)));
    }
    let ghost tail = sorted@;
    let mut out: Vec<GroupMember> = Vec::new();
    out.push(keeper);
    assert(tail.take(0) =~= Seq::empty());
    for m in it: sorted
        invariant
            it.seq() == tail,
            out@ == seq![keeper] + tail.take(it.index()),
    {
        out.push(m);
        assert(tail.take(it.index() + 1) =~= tail.take(it.index()).push(m));
        assert(out@ =~= seq![keeper] + tail.take(it.index() + 1));
    }
    assert(tail.take(tail.len() as int) =~= tail);
    assert(member_views(out@).skip(1) =~= member_views(tail));
    assert(member_views(out@)[0] == keeper@);
    assert(ms[k as int] == keeper@);
    out
}

/// What the metadata of each file is, where it has any.
pub open spec fn info_views(infos: Seq<Option<MediaInfo>>) -> Seq<Option<MediaView>> {
    infos.map_values(|i: Option<MediaInfo>| media::info_view(i))
}

/// The files of a group of exact duplicates, with the metadata found by
/// probing them, where they were to be probed.
pub open spec fn exact_members(
    entries: Seq<EntryView>,
    wanted: bool,
    infos: Seq<Option<MediaView>>,
) -> Seq<MemberView> {
    Seq::new(
        entries.len(),
        |i: int|
            MemberView {
                path: entries[i].path,
                size: entries[i].size,
                mtime_secs: entries[i].mtime_secs,
                keep: false,
                media: if wanted {
                    infos[i]
                } else {
                    None
                },
                similarity: None,
                content_hash: None,
            },
    )
}

/// The files of a group are probed where they are media and probing is on.
pub open spec fn probing(kind: MediaKind, probe: bool) -> bool {
    probe && kind != MediaKind::Other
}

/// `out` is a group of exact duplicates made ready for the report: it has the
/// kind of the file that is kept, and metadata where that file is media and
/// probing is on.
pub open spec fn is_assembled(
    group: DuplicateView,
    index: nat,
    keep_smaller: bool,
    probe: bool,
    infos: Seq<Option<MediaView>>,
    out: GroupView,
) -> bool {
    exists|k: int|
        {
            let kind = media::kind_of(group.members[k].path);
            let members = exact_members(group.members, probing(kind, probe), infos);
            &&& #[trigger] order::first_least(keep_keys(group.members, keep_smaller), k)
            &&& out.index == index
            &&& out.hash == group.hash
            &&& out.media_kind == kind
            &&& out.similarity is None
            &&& arranged(marked(members, k), k, out.members)
        }
}

/// Tells whether the files of a group are to be probed.
pub fn probe_wanted(group: &DuplicateGroup, keep_smaller: bool, probe: bool) -> (r: bool)
    requires
        group.members@.len() > 0,
    ensures
        forall|k: int|
            #[trigger] order::first_least(keep_keys(group@.members, keep_smaller), k) ==> r
                == probing(media::kind_of(group@.members[k].path), probe),
{
    let keep = choose_keep(&group.members, keep_smaller);
    let kind = classify(&group.members[keep].path);
    proof {
        assert forall|k: int|
            #[trigger] order::first_least(keep_keys(group@.members, keep_smaller), k) implies k
            == keep by {
            order::lemma_first_least_unique(
                keep_keys(group@.members, keep_smaller),
                keep as int,
                k,
            );
        }
    }
    probe && kind != MediaKind::Other
}

/// Copies metadata that may be missing.
pub fn copy_info(info: &Option<MediaInfo>) -> (r: Option<MediaInfo>)
    ensures
        media::info_view(r) == media::info_view(*info),
{
    match info {
        Some(i) => Some(i.clone()),
        None => None,
    }
}

/// Turns one set of identical files into a group for the report, given what
/// probing each file found.
pub fn assemble_group(
    group: &DuplicateGroup,
    index: usize,
    keep_smaller: bool,
    probe: bool,
    infos: &Vec<Option<MediaInfo>>,
) -> (out: Group)
    requires
        group.members@.len() > 0,
        infos@.len() == group.members@.len(),
    ensures
        is_assembled(
            group@,
            index as nat,
            keep_smaller,
            probe,
            info_views(infos@),
            out@,
        ),
{
    let keep = choose_keep(&group.members, keep_smaller);
    let media_kind = classify(&group.members[keep].path);
    let wanted = probe && media_kind != MediaKind::Other;
    let ghost expected = exact_members(group@.members, wanted, info_views(infos@));
    let mut members: Vec<GroupMember> = Vec::new();
    let mut i: usize = 0;
    while i < group.members.len()
        invariant
            0 <= i <= group.members@.len(),
            infos@.len() == group.members@.len(),
            expected == exact_members(group@.members, wanted, info_views(infos@)),
            members@.len() == i,
            forall|j: int| 0 <= j < i ==> (#[trigger] members@[j])@ == expected[j],
        decreases group.members@.len() - i,
    {
        let e = &group.members[i];
        let media = if wanted {
            copy_info(&infos[i])
        } else {
            None
        };
        members.push(
            GroupMember {
                path: e.path.clone(),
                size: e.size,
                mtime_secs: e.mtime_secs,
                keep: false,
                media,
                similarity: None,
                content_hash: None,
            },
        );
        assert(members@[i as int]@ == expected[i as int]);
        i = i + 1;
    }
    assert(member_views(members@) =~= expected);
    assert forall|j: int| 0 <= j < members@.len() implies !(#[trigger] members@[j]).keep by {
        assert(members@[j]@ == expected[j]);
    }
    let ordered = arrange(members, keep);
    Group { index, hash: group.hash.clone(), media_kind, similarity: None, members: ordered }
}

/// What the metadata of each file in each group is.
pub open spec fn all_info_views(infos: Seq<Vec<Option<MediaInfo>>>) -> Seq<
    Seq<Option<MediaView>>,
> {
    infos.map_values(|i: Vec<Option<MediaInfo>>| info_views(i@))
}

/// The keys by which groups are sorted.
pub open spec fn hash_keys(groups: Seq<GroupView>) -> Seq<Seq<Seq<int>>> {
    groups.map_values(|g: GroupView| hash_key(g.hash))
}

/// `out` are the groups made ready for the report, numbered from one on in
/// the order that they come in, then sorted by hash.
pub open spec fn are_assembled(
    groups: Seq<DuplicateView>,
    keep_smaller: bool,
    probe: bool,
    infos: Seq<Seq<Option<MediaView>>>,
    out: Seq<GroupView>,
) -> bool {
    exists|ready: Seq<GroupView>|
        {
            &&& ready.len() == groups.len()
            &&& forall|i: int|
                0 <= i < groups.len() ==> is_assembled(
                    groups[i],
                    (i + 1) as nat,
                    keep_smaller,
                    probe,
                    infos[i],
                    #[trigger] ready[i],
                )
            &&& #[trigger] order::stable_sorted(ready, hash_keys(ready), out)
        }
}

/// Turn sets of identical files into groups for the report, given what
/// probing each file found:
/// - choose which file to keep (default: first path; where smaller files are
///   preferred: the smallest file, ties broken by path),
/// - identify the group's media kind, from the file that is kept,
/// - take over resolution and duration for media groups.
pub fn assemble_groups(
    groups: &Vec<DuplicateGroup>,
    keep_smaller: bool,
    probe: bool,
    infos: &Vec<Vec<Option<MediaInfo>>>,
) -> (out: Vec<Group>)
    requires
        infos@.len() == groups@.len(),
        forall|i: int|
            0 <= i < groups@.len() ==> (#[trigger] groups@[i]).members@.len() > 0
                && infos@[i]@.len() == groups@[i].members@.len(),
    ensures
        are_assembled(
            hashing::duplicate_views(groups@),
            keep_smaller,
            probe,
            all_info_views(infos@),
            group_views(out@),
        ),
{
    let ghost views = hashing::duplicate_views(groups@);
    let ghost seen = all_info_views(infos@);
    let mut ready: Vec<Group> = Vec::new();
    let mut i: usize = 0;
    while i < groups.len()
        invariant
            0 <= i <= groups@.len(),
            infos@.len() == groups@.len(),
            views == hashing::duplicate_views(groups@),
            seen == all_info_views(infos@),
            forall|j: int|
                0 <= j < groups@.len() ==> (#[trigger] groups@[j]).members@.len() > 0
                    && infos@[j]@.len() == groups@[j].members@.len(),
            ready@.len() == i,
            forall|j: int|
                0 <= j < i ==> is_assembled(
                    views[j],
                    (j + 1) as nat,
                    keep_smaller,
                    probe,
                    seen[j],
                    (#[trigger] ready@[j])@,
                ),
        decreases groups@.len() - i,
    {
        assert(groups@[i as int].members@.len() > 0);
        let group = assemble_group(&groups[i], i + 1, keep_smaller, probe, &infos[i]);
        ready.push(group);
        i = i + 1;
    }
    let ghost before = ready@;
    assert(ready.len() == ready@.len());
    let out = stable_sort(ready);
    proof {
        let f = |g: Group| g@;
        order::lemma_sorted_map(before, order::keys_of(before), out@, f);
        let views_before = group_views(before);
        assert(order::keys_of(before) =~= hash_keys(views_before));
        assert(before.map_values(f) =~= views_before);
        assert(out@.map_values(f) =~= group_views(out@));
        assert forall|j: int| 0 <= j < views.len() implies is_assembled(
            views[j],
            (j + 1) as nat,
            keep_smaller,
            probe,
            seen[j],
            #[trigger] views_before[j],
        ) by {
            assert(before[j]@ == views_before[j]);
        }
        assert(order::stable_sorted(views_before, hash_keys(views_before), group_views(out@)));
    }
    out
}

/// Where only the first file is kept, one is kept.
proof fn lemma_kept_first(members: Seq<MemberView>)
    requires
        members.len() > 0,
        members[0].keep,
        forall|i: int| 1 <= i < members.len() ==> !(#[trigger] members[i]).keep,
    ensures
        kept(members) == 1,
    decreases members.len(),
{
    if members.len() > 1 {
        lemma_kept_first(members.drop_last());
    } else {
        assert(kept(members.drop_last()) == 0);
    }
}

/// An arranged group keeps exactly one file, which comes first, and holds the
/// same files as before.
pub proof fn lemma_arranged(members: Seq<MemberView>, k: int, out: Seq<MemberView>)
    requires
        members.len() <= usize::MAX,
        arranged(marked(members, k), k, out),
    ensures
        out[0].keep,
        forall|i: int| 1 <= i < out.len() ==> !(#[trigger] out[i]).keep,
        kept(out) == 1,
        out.to_multiset() == marked(members, k).to_multiset(),
{
    broadcast use vstd::seq_lib::group_to_multiset_ensures;

    let ms = marked(members, k);
    let rest = ms.remove(k);
    order::lemma_sorted_permutes(rest, path_keys(rest), out.skip(1));
    assert forall|i: int| 1 <= i < out.len() implies !(#[trigger] out[i]).keep by {
        assert(out.skip(1)[i - 1] == out[i]);
        assert(rest.contains(out[i]));
        let j = choose|j: int| 0 <= j < rest.len() && rest[j] == out[i];
        assert(rest[j] == if j < k {
            ms[j]
        } else {
            ms[j + 1]
        });
    }
    lemma_kept_first(out);
    assert(out.remove(0) =~= out.skip(1));
    assert(out.to_multiset() =~= ms.to_multiset()) by {
        assert(out.remove(0).to_multiset() =~= out.to_multiset().remove(out[0]));
        assert(ms.remove(k).to_multiset() =~= ms.to_multiset().remove(ms[k]));
        assert(out.to_multiset().contains(out[0]));
        assert(ms.to_multiset().contains(ms[k]));
        assert(out.to_multiset() =~= out.to_multiset().remove(out[0]).insert(out[0]));
        assert(ms.to_multiset() =~= ms.to_multiset().remove(ms[k]).insert(ms[k]));
    }
}

/// A group of exact duplicates keeps exactly one of its files, listed first:
/// the smallest, where smaller files are preferred, and of those the one with
/// the first path; else the one with the first path.
pub proof fn lemma_keeper(
    group: DuplicateView,
    index: nat,
    keep_smaller: bool,
    probe: bool,
    infos: Seq<Option<MediaView>>,
    out: GroupView,
)
    requires
        group.members.len() <= usize::MAX,
        is_assembled(group, index, keep_smaller, probe, infos, out),
    ensures
        out.members.len() == group.members.len(),
        out.members[0].keep,
        kept(out.members) == 1,
        exists|k: int|
            {
                let keeper = #[trigger] group.members[k];
                &&& 0 <= k < group.members.len()
                &&& keeper.path == out.members[0].path
                &&& keeper.size == out.members[0].size
                &&& forall|j: int|
                    0 <= j < group.members.len() ==> {
                        let other = #[trigger] group.members[j];
                        if keep_smaller {
                            keeper.size < other.size || (keeper.size == other.size
                                && !other.path.less(keeper.path))
                        } else {
                            !other.path.less(keeper.path)
                        }
                    }
            },
{
    let keys = keep_keys(group.members, keep_smaller);
    let k = choose|k: int|
        {
            let kind = media::kind_of(group.members[k].path);
            let members = exact_members(group.members, probing(kind, probe), infos);
            &&& #[trigger] order::first_least(keys, k)
            &&& out.media_kind == kind
            &&& arranged(marked(members, k), k, out.members)
        };
    let members = exact_members(
        group.members,
        probing(media::kind_of(group.members[k].path), probe),
        infos,
    );
    lemma_arranged(members, k, out.members);
    let keeper = group.members[k];
    assert forall|j: int| 0 <= j < group.members.len() implies {
        let other = #[trigger] group.members[j];
        if keep_smaller {
            keeper.size < other.size || (keeper.size == other.size && !other.path.less(
                keeper.path,
            ))
        } else {
            !other.path.less(keeper.path)
        }
    } by {
        let other = group.members[j];
        assert(order::rank_key(keys[k], keys[j]) != Rank::Greater);
        order::lemma_rank_key_flip(keeper.path.key(), other.path.key());
        if keep_smaller {
            let a = sized_key(keeper);
            let b = sized_key(other);
            assert(keys[k] == a && keys[j] == b);
            assert(a.skip(1) =~= keeper.path.key());
            assert(b.skip(1) =~= other.path.key());
            assert(a[0].skip(1) =~= b[0].skip(1));
            order::lemma_rank_word_equal(a[0].skip(1), b[0].skip(1));
        }
    }
    assert(group.members[k].path == out.members[0].path);
}

/// What is kept and what is spared adds up over the files: a file that is kept
/// counts as one kept and spares nothing, and one that is not spares its size.
pub proof fn lemma_spare_adds(a: Seq<MemberView>, b: Seq<MemberView>, m: MemberView)
    ensures
        kept(a + b) == kept(a) + kept(b),
        spare_bytes(a + b) == spare_bytes(a) + spare_bytes(b),
        m.keep ==> kept(seq![m]) == 1 && spare_bytes(seq![m]) == 0,
        !m.keep ==> kept(seq![m]) == 0 && spare_bytes(seq![m]) == m.size,
        kept(Seq::<MemberView>::empty()) == 0,
        spare_bytes(Seq::<MemberView>::empty()) == 0,
    decreases b.len(),
{
    let one = seq![m];
    let none = Seq::<MemberView>::empty();
    assert(one.drop_last() =~= none);
    assert(kept(none) == 0 && spare_bytes(none) == 0);
    assert(one.last() == m);
    if b.len() == 0 {
        assert(a + b =~= a);
    } else {
        assert((a + b).drop_last() =~= a + b.drop_last());
        assert((a + b).last() == b.last());
        lemma_spare_adds(a, b.drop_last(), m);
    }
}

/// Behind the file that is kept, the files of a group stand by path.
pub proof fn lemma_rest_by_path(members: Seq<MemberView>, k: int, out: Seq<MemberView>, i: int, j: int)
    requires
        members.len() <= usize::MAX,
        arranged(members, k, out),
        1 <= i < j < out.len(),
    ensures
        !out[j].path.less(out[i].path),
{
    let rest = members.remove(k);
    let key = |m: MemberView| m.path.key();
    assert(path_keys(rest) =~= rest.map_values(key));
    order::lemma_sorted_in_order(rest, path_keys(rest), key, out.skip(1), i - 1, j - 1);
    assert(out.skip(1)[i - 1] == out[i]);
    assert(out.skip(1)[j - 1] == out[j]);
}

/// Every file of a group that is made ready for the report is one of the group,
/// with its path, size and time, and with what was found by probing it exactly
/// where probing is on and the file that is kept is media. No file goes missing.
pub proof fn lemma_assembled_members(
    group: DuplicateView,
    index: nat,
    keep_smaller: bool,
    probe: bool,
    infos: Seq<Option<MediaView>>,
    out: GroupView,
)
    requires
        group.members.len() <= usize::MAX,
        is_assembled(group, index, keep_smaller, probe, infos, out),
    ensures
        out.index == index,
        out.hash == group.hash,
        out.similarity is None,
        out.media_kind == media::kind_of(out.members[0].path),
        forall|x: int|
            0 <= x < out.members.len() ==> exists|j: int|
                {
                    &&& 0 <= j < group.members.len()
                    &&& (#[trigger] out.members[x]).path == (#[trigger] group.members[j]).path
                    &&& out.members[x].size == group.members[j].size
                    &&& out.members[x].mtime_secs == group.members[j].mtime_secs
                    &&& out.members[x].similarity is None
                    &&& out.members[x].content_hash is None
                    &&& probe && out.media_kind != MediaKind::Other ==> out.members[x].media
                        == infos[j]
                    &&& !probe || out.media_kind == MediaKind::Other ==> out.members[x].media
                        is None
                },
        forall|j: int|
            0 <= j < group.members.len() ==> exists|x: int|
                0 <= x < out.members.len() && (#[trigger] out.members[x]).path == (
                #[trigger] group.members[j]).path,
{
    broadcast use vstd::seq_lib::group_to_multiset_ensures;

    let keys = keep_keys(group.members, keep_smaller);
    let k = choose|k: int|
        {
            let kind = media::kind_of(group.members[k].path);
            let members = exact_members(group.members, probing(kind, probe), infos);
            &&& #[trigger] order::first_least(keys, k)
            &&& out.index == index
            &&& out.hash == group.hash
            &&& out.media_kind == kind
            &&& out.similarity is None
            &&& arranged(marked(members, k), k, out.members)
        };
    let kind = media::kind_of(group.members[k].path);
    let members = exact_members(group.members, probing(kind, probe), infos);
    let ms = marked(members, k);
    lemma_arranged(members, k, out.members);
    assert(out.members[0].path == group.members[k].path);
    assert forall|x: int| 0 <= x < out.members.len() implies exists|j: int|
        {
            &&& 0 <= j < group.members.len()
            &&& (#[trigger] out.members[x]).path == (#[trigger] group.members[j]).path
            &&& out.members[x].size == group.members[j].size
            &&& out.members[x].mtime_secs == group.members[j].mtime_secs
            &&& out.members[x].similarity is None
            &&& out.members[x].content_hash is None
            &&& probe && out.media_kind != MediaKind::Other ==> out.members[x].media == infos[j]
            &&& !probe || out.media_kind == MediaKind::Other ==> out.members[x].media is None
        } by {
        assert(out.members.to_multiset().contains(out.members[x]));
        assert(ms.contains(out.members[x]));
        let j = choose|j: int| 0 <= j < ms.len() && ms[j] == out.members[x];
        assert(ms[j].path == group.members[j].path);
    }
    assert forall|j: int| 0 <= j < group.members.len() implies exists|x: int|
        0 <= x < out.members.len() && (#[trigger] out.members[x]).path == (
        #[trigger] group.members[j]).path by {
        assert(ms.contains(ms[j]));
        assert(ms.to_multiset().contains(ms[j]));
        assert(out.members.contains(ms[j]));
        let x = choose|x: int| 0 <= x < out.members.len() && out.members[x] == ms[j];
        assert(out.members[x].path == group.members[j].path);
    }
}

/// Groups are numbered from one on in the order that they come in, whatever
/// place they have in the report.
pub proof fn lemma_numbered_by_arrival(
    groups: Seq<DuplicateView>,
    keep_smaller: bool,
    probe: bool,
    infos: Seq<Seq<Option<MediaView>>>,
    out: Seq<GroupView>,
    i: int,
) -> (g: int)
    requires
        groups.len() <= usize::MAX,
        are_assembled(groups, keep_smaller, probe, infos, out),
        0 <= i < groups.len(),
    ensures
        out.len() == groups.len(),
        0 <= g < out.len(),
        out[g].index == i + 1,
        out[g].hash == groups[i].hash,
        is_assembled(groups[i], (i + 1) as nat, keep_smaller, probe, infos[i], out[g]),
{
    let ready = choose|ready: Seq<GroupView>|
        {
            &&& ready.len() == groups.len()
            &&& forall|i: int|
                0 <= i < groups.len() ==> is_assembled(
                    groups[i],
                    (i + 1) as nat,
                    keep_smaller,
                    probe,
                    infos[i],
                    #[trigger] ready[i],
                )
            &&& #[trigger] order::stable_sorted(ready, hash_keys(ready), out)
        };
    order::lemma_sorted_permutes(ready, hash_keys(ready), out);
    assert(is_assembled(groups[i], (i + 1) as nat, keep_smaller, probe, infos[i], ready[i]));
    assert(ready.contains(ready[i]));
    assert(out.contains(ready[i]));
    choose|g: int| 0 <= g < out.len() && out[g] == ready[i]
}

/// In the report groups stand by hash.
pub proof fn lemma_listed_by_hash(
    groups: Seq<DuplicateView>,
    keep_smaller: bool,
    probe: bool,
    infos: Seq<Seq<Option<MediaView>>>,
    out: Seq<GroupView>,
    a: int,
    b: int,
)
    requires
        groups.len() <= usize::MAX,
        are_assembled(groups, keep_smaller, probe, infos, out),
        0 <= a < b < out.len(),
    ensures
        order::rank_key(hash_key(out[b].hash), hash_key(out[a].hash)) != Rank::Less,
{
    let ready = choose|ready: Seq<GroupView>|
        {
            &&& ready.len() == groups.len()
            &&& forall|i: int|
                0 <= i < groups.len() ==> is_assembled(
                    groups[i],
                    (i + 1) as nat,
                    keep_smaller,
                    probe,
                    infos[i],
                    #[trigger] ready[i],
                )
            &&& #[trigger] order::stable_sorted(ready, hash_keys(ready), out)
        };
    let key = |g: GroupView| hash_key(g.hash);
    assert(hash_keys(ready) =~= ready.map_values(key));
    order::lemma_sorted_in_order(ready, hash_keys(ready), key, out, a, b);
}

} // verus!
