//! Grouping the positions of a list by what stands there.

use crate::index;
use crate::index::HashIndex;
use vstd::prelude::*;

verus! {

/// A value by which things are grouped.
pub trait BucketKey {
    /// What the value is; two values are the same when this is.
    spec fn ident(&self) -> Seq<int>;

    /// The hash of what a value is.
    spec fn ident_hash(id: Seq<int>) -> u64;

    /// Hashes the value.
    fn hash(&self) -> (h: u64)
        ensures
            h == Self::ident_hash(self.ident()),
    ;

    /// Tells whether two values are the same.
    fn same(&self, other: &Self) -> (r: bool)
        ensures
            r == (self.ident() == other.ident()),
    ;
}

impl BucketKey for u64 {
    open spec fn ident(&self) -> Seq<int> {
        seq![*self as int]
    }

    open spec fn ident_hash(id: Seq<int>) -> u64 {
        id[0] as u64
    }

    fn hash(&self) -> (h: u64) {
        *self
    }

    fn same(&self, other: &Self) -> (r: bool) {
        assert(self.ident()[0] == *self && other.ident()[0] == *other);
        *self == *other
    }
}

impl BucketKey for i64 {
    open spec fn ident(&self) -> Seq<int> {
        seq![*self as int]
    }

    open spec fn ident_hash(id: Seq<int>) -> u64 {
        id[0] as u64
    }

    fn hash(&self) -> (h: u64) {
        *self as u64
    }

    fn same(&self, other: &Self) -> (r: bool) {
        assert(self.ident()[0] == *self && other.ident()[0] == *other);
        *self == *other
    }
}

impl BucketKey for (u32, u32) {
    open spec fn ident(&self) -> Seq<int> {
        seq![self.0 as int, self.1 as int]
    }

    open spec fn ident_hash(id: Seq<int>) -> u64 {
        index::mix(index::mix(index::HASH_START, id[0] as u32), id[1] as u32)
    }

    fn hash(&self) -> (h: u64) {
        index::mixed(index::mixed(index::HASH_START, self.0), self.1)
    }

    fn same(&self, other: &Self) -> (r: bool) {
        assert(self.ident()[0] == self.0 && other.ident()[0] == other.0);
        assert(self.ident()[1] == self.1 && other.ident()[1] == other.1);
        self.0 == other.0 && self.1 == other.1
    }
}

/// The characters of a text as numbers.
pub open spec fn text_ident(s: Seq<char>) -> Seq<int> {
    s.map_values(|c: char| c as int)
}

/// A text is what its characters are.
pub proof fn lemma_text_ident(a: Seq<char>, b: Seq<char>)
    ensures
        text_ident(a) == text_ident(b) <==> a == b,
{
    if text_ident(a) == text_ident(b) {
        assert(text_ident(a).len() == text_ident(b).len());
        assert forall|i: int| 0 <= i < a.len() implies a[i] == b[i] by {
            assert(text_ident(a)[i] == text_ident(b)[i]);
        }
        assert(a =~= b);
    }
}

/// What each position of a list is grouped by; some may have nothing.
pub open spec fn idents<K: BucketKey>(keys: Seq<Option<K>>) -> Seq<Option<Seq<int>>> {
    keys.map_values(
        |k: Option<K>|
            match k {
                Some(v) => Some(v.ident()),
                None => None,
            },
    )
}

/// `g` lists, in ascending order, all the positions at which the same thing
/// stands.
pub open spec fn is_class(ids: Seq<Option<Seq<int>>>, g: Seq<usize>) -> bool {
    &&& g.len() > 0
    &&& forall|k: int| 0 <= k < g.len() ==> #[trigger] g[k] < ids.len()
    &&& forall|j: int, k: int| 0 <= j < k < g.len() ==> #[trigger] g[j] < #[trigger] g[k]
    &&& ids[g[0] as int] is Some
    &&& forall|k: int| 0 <= k < g.len() ==> ids[#[trigger] g[k] as int] == ids[g[0] as int]
    &&& forall|i: int| 0 <= i < ids.len() && #[trigger] ids[i] == ids[g[0] as int] ==> g.contains(i as usize)
}

/// The position `i` is in one of the groups.
pub open spec fn is_placed(groups: Seq<Vec<usize>>, i: usize) -> bool {
    exists|a: int| 0 <= a < groups.len() && #[trigger] groups[a]@.contains(i)
}

/// The groups are classes, in the order of their first positions.
pub open spec fn are_classes(ids: Seq<Option<Seq<int>>>, groups: Seq<Vec<usize>>) -> bool {
    &&& forall|a: int| 0 <= a < groups.len() ==> is_class(ids, #[trigger] groups[a]@)
    &&& forall|a: int, b: int|
        0 <= a < b < groups.len() ==> (#[trigger] groups[a])@[0] < (#[trigger] groups[b])@[0]
}

/// The groups are all the classes.
pub open spec fn is_partition(ids: Seq<Option<Seq<int>>>, groups: Seq<Vec<usize>>) -> bool {
    &&& are_classes(ids, groups)
    &&& forall|i: int| 0 <= i < ids.len() && #[trigger] ids[i] is Some ==> is_placed(groups, i as usize)
}

/// Something else in the list is the same as what stands at position `i`.
pub open spec fn has_twin(ids: Seq<Option<Seq<int>>>, i: int) -> bool {
    &&& ids[i] is Some
    &&& exists|j: int| 0 <= j < ids.len() && j != i && #[trigger] ids[j] == ids[i]
}

/// The groups are all the classes with at least two positions.
pub open spec fn is_twin_partition(ids: Seq<Option<Seq<int>>>, groups: Seq<Vec<usize>>) -> bool {
    &&& are_classes(ids, groups)
    &&& forall|a: int| 0 <= a < groups.len() ==> (#[trigger] groups[a])@.len() >= 2
    &&& forall|i: int| 0 <= i < ids.len() && #[trigger] has_twin(ids, i) ==> is_placed(groups, i as usize)
}

/// Classes that share a position are the same class.
pub proof fn lemma_class_meet(ids: Seq<Option<Seq<int>>>, g: Seq<usize>, h: Seq<usize>, i: usize)
    requires
        is_class(ids, g),
        is_class(ids, h),
        g.contains(i),
        h.contains(i),
    ensures
        g[0] == h[0],
{
    let a = choose|a: int| 0 <= a < g.len() && g[a] == i;
    let b = choose|b: int| 0 <= b < h.len() && h[b] == i;
    assert(ids[g[a] as int] == ids[g[0] as int]);
    assert(ids[h[b] as int] == ids[h[0] as int]);
    assert(h.contains(g[0])) by {
        assert(ids[g[0] as int] == ids[h[0] as int]);
    }
    assert(g.contains(h[0])) by {
        assert(ids[h[0] as int] == ids[g[0] as int]);
    }
    let c = choose|c: int| 0 <= c < h.len() && h[c] == g[0];
    let d = choose|d: int| 0 <= d < g.len() && g[d] == h[0];
    if c > 0 {
        assert(h[0] < h[c]);
    }
    if d > 0 {
        assert(g[0] < g[d]);
    }
}

/// No group holds what `id` stands for.
pub open spec fn is_new(
    ids: Seq<Option<Seq<int>>>,
    groups: Seq<Vec<usize>>,
    id: Option<Seq<int>>,
) -> bool {
    forall|a: int| 0 <= a < groups.len() ==> ids[(#[trigger] groups[a])@[0] as int] != id
}

/// The table holds the hash of each group.
spec fn table_fits<K: BucketKey>(
    hashes: Seq<u64>,
    ids: Seq<Option<Seq<int>>>,
    groups: Seq<Vec<usize>>,
) -> bool {
    &&& hashes.len() == groups.len()
    &&& forall|a: int|
        0 <= a < groups.len() ==> #[trigger] hashes[a] == K::ident_hash(
            ids[groups[a]@[0] as int]->0,
        )
}

/// Finds the group of a key.
fn find_group<K: BucketKey>(
    keys: &Vec<Option<K>>,
    groups: &Vec<Vec<usize>>,
    table: &HashIndex,
    upto: usize,
    k: &K,
) -> (r: Option<usize>)
    requires
        upto <= keys@.len(),
        are_classes(idents(keys@).take(upto as int), groups@),
        table.well_formed(),
        table_fits::<K>(table@, idents(keys@).take(upto as int), groups@),
    ensures
        match r {
            Some(a) => a < groups@.len() && idents(keys@).take(upto as int)[groups@[a as int]@[0] as int]
                == Some(k.ident()),
            None => is_new(idents(keys@).take(upto as int), groups@, Some(k.ident())),
        },
{
    let ghost ids = idents(keys@).take(upto as int);
    let h = k.hash();
    match table.lookup(h) {
        None => {
            proof {
                assert forall|a: int| 0 <= a < groups@.len() implies ids[(#[trigger] groups@[a])@[0] as int]
                    != Some(k.ident()) by {
                    assert(table@[a] != h);
                }
            }
            None
        },
        Some(cands) => {
            let mut c: usize = 0;
            while c < cands.len()
                invariant
                    upto <= keys@.len(),
                    ids == idents(keys@).take(upto as int),
                    are_classes(ids, groups@),
                    table_fits::<K>(table@, ids, groups@),
                    index::positions_of(table@, h, cands@),
                    0 <= c <= cands@.len(),
                    forall|j: int|
                        0 <= j < c ==> ids[groups@[#[trigger] cands@[j] as int]@[0] as int] != Some(
                            k.ident(),
                        ),
                decreases cands@.len() - c,
            {
                let a = cands[c];
                assert(is_class(ids, groups@[a as int]@));
                let rep = groups[a][0];
                assert(ids[rep as int] == idents(keys@)[rep as int]);
                match &keys[rep] {
                    Some(other) => {
                        if other.same(k) {
                            return Some(a);
                        }
                    },
                    None => {},
                }
                c = c + 1;
            }
            proof {
                assert(groups.len() == groups@.len());
                assert forall|a: int| 0 <= a < groups@.len() implies ids[(#[trigger] groups@[a])@[0] as int]
                    != Some(k.ident()) by {
                    if ids[groups@[a]@[0] as int] == Some(k.ident()) {
                        assert(table@[a] == h);
                        assert(cands@.contains(a as usize));
                        let j = choose|j: int| 0 <= j < cands@.len() && cands@[j] == a as usize;
                        assert(ids[groups@[cands@[j] as int]@[0] as int] != Some(k.ident()));
                    }
                }
            }
            None
        },
    }
}

/// Something without a key leaves the groups as they are.
proof fn lemma_place_none(ids: Seq<Option<Seq<int>>>, groups: Seq<Vec<usize>>)
    requires
        ids.len() < usize::MAX,
        is_partition(ids, groups),
    ensures
        is_partition(ids.push(None), groups),
{
    let more = ids.push(None);
    assert forall|a: int| 0 <= a < groups.len() implies is_class(more, #[trigger] groups[a]@) by {
        lemma_class_grows(ids, None, groups[a]@);
    }
    assert forall|x: int| 0 <= x < more.len() && #[trigger] more[x] is Some implies is_placed(
        groups,
        x as usize,
    ) by {
        assert(ids[x] is Some);
    }
}

/// Something known joins its group.
proof fn lemma_place_join(
    ids: Seq<Option<Seq<int>>>,
    next: Option<Seq<int>>,
    groups: Seq<Vec<usize>>,
    a: int,
    joined: Seq<Vec<usize>>,
)
    requires
        ids.len() < usize::MAX,
        is_partition(ids, groups),
        0 <= a < groups.len(),
        next == ids[groups[a]@[0] as int],
        joined.len() == groups.len(),
        joined[a]@ == groups[a]@.push(ids.len() as usize),
        forall|b: int| 0 <= b < groups.len() && b != a ==> #[trigger] joined[b] == groups[b],
    ensures
        is_partition(ids.push(next), joined),
{
    let more = ids.push(next);
    let g = groups[a]@;
    assert(is_class(ids, g));
    lemma_class_joined(ids, next, g);
    assert forall|b: int| 0 <= b < joined.len() implies is_class(more, #[trigger] joined[b]@) by {
        if b != a {
            let other = groups[b]@;
            assert(joined[b] == groups[b]);
            assert(is_class(ids, other));
            if ids[other[0] as int] == next {
                assert(other.contains(g[0]));
                assert(g.contains(g[0])) by {
                    assert(g[0] == g[0]);
                }
                lemma_class_meet(ids, g, other, g[0]);
                if b < a {
                    assert(groups[b]@[0] < groups[a]@[0]);
                } else {
                    assert(groups[a]@[0] < groups[b]@[0]);
                }
            }
            lemma_class_grows(ids, next, other);
        }
    }
    assert forall|b: int| 0 <= b < joined.len() implies (#[trigger] joined[b])@[0] == groups[b]@[0] by {
        assert(is_class(ids, groups[b]@));
    }
    assert forall|b: int, c: int| 0 <= b < c < joined.len() implies (#[trigger] joined[b])@[0] < (
    #[trigger] joined[c])@[0] by {
        assert(groups[b]@[0] < groups[c]@[0]);
    }
    assert forall|x: int| 0 <= x < more.len() && #[trigger] more[x] is Some implies is_placed(
        joined,
        x as usize,
    ) by {
        if x == ids.len() {
            assert(joined[a]@[g.len() as int] == x as usize);
            assert(joined[a]@.contains(x as usize));
        } else {
            assert(ids[x] is Some);
            let b = choose|b: int| 0 <= b < groups.len() && #[trigger] groups[b]@.contains(x as usize);
            let p = choose|p: int| 0 <= p < groups[b]@.len() && groups[b]@[p] == x as usize;
            assert(joined[b]@[p] == x as usize);
            assert(joined[b]@.contains(x as usize));
        }
    }
}

/// Something new makes a group of its own.
proof fn lemma_place_new(
    ids: Seq<Option<Seq<int>>>,
    next: Option<Seq<int>>,
    groups: Seq<Vec<usize>>,
    fresh: Vec<usize>,
)
    requires
        ids.len() < usize::MAX,
        is_partition(ids, groups),
        next is Some,
        is_new(ids, groups, next),
        fresh@ == seq![ids.len() as usize],
    ensures
        is_partition(ids.push(next), groups.push(fresh)),
{
    let more = ids.push(next);
    let grown = groups.push(fresh);
    let m = groups.len() as int;
    assert forall|b: int| 0 <= b < grown.len() implies is_class(more, #[trigger] grown[b]@) by {
        if b < m {
            assert(grown[b] == groups[b]);
            assert(is_class(ids, groups[b]@));
            lemma_class_grows(ids, next, groups[b]@);
        } else {
            let g = fresh@;
            assert(g[0] == ids.len());
            assert forall|x: int| 0 <= x < more.len() && #[trigger] more[x] == more[g[0] as int] implies g.contains(
            x as usize) by {
                if x < ids.len() {
                    assert(ids[x] is Some);
                    let c = choose|c: int|
                        0 <= c < groups.len() && #[trigger] groups[c]@.contains(x as usize);
                    assert(is_class(ids, groups[c]@));
                    let p = choose|p: int| 0 <= p < groups[c]@.len() && groups[c]@[p] == x as usize;
                    assert(ids[groups[c]@[p] as int] == ids[groups[c]@[0] as int]);
                } else {
                    assert(g[0] == x as usize);
                }
            }
        }
    }
    assert forall|b: int, c: int| 0 <= b < c < grown.len() implies (#[trigger] grown[b])@[0] < (
    #[trigger] grown[c])@[0] by {
        assert(is_class(ids, groups[b]@));
        if c < m {
            assert(groups[b]@[0] < groups[c]@[0]);
        }
    }
    assert forall|x: int| 0 <= x < more.len() && #[trigger] more[x] is Some implies is_placed(
        grown,
        x as usize,
    ) by {
        if x == ids.len() {
            assert(grown[m]@[0] == x as usize);
            assert(grown[m]@.contains(x as usize));
        } else {
            assert(ids[x] is Some);
            let b = choose|b: int| 0 <= b < groups.len() && #[trigger] groups[b]@.contains(x as usize);
            assert(grown[b]@.contains(x as usize));
        }
    }
}

/// Groups positions by what stands there. Groups come in the order of their
/// first positions.
pub fn group_positions<K: BucketKey>(keys: &Vec<Option<K>>) -> (groups: Vec<Vec<usize>>)
    ensures
        is_partition(idents(keys@), groups@),
{
    let ghost all = idents(keys@);
    let mut groups: Vec<Vec<usize>> = Vec::new();
    let mut table = HashIndex::new();
    let n = keys.len();
    let mut i: usize = 0;
    assert(all.take(0) =~= Seq::empty());
    while i < n
        invariant
            0 <= i <= n,
            n == keys@.len(),
            all == idents(keys@),
            is_partition(all.take(i as int), groups@),
            table.well_formed(),
            table_fits::<K>(table@, all.take(i as int), groups@),
            groups@.len() <= i,
        decreases n - i,
    {
        let ghost ids = all.take(i as int);
        let ghost next = all[i as int];
        assert(all.take(i + 1) =~= ids.push(next));
        assert forall|a: int| 0 <= a < groups@.len() implies is_class(ids, #[trigger] groups@[a]@) by {}
        match &keys[i] {
            None => {
                proof {
                    lemma_place_none(ids, groups@);
                }
            },
            Some(k) => {
                let ghost old_groups = groups@;
                match find_group(keys, &groups, &table, i, k) {
                    Some(a) => {
                        groups[a].push(i);
                        proof {
                            lemma_place_join(ids, next, old_groups, a as int, groups@);
                            assert forall|b: int| 0 <= b < groups@.len() implies #[trigger] table@[b]
                                == K::ident_hash(ids.push(next)[groups@[b]@[0] as int]->0) by {
                                assert(is_class(ids, old_groups[b]@));
                                assert(groups@[b]@[0] == old_groups[b]@[0]);
                            }
                        }
                    },
                    None => {
                        let mut fresh: Vec<usize> = Vec::new();
                        fresh.push(i);
                        proof {
                            assert(fresh@ =~= seq![i]);
                            lemma_place_new(ids, next, groups@, fresh);
                        }
                        table.add(k.hash(), groups.len());
                        groups.push(fresh);
                        proof {
                            assert forall|b: int| 0 <= b < groups@.len() implies #[trigger] table@[b]
                                == K::ident_hash(ids.push(next)[groups@[b]@[0] as int]->0) by {
                                if b < old_groups.len() {
                                    assert(is_class(ids, old_groups[b]@));
                                }
                            }
                        }
                    },
                }
            },
        }
        i = i + 1;
    }
    assert(all.take(n as int) =~= all);
    groups
}

/// The class of something that occurs twice has at least two positions.
proof fn lemma_class_of_twin(ids: Seq<Option<Seq<int>>>, g: Seq<usize>, i: int)
    requires
        ids.len() <= usize::MAX,
        is_class(ids, g),
        0 <= i < ids.len(),
        g.contains(i as usize),
        has_twin(ids, i),
    ensures
        g.len() >= 2,
{
    let p = choose|p: int| 0 <= p < g.len() && g[p] == i as usize;
    assert(ids[g[p] as int] == ids[g[0] as int]);
    let j = choose|j: int| 0 <= j < ids.len() && j != i && #[trigger] ids[j] == ids[i];
    assert(g.contains(j as usize));
    let q = choose|q: int| 0 <= q < g.len() && g[q] == j as usize;
    assert(p != q);
}

/// The groups with at least two positions, taken from all groups.
proof fn lemma_twins(
    ids: Seq<Option<Seq<int>>>,
    all: Seq<Vec<usize>>,
    twins: Seq<Vec<usize>>,
    from: Seq<int>,
)
    requires
        ids.len() <= usize::MAX,
        is_partition(ids, all),
        from.len() == twins.len(),
        forall|a: int| 0 <= a < twins.len() ==> 0 <= #[trigger] from[a] < all.len(),
        forall|a: int|
            0 <= a < twins.len() ==> #[trigger] twins[a] == all[from[a]] && twins[a]@.len() >= 2,
        forall|a: int, b: int| 0 <= a < b < twins.len() ==> #[trigger] from[a] < #[trigger] from[b],
        forall|c: int| 0 <= c < all.len() && (#[trigger] all[c])@.len() >= 2 ==> from.contains(c),
    ensures
        is_twin_partition(ids, twins),
{
    assert forall|a: int| 0 <= a < twins.len() implies is_class(ids, #[trigger] twins[a]@) by {
        assert(0 <= from[a] < all.len());
        assert(is_class(ids, all[from[a]]@));
    }
    assert forall|a: int, b: int| 0 <= a < b < twins.len() implies (#[trigger] twins[a])@[0] < (
    #[trigger] twins[b])@[0] by {
        assert(from[a] < from[b]);
        assert(all[from[a]]@[0] < all[from[b]]@[0]);
    }
    assert forall|i: int| 0 <= i < ids.len() && #[trigger] has_twin(ids, i) implies is_placed(
        twins,
        i as usize,
    ) by {
        assert(is_placed(all, i as usize));
        let c = choose|c: int| 0 <= c < all.len() && #[trigger] all[c]@.contains(i as usize);
        lemma_class_of_twin(ids, all[c]@, i);
        assert(from.contains(c));
        let a = choose|a: int| 0 <= a < from.len() && from[a] == c;
        assert(twins[a] == all[from[a]]);
        assert(twins[a]@.contains(i as usize));
    }
}

/// Groups positions by what stands there, and keeps the groups with at least
/// two positions.
pub fn group_twins<K: BucketKey>(keys: &Vec<Option<K>>) -> (twins: Vec<Vec<usize>>)
    ensures
        is_twin_partition(idents(keys@), twins@),
{
    let ghost ids = idents(keys@);
    let groups = group_positions(keys);
    let ghost all = groups@;
    let mut twins: Vec<Vec<usize>> = Vec::new();
    let ghost mut from: Seq<int> = Seq::empty();
    for group in it: groups
        invariant
            it.seq() == all,
            is_partition(ids, all),
            from.len() == twins@.len(),
            forall|a: int| 0 <= a < twins@.len() ==> 0 <= #[trigger] from[a] < it.index(),
            forall|a: int|
                0 <= a < twins@.len() ==> #[trigger] twins@[a] == all[from[a]] && twins@[a]@.len() >= 2,
            forall|a: int, b: int| 0 <= a < b < twins@.len() ==> #[trigger] from[a] < #[trigger] from[b],
            forall|c: int|
                0 <= c < it.index() && (#[trigger] all[c])@.len() >= 2 ==> from.contains(c),
    {
        let ghost at = it.index();
        if group.len() >= 2 {
            twins.push(group);
            proof {
                let old_from = from;
                from = from.push(at);
                assert forall|c: int| 0 <= c < at + 1 && (#[trigger] all[c])@.len() >= 2 implies from.contains(
                c) by {
                    if c < at {
                        let p = choose|p: int| 0 <= p < old_from.len() && old_from[p] == c;
                        assert(from[p] == c);
                    } else {
                        assert(from[old_from.len() as int] == c);
                    }
                }
            }
        }
    }
    proof {
        assert(keys.len() == keys@.len());
        lemma_twins(ids, all, twins@, from);
    }
    twins
}

/// A class stays a class when something else comes behind.
proof fn lemma_class_grows(ids: Seq<Option<Seq<int>>>, next: Option<Seq<int>>, g: Seq<usize>)
    requires
        is_class(ids, g),
        ids.len() < usize::MAX,
        next != ids[g[0] as int],
    ensures
        is_class(ids.push(next), g),
{
    let more = ids.push(next);
    assert forall|k: int| 0 <= k < g.len() implies more[#[trigger] g[k] as int]
        == more[g[0] as int] by {
        assert(ids[g[k] as int] == ids[g[0] as int]);
    }
    assert forall|i: int| 0 <= i < more.len() && #[trigger] more[i] == more[g[0] as int] implies g.contains(
    i as usize) by {
        assert(ids[i] == ids[g[0] as int]);
    }
}

/// A class takes up the same thing when it comes behind.
proof fn lemma_class_joined(ids: Seq<Option<Seq<int>>>, next: Option<Seq<int>>, g: Seq<usize>)
    requires
        is_class(ids, g),
        ids.len() < usize::MAX,
        next == ids[g[0] as int],
    ensures
        is_class(ids.push(next), g.push(ids.len() as usize)),
{
    let more = ids.push(next);
    let h = g.push(ids.len() as usize);
    assert forall|k: int| 0 <= k < h.len() implies more[#[trigger] h[k] as int]
        == more[h[0] as int] by {
        if k < g.len() {
            assert(ids[g[k] as int] == ids[g[0] as int]);
        }
    }
    assert forall|i: int| 0 <= i < more.len() && #[trigger] more[i] == more[h[0] as int] implies h.contains(
    i as usize) by {
        if i < ids.len() {
            assert(ids[i] == ids[g[0] as int]);
            assert(g.contains(i as usize));
            let p = choose|p: int| 0 <= p < g.len() && g[p] == i as usize;
            assert(h[p] == i as usize);
        } else {
            assert(h[g.len() as int] == i as usize);
        }
    }
}

/// Tells of each position whether something else in the list is the same.
pub fn twin_flags<K: BucketKey>(keys: &Vec<Option<K>>) -> (flags: Vec<bool>)
    ensures
        flags@.len() == keys@.len(),
        forall|i: int|
            0 <= i < keys@.len() ==> #[trigger] flags@[i] == has_twin(idents(keys@), i),
{
    let ghost ids = idents(keys@);
    let n = keys.len();
    let groups = group_twins(keys);
    let mut flags: Vec<bool> = Vec::new();
    let mut i: usize = 0;
    while i < n
        invariant
            0 <= i <= n,
            flags@.len() == i,
            forall|j: int| 0 <= j < i ==> !(#[trigger] flags@[j]),
        decreases n - i,
    {
        flags.push(false);
        i = i + 1;
    }
    let mut a: usize = 0;
    while a < groups.len()
        invariant
            0 <= a <= groups@.len(),
            n == keys@.len(),
            ids == idents(keys@),
            is_twin_partition(ids, groups@),
            flags@.len() == n,
            forall|j: int|
                0 <= j < n ==> (#[trigger] flags@[j] <==> is_placed(
                    groups@.take(a as int),
                    j as usize,
                )),
        decreases groups@.len() - a,
    {
        let ghost before = flags@;
        let ghost g = groups@[a as int]@;
        assert(is_class(ids, groups@[a as int]@));
        let mut k: usize = 0;
        while k < groups[a].len()
            invariant
                a < groups@.len(),
                g == groups@[a as int]@,
                0 <= k <= g.len(),
                n == keys@.len(),
                ids == idents(keys@),
                is_class(ids, g),
                before.len() == n,
                flags@.len() == n,
                forall|j: int|
                    0 <= j < n ==> (#[trigger] flags@[j] <==> before[j] || g.take(
                        k as int,
                    ).contains(j as usize)),
            decreases g.len() - k,
        {
            let at = groups[a][k];
            assert(g[k as int] < ids.len());
            let ghost mid = flags@;
            flags.set(at, true);
            proof {
                let now = g.take(k + 1);
                let was = g.take(k as int);
                assert(now =~= was.push(at));
                assert forall|j: int| 0 <= j < n implies (#[trigger] flags@[j] <==> before[j]
                    || now.contains(j as usize)) by {
                    if j == at {
                        assert(now[k as int] == j as usize);
                    } else {
                        assert(flags@[j] == mid[j]);
                        if was.contains(j as usize) {
                            let l = choose|l: int| 0 <= l < was.len() && was[l] == j as usize;
                            assert(now[l] == j as usize);
                        }
                        if now.contains(j as usize) {
                            let l = choose|l: int| 0 <= l < now.len() && now[l] == j as usize;
                            assert(was[l] == j as usize);
                        }
                    }
                }
            }
            k = k + 1;
        }
        assert(g.take(k as int) =~= g);
        proof {
            let was = groups@.take(a as int);
            let now = groups@.take(a + 1);
            assert forall|j: int| 0 <= j < n implies (#[trigger] flags@[j] <==> is_placed(
                now,
                j as usize,
            )) by {
                if before[j] {
                    let b = choose|b: int|
                        0 <= b < was.len() && #[trigger] was[b]@.contains(j as usize);
                    assert(now[b]@.contains(j as usize));
                }
                if g.contains(j as usize) {
                    assert(now[a as int]@.contains(j as usize));
                }
                if is_placed(now, j as usize) {
                    let b = choose|b: int|
                        0 <= b < now.len() && #[trigger] now[b]@.contains(j as usize);
                    if b < a {
                        assert(was[b]@.contains(j as usize));
                    }
                }
            }
        }
        a = a + 1;
    }
    proof {
        assert(groups@.take(a as int) =~= groups@);
        assert forall|i: int| 0 <= i < n implies #[trigger] flags@[i] == has_twin(ids, i) by {
            if is_placed(groups@, i as usize) {
                let b = choose|b: int|
                    0 <= b < groups@.len() && #[trigger] groups@[b]@.contains(i as usize);
                lemma_placed_has_twin(ids, groups@[b]@, i);
            }
        }
    }
    flags
}

/// What is in a class with another has a twin.
proof fn lemma_placed_has_twin(ids: Seq<Option<Seq<int>>>, g: Seq<usize>, i: int)
    requires
        is_class(ids, g),
        g.len() >= 2,
        0 <= i <= usize::MAX,
        g.contains(i as usize),
    ensures
        has_twin(ids, i),
{
    let k = choose|k: int| 0 <= k < g.len() && g[k] == i as usize;
    let l = if k == 0 {
        1
    } else {
        0
    };
    if k == 0 {
        assert(g[0] < g[1]);
    } else {
        assert(g[0] < g[k]);
    }
    assert(ids[g[k] as int] == ids[g[0] as int]);
    assert(ids[g[l] as int] == ids[g[0] as int]);
}

/// There is one way only to list all classes.
pub proof fn lemma_partition_unique(
    ids: Seq<Option<Seq<int>>>,
    a: Seq<Vec<usize>>,
    b: Seq<Vec<usize>>,
)
    requires
        ids.len() <= usize::MAX,
        is_partition(ids, a),
        is_partition(ids, b),
    ensures
        a.len() == b.len(),
        forall|k: int| 0 <= k < a.len() ==> (#[trigger] a[k])@ == b[k]@,
{
    lemma_partition_prefix(ids, a, b, a.len() as int);
    lemma_partition_prefix(ids, b, a, b.len() as int);
}

/// The first classes of two lists are the same.
proof fn lemma_partition_prefix(
    ids: Seq<Option<Seq<int>>>,
    a: Seq<Vec<usize>>,
    b: Seq<Vec<usize>>,
    n: int,
)
    requires
        ids.len() <= usize::MAX,
        is_partition(ids, a),
        is_partition(ids, b),
        0 <= n <= a.len(),
    ensures
        n <= b.len(),
        forall|k: int| 0 <= k < n ==> (#[trigger] a[k])@ == b[k]@,
    decreases n,
{
    if n > 0 {
        let m = n - 1;
        lemma_partition_prefix(ids, a, b, m);
        let g = a[m]@;
        assert(is_class(ids, a[m]@));
        let i = g[0];
        assert(g[0] < ids.len());
        assert(ids[i as int] is Some);
        assert(is_placed(b, i));
        let c = choose|c: int| 0 <= c < b.len() && #[trigger] b[c]@.contains(i);
        assert(is_class(ids, b[c]@));
        assert(g.contains(i));
        lemma_class_meet(ids, g, b[c]@, i);
        lemma_class_equal(ids, g, b[c]@);
        if c < m {
            assert(a[c]@ == b[c]@);
            assert(a[c]@[0] < a[m]@[0]);
        }
        if c > m {
            assert(is_class(ids, b[m]@));
            assert(b[m]@[0] < b[c]@[0]);
            let j = b[m]@[0];
            assert(b[m]@[0] < ids.len());
            assert(is_placed(a, j));
            let d = choose|d: int| 0 <= d < a.len() && #[trigger] a[d]@.contains(j);
            assert(is_class(ids, a[d]@));
            assert(b[m]@.contains(j));
            lemma_class_meet(ids, a[d]@, b[m]@, j);
            if d < m {
                assert(a[d]@ == b[d]@);
                assert(b[d]@[0] < b[m]@[0]);
            } else if d > m {
                assert(a[m]@[0] < a[d]@[0]);
            }
        }
    }
}

/// Classes with the same first position are the same.
proof fn lemma_class_equal(ids: Seq<Option<Seq<int>>>, g: Seq<usize>, h: Seq<usize>)
    requires
        ids.len() <= usize::MAX,
        is_class(ids, g),
        is_class(ids, h),
        g[0] == h[0],
    ensures
        g == h,
{
    lemma_class_prefix(ids, g, h, g.len() as int);
    lemma_class_prefix(ids, h, g, h.len() as int);
    assert(g =~= h);
}

proof fn lemma_class_prefix(ids: Seq<Option<Seq<int>>>, g: Seq<usize>, h: Seq<usize>, n: int)
    requires
        ids.len() <= usize::MAX,
        is_class(ids, g),
        is_class(ids, h),
        g[0] == h[0],
        0 <= n <= g.len(),
    ensures
        n <= h.len(),
        forall|k: int| 0 <= k < n ==> #[trigger] g[k] == h[k],
    decreases n,
{
    if n > 0 {
        let m = n - 1;
        lemma_class_prefix(ids, g, h, m);
        let i = g[m];
        assert(ids[g[m] as int] == ids[g[0] as int]);
        assert(h.contains(i)) by {
            assert(ids[i as int] == ids[h[0] as int]);
        }
        let c = choose|c: int| 0 <= c < h.len() && h[c] == i;
        if c < m {
            assert(g[c] == h[c]);
            assert(g[c] < g[m]);
        }
        if c > m {
            assert(h[m] < h[c]);
            let j = h[m];
            assert(ids[h[m] as int] == ids[h[0] as int]);
            assert(g.contains(j)) by {
                assert(ids[j as int] == ids[g[0] as int]);
            }
            let d = choose|d: int| 0 <= d < g.len() && g[d] == j;
            if d < m {
                assert(g[d] == h[d]);
                assert(h[d] < h[m]);
            } else if d > m {
                assert(g[m] < g[d]);
            }
        }
    }
}

} // verus!
