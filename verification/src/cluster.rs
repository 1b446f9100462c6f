//! Star clustering: the first item that no cluster takes becomes the leader of
//! a new one, and every later item joins the first leader it is like.
//!
//! Items are compared with leaders only, so that unrelated items never chain
//! into one cluster.

use crate::binary64::Binary64;
use crate::order;
use crate::order::{sort_indices, SortKey};
use vstd::prelude::*;

verus! {

/// Items that can be compared with the leader of a cluster.
pub trait Likeable {
    /// The comparison is defined.
    spec fn comparable(&self, leader: &Self) -> bool;

    /// The item is like the leader.
    spec fn like(&self, leader: &Self, threshold: Binary64) -> bool;

    /// Tells whether the comparison is defined.
    fn can_compare(&self, leader: &Self) -> (r: bool)
        ensures
            r == self.comparable(leader),
    ;

    /// Tells whether the item is like the leader.
    fn is_like(&self, leader: &Self, threshold: Binary64) -> (r: bool)
        requires
            self.comparable(leader),
            threshold@.normal(),
        ensures
            r == self.like(leader, threshold),
    ;
}

/// Items by their positions: is the first like the second, a leader?
pub open spec fn likes<T: Likeable>(items: Seq<T>, threshold: Binary64) -> spec_fn(
    usize,
    usize,
) -> bool {
    |i: usize, j: usize|
        i < items.len() && j < items.len() && items[i as int].like(&items[j as int], threshold)
}

/// Items by their positions: can the first be compared with the second?
pub open spec fn compares<T: Likeable>(items: Seq<T>) -> spec_fn(usize, usize) -> bool {
    |i: usize, j: usize|
        i < items.len() && j < items.len() ==> items[i as int].comparable(&items[j as int])
}

/// Cluster `g` is the first whose leader item `i` is like.
pub open spec fn joins(
    clusters: Seq<Seq<usize>>,
    i: usize,
    like: spec_fn(usize, usize) -> bool,
    g: int,
) -> bool {
    &&& 0 <= g < clusters.len()
    &&& like(i, clusters[g][0])
    &&& forall|f: int| 0 <= f < g ==> !like(i, (#[trigger] clusters[f])[0])
}

/// The clusters after item `i` has come up.
pub open spec fn with_item(
    clusters: Seq<Seq<usize>>,
    i: usize,
    like: spec_fn(usize, usize) -> bool,
) -> Seq<Seq<usize>> {
    if exists|g: int| joins(clusters, i, like, g) {
        let g = choose|g: int| joins(clusters, i, like, g);
        clusters.update(g, clusters[g].push(i))
    } else {
        clusters.push(seq![i])
    }
}

/// The clusters of items that come up one after the other.
pub open spec fn stars(order: Seq<usize>, like: spec_fn(usize, usize) -> bool) -> Seq<Seq<usize>>
    decreases order.len(),
{
    if order.len() == 0 {
        Seq::empty()
    } else {
        with_item(stars(order.drop_last(), like), order.last(), like)
    }
}

/// Item `i` can be compared with the leaders, up to the first that it is like.
pub open spec fn item_defined(
    clusters: Seq<Seq<usize>>,
    i: usize,
    like: spec_fn(usize, usize) -> bool,
    comparable: spec_fn(usize, usize) -> bool,
) -> bool {
    forall|g: int|
        0 <= g < clusters.len() && (forall|f: int|
            0 <= f < g ==> !like(i, (#[trigger] clusters[f])[0])) ==> comparable(
            i,
            (#[trigger] clusters[g])[0],
        )
}

/// Every comparison that clustering makes is defined.
pub open spec fn stars_defined(
    order: Seq<usize>,
    like: spec_fn(usize, usize) -> bool,
    comparable: spec_fn(usize, usize) -> bool,
) -> bool
    decreases order.len(),
{
    order.len() == 0 || (stars_defined(order.drop_last(), like, comparable) && item_defined(
        stars(order.drop_last(), like),
        order.last(),
        like,
        comparable,
    ))
}

/// The positions in each cluster.
pub open spec fn cluster_views(clusters: Seq<Vec<usize>>) -> Seq<Seq<usize>> {
    clusters.map_values(|c: Vec<usize>| c@)
}

/// Clusters have leaders, and hold positions below `n`.
pub open spec fn within(clusters: Seq<Seq<usize>>, n: nat) -> bool {
    forall|g: int|
        0 <= g < clusters.len() ==> (#[trigger] clusters[g]).len() > 0 && forall|k: int|
            0 <= k < clusters[g].len() ==> #[trigger] clusters[g][k] < n
}

/// What clustering does with an item.
enum Placed {
    Joins(usize),
    Leads,
    Undefined,
}

/// Finds the cluster of an item.
fn place<T: Likeable>(items: &Vec<T>, clusters: &Vec<Vec<usize>>, i: usize, threshold: Binary64)
 -> (r: Placed)
    requires
        i < items@.len(),
        within(cluster_views(clusters@), items@.len()),
        threshold@.normal(),
    ensures
        ({
            let views = cluster_views(clusters@);
            let like = likes(items@, threshold);
            match r {
                Placed::Joins(g) => joins(views, i, like, g as int) && item_defined(
                    views,
                    i,
                    like,
                    compares(items@),
                ),
                Placed::Leads => !(exists|g: int| joins(views, i, like, g)) && item_defined(
                    views,
                    i,
                    like,
                    compares(items@),
                ),
                Placed::Undefined => !item_defined(views, i, like, compares(items@)),
            }
        }),
{
    let ghost views = cluster_views(clusters@);
    let ghost like = likes(items@, threshold);
    let ghost comparable = compares(items@);
    let mut g: usize = 0;
    while g < clusters.len()
        invariant
            i < items@.len(),
            0 <= g <= clusters@.len(),
            views == cluster_views(clusters@),
            like == likes(items@, threshold),
            comparable == compares(items@),
            within(views, items@.len()),
            threshold@.normal(),
            forall|f: int| 0 <= f < g ==> !like(i, (#[trigger] views[f])[0]),
            forall|f: int| 0 <= f < g ==> comparable(i, (#[trigger] views[f])[0]),
        decreases clusters@.len() - g,
    {
        assert(views[g as int].len() > 0 && views[g as int][0] < items@.len());
        let leader = clusters[g][0];
        assert(leader == views[g as int][0]);
        if !items[i].can_compare(&items[leader]) {
            assert(!comparable(i, views[g as int][0]));
            return Placed::Undefined;
        }
        if items[i].is_like(&items[leader], threshold) {
            assert(like(i, views[g as int][0]));
            assert(item_defined(views, i, like, comparable)) by {
                assert forall|h: int|
                    0 <= h < views.len() && (forall|f: int|
                        0 <= f < h ==> !like(i, (#[trigger] views[f])[0])) implies comparable(
                    i,
                    (#[trigger] views[h])[0],
                ) by {
                    if h > g {
                        assert(!like(i, views[g as int][0]));
                    }
                }
            }
            return Placed::Joins(g);
        }
        g = g + 1;
    }
    Placed::Leads
}

proof fn lemma_joins_once(
    clusters: Seq<Seq<usize>>,
    i: usize,
    like: spec_fn(usize, usize) -> bool,
    g: int,
    h: int,
)
    requires
        joins(clusters, i, like, g),
        joins(clusters, i, like, h),
    ensures
        g == h,
{
    if g < h {
        assert(!like(i, clusters[g][0]));
    }
    if h < g {
        assert(!like(i, clusters[h][0]));
    }
}

/// Where a beginning is not defined, nothing is.
proof fn lemma_undefined(
    order: Seq<usize>,
    like: spec_fn(usize, usize) -> bool,
    comparable: spec_fn(usize, usize) -> bool,
    k: int,
)
    requires
        0 <= k <= order.len(),
        !stars_defined(order.take(k), like, comparable),
    ensures
        !stars_defined(order, like, comparable),
    decreases order.len() - k,
{
    if k < order.len() {
        assert(order.take(k + 1).drop_last() =~= order.take(k));
        lemma_undefined(order, like, comparable, k + 1);
    } else {
        assert(order.take(k) =~= order);
    }
}

/// Clusters items in the given order; `None` where a comparison that this
/// takes is not defined.
pub fn star_clusters<T: Likeable>(
    items: &Vec<T>,
    order: &Vec<usize>,
    threshold: Binary64,
) -> (r: Option<Vec<Vec<usize>>>)
    requires
        forall|k: int| 0 <= k < order@.len() ==> #[trigger] order@[k] < items@.len(),
        threshold@.normal(),
    ensures
        match r {
            Some(clusters) => {
                &&& stars_defined(order@, likes(items@, threshold), compares(items@))
                &&& cluster_views(clusters@) == stars(order@, likes(items@, threshold))
                &&& within(cluster_views(clusters@), items@.len())
            },
            None => !stars_defined(order@, likes(items@, threshold), compares(items@)),
        },
{
    let ghost like = likes(items@, threshold);
    let ghost comparable = compares(items@);
    let mut clusters: Vec<Vec<usize>> = Vec::new();
    let mut k: usize = 0;
    assert(order@.take(0) =~= Seq::empty());
    assert(cluster_views(clusters@) =~= Seq::empty());
    while k < order.len()
        invariant
            0 <= k <= order@.len(),
            forall|j: int| 0 <= j < order@.len() ==> #[trigger] order@[j] < items@.len(),
            threshold@.normal(),
            like == likes(items@, threshold),
            comparable == compares(items@),
            stars_defined(order@.take(k as int), like, comparable),
            cluster_views(clusters@) == stars(order@.take(k as int), like),
            within(cluster_views(clusters@), items@.len()),
        decreases order@.len() - k,
    {
        let i = order[k];
        let ghost before = cluster_views(clusters@);
        let ghost done = order@.take(k + 1);
        assert(done.drop_last() =~= order@.take(k as int));
        assert(done.last() == i);
        match place(items, &clusters, i, threshold) {
            Placed::Joins(g) => {
                clusters[g].push(i);
                proof {
                    let h = choose|h: int| joins(before, i, like, h);
                    lemma_joins_once(before, i, like, g as int, h);
                    let after = cluster_views(clusters@);
                    assert(after =~= before.update(g as int, before[g as int].push(i)));
                    assert(within(after, items@.len())) by {
                        assert forall|f: int| 0 <= f < after.len() implies (
                        #[trigger] after[f]).len() > 0 && forall|j: int|
                            0 <= j < after[f].len() ==> #[trigger] after[f][j] < items@.len() by {
                            assert(before[f].len() > 0);
                            if f == g {
                                assert(after[f] == before[f].push(i));
                            } else {
                                assert(after[f] == before[f]);
                            }
                        }
                    }
                }
            },
            Placed::Leads => {
                let mut fresh: Vec<usize> = Vec::new();
                fresh.push(i);
                clusters.push(fresh);
                proof {
                    let after = cluster_views(clusters@);
                    assert(fresh@ =~= seq![i]);
                    assert(after =~= before.push(seq![i]));
                    assert(within(after, items@.len())) by {
                        assert forall|f: int| 0 <= f < after.len() implies (
                        #[trigger] after[f]).len() > 0 && forall|j: int|
                            0 <= j < after[f].len() ==> #[trigger] after[f][j] < items@.len() by {
                            if f < before.len() {
                                assert(before[f].len() > 0);
                                assert(after[f] == before[f]);
                            }
                        }
                    }
                }
            },
            Placed::Undefined => {
                proof {
                    assert(!stars_defined(done, like, comparable));
                    lemma_undefined(order@, like, comparable, k + 1);
                }
                return None;
            },
        }
        k = k + 1;
    }
    assert(order@.take(k as int) =~= order@);
    Some(clusters)
}

/// The clusters with at least two items.
pub open spec fn big_ones(clusters: Seq<Seq<usize>>) -> Seq<Seq<usize>>
    decreases clusters.len(),
{
    if clusters.len() == 0 {
        Seq::empty()
    } else if clusters.last().len() >= 2 {
        big_ones(clusters.drop_last()).push(clusters.last())
    } else {
        big_ones(clusters.drop_last())
    }
}

/// Where every comparison is defined, clustering is.
pub proof fn lemma_always_defined(
    order: Seq<usize>,
    like: spec_fn(usize, usize) -> bool,
    comparable: spec_fn(usize, usize) -> bool,
)
    requires
        forall|i: usize, j: usize| #[trigger] comparable(i, j),
    ensures
        stars_defined(order, like, comparable),
    decreases order.len(),
{
    if order.len() > 0 {
        lemma_always_defined(order.drop_last(), like, comparable);
    }
}

/// Every item of a cluster but the first is like the cluster's leader, which
/// comes first.
pub proof fn lemma_like_leader(
    order: Seq<usize>,
    like: spec_fn(usize, usize) -> bool,
    g: int,
    k: int,
)
    requires
        0 <= g < stars(order, like).len(),
        1 <= k < stars(order, like)[g].len(),
    ensures
        like(stars(order, like)[g][k], stars(order, like)[g][0]),
    decreases order.len(),
{
    let before = stars(order.drop_last(), like);
    let i = order.last();
    lemma_has_leaders(order.drop_last(), like);
    if exists|h: int| joins(before, i, like, h) {
        let h = choose|h: int| joins(before, i, like, h);
        assert(before[h].len() > 0);
        if g == h && k == before[h].len() {
        } else {
            lemma_like_leader(order.drop_last(), like, g, k);
        }
    } else if g < before.len() {
        lemma_like_leader(order.drop_last(), like, g, k);
    }
}

/// No cluster is empty.
pub proof fn lemma_has_leaders(order: Seq<usize>, like: spec_fn(usize, usize) -> bool)
    ensures
        forall|g: int|
            0 <= g < stars(order, like).len() ==> (#[trigger] stars(order, like)[g]).len() > 0,
    decreases order.len(),
{
    if order.len() > 0 {
        lemma_has_leaders(order.drop_last(), like);
        let before = stars(order.drop_last(), like);
        let after = stars(order, like);
        let i = order.last();
        assert forall|g: int| 0 <= g < after.len() implies (#[trigger] after[g]).len() > 0 by {
            if g < before.len() {
                assert(before[g].len() > 0);
            }
        }
    }
}

/// A leader is like no leader that came before it.
pub proof fn lemma_leaders_differ(
    order: Seq<usize>,
    like: spec_fn(usize, usize) -> bool,
    f: int,
    g: int,
)
    requires
        0 <= f < g < stars(order, like).len(),
    ensures
        !like(stars(order, like)[g][0], stars(order, like)[f][0]),
    decreases order.len(),
{
    let before = stars(order.drop_last(), like);
    let i = order.last();
    lemma_has_leaders(order.drop_last(), like);
    if exists|h: int| joins(before, i, like, h) {
        let h = choose|h: int| joins(before, i, like, h);
        assert(before[h].len() > 0 && before[f].len() > 0 && before[g].len() > 0);
        lemma_leaders_differ(order.drop_last(), like, f, g);
    } else {
        assert(before[f].len() > 0);
        if g < before.len() {
            assert(before[g].len() > 0);
            lemma_leaders_differ(order.drop_last(), like, f, g);
        } else if like(i, before[f][0]) {
            lemma_some_joins(before, i, like, f);
        }
    }
}

/// An item that is like a leader joins some cluster.
proof fn lemma_some_joins(
    clusters: Seq<Seq<usize>>,
    i: usize,
    like: spec_fn(usize, usize) -> bool,
    f: int,
)
    requires
        0 <= f < clusters.len(),
        like(i, clusters[f][0]),
    ensures
        exists|g: int| joins(clusters, i, like, g),
    decreases f,
{
    if forall|e: int| 0 <= e < f ==> !like(i, (#[trigger] clusters[e])[0]) {
        assert(joins(clusters, i, like, f));
    } else {
        let e = choose|e: int| 0 <= e < f && like(i, (#[trigger] clusters[e])[0]);
        lemma_some_joins(clusters, i, like, e);
    }
}

/// Every item is in a cluster, and all clusters together hold as many items as
/// came up: each item is in one cluster, once for each time it came up.
pub proof fn lemma_all_placed(order: Seq<usize>, like: spec_fn(usize, usize) -> bool)
    ensures
        stars(order, like).flatten().to_multiset() == order.to_multiset(),
    decreases order.len(),
{
    broadcast use vstd::seq_lib::group_to_multiset_ensures;

    if order.len() == 0 {
        assert(stars(order, like).flatten() =~= Seq::<usize>::empty());
        assert(order =~= Seq::<usize>::empty());
    } else {
        let front = order.drop_last();
        let before = stars(front, like);
        let i = order.last();
        lemma_all_placed(front, like);
        assert(order =~= front.push(i));
        if exists|h: int| joins(before, i, like, h) {
            let h = choose|h: int| joins(before, i, like, h);
            lemma_flatten_update(before, h, i);
        } else {
            lemma_flatten_push(before, i);
        }
    }
}

proof fn lemma_flatten_push(clusters: Seq<Seq<usize>>, i: usize)
    ensures
        clusters.push(seq![i]).flatten().to_multiset() == clusters.flatten().push(i).to_multiset(),
{
    let all = clusters.push(seq![i]);
    all.lemma_flatten_and_flatten_alt_are_equivalent();
    clusters.lemma_flatten_and_flatten_alt_are_equivalent();
    assert(all.drop_last() =~= clusters);
    assert(all.flatten() =~= clusters.flatten() + seq![i]);
    assert(clusters.flatten() + seq![i] =~= clusters.flatten().push(i));
}

proof fn lemma_flatten_update(clusters: Seq<Seq<usize>>, h: int, i: usize)
    requires
        0 <= h < clusters.len(),
    ensures
        clusters.update(h, clusters[h].push(i)).flatten().to_multiset()
            == clusters.flatten().push(i).to_multiset(),
    decreases clusters.len(),
{
    broadcast use vstd::seq_lib::group_to_multiset_ensures;

    let all = clusters.update(h, clusters[h].push(i));
    all.lemma_flatten_and_flatten_alt_are_equivalent();
    clusters.lemma_flatten_and_flatten_alt_are_equivalent();
    let a = all.drop_last();
    let c = clusters.drop_last();
    a.lemma_flatten_and_flatten_alt_are_equivalent();
    c.lemma_flatten_and_flatten_alt_are_equivalent();
    assert(all.flatten() =~= a.flatten() + all.last());
    assert(clusters.flatten() =~= c.flatten() + clusters.last());
    vstd::seq_lib::lemma_multiset_commutative(a.flatten(), all.last());
    vstd::seq_lib::lemma_multiset_commutative(c.flatten(), clusters.last());
    if h == clusters.len() - 1 {
        assert(a =~= c);
        assert(all.last() =~= clusters.last().push(i));
        assert(all.flatten().to_multiset() =~= clusters.flatten().push(i).to_multiset());
    } else {
        assert(a =~= c.update(h, c[h].push(i)));
        lemma_flatten_update(c, h, i);
        assert(all.last() == clusters.last());
        assert(all.flatten().to_multiset() =~= clusters.flatten().push(i).to_multiset());
    }
}

/// Positions sorted by key.
pub open spec fn sorted_by(keys: Seq<Seq<Seq<int>>>, idxs: Seq<usize>) -> Seq<usize> {
    choose|p: Seq<usize>| order::sorts(keys, idxs, p)
}

/// The clusters with at least two items in each bucket, whose items come up by
/// key.
pub open spec fn clusters_in(
    keys: Seq<Seq<Seq<int>>>,
    buckets: Seq<Seq<usize>>,
    like: spec_fn(usize, usize) -> bool,
) -> Seq<Seq<usize>>
    decreases buckets.len(),
{
    if buckets.len() == 0 {
        Seq::empty()
    } else {
        clusters_in(keys, buckets.drop_last(), like) + big_ones(
            stars(sorted_by(keys, buckets.last()), like),
        )
    }
}

/// Every comparison that clustering makes in one of the buckets is defined.
pub open spec fn buckets_defined(
    keys: Seq<Seq<Seq<int>>>,
    buckets: Seq<Seq<usize>>,
    like: spec_fn(usize, usize) -> bool,
    comparable: spec_fn(usize, usize) -> bool,
) -> bool {
    forall|b: int|
        0 <= b < buckets.len() ==> stars_defined(
            sorted_by(keys, #[trigger] buckets[b]),
            like,
            comparable,
        )
}

/// Each bucket holds positions below `n`.
pub open spec fn buckets_within(buckets: Seq<Vec<usize>>, n: nat) -> bool {
    forall|b: int| 0 <= b < buckets.len() ==> order::all_below((#[trigger] buckets[b])@, n)
}

/// Every item of a cluster but the first was compared with the leader and is
/// like it.
pub open spec fn led(
    clusters: Seq<Seq<usize>>,
    like: spec_fn(usize, usize) -> bool,
    comparable: spec_fn(usize, usize) -> bool,
) -> bool {
    forall|c: int, k: int|
        0 <= c < clusters.len() && 1 <= k < clusters[c].len() ==> like(
            #[trigger] clusters[c][k],
            clusters[c][0],
        ) && comparable(clusters[c][k], clusters[c][0])
}

/// The items of a cluster were compared with its leader.
pub proof fn lemma_compared(
    order: Seq<usize>,
    like: spec_fn(usize, usize) -> bool,
    comparable: spec_fn(usize, usize) -> bool,
    g: int,
    k: int,
)
    requires
        stars_defined(order, like, comparable),
        0 <= g < stars(order, like).len(),
        1 <= k < stars(order, like)[g].len(),
    ensures
        comparable(stars(order, like)[g][k], stars(order, like)[g][0]),
    decreases order.len(),
{
    let before = stars(order.drop_last(), like);
    let i = order.last();
    lemma_has_leaders(order.drop_last(), like);
    if exists|h: int| joins(before, i, like, h) {
        let h = choose|h: int| joins(before, i, like, h);
        assert(before[h].len() > 0);
        if g == h && k == before[h].len() {
            assert(comparable(i, before[h][0]));
        } else {
            lemma_compared(order.drop_last(), like, comparable, g, k);
        }
    } else if g < before.len() {
        lemma_compared(order.drop_last(), like, comparable, g, k);
    }
}

/// Clusters the items of each bucket by key, and lists the clusters with at
/// least two items; `None` where a comparison that this takes is not defined.
pub fn cluster_buckets<T: Likeable + SortKey>(
    items: &Vec<T>,
    buckets: &Vec<Vec<usize>>,
    threshold: Binary64,
) -> (r: Option<Vec<Vec<usize>>>)
    requires
        buckets_within(buckets@, items@.len()),
        threshold@.normal(),
    ensures
        ({
            let keys = order::keys_of(items@);
            let like = likes(items@, threshold);
            match r {
                Some(clusters) => {
                    &&& buckets_defined(keys, cluster_views(buckets@), like, compares(items@))
                    &&& cluster_views(clusters@) == clusters_in(keys, cluster_views(buckets@), like)
                    &&& within(cluster_views(clusters@), items@.len())
                    &&& led(cluster_views(clusters@), like, compares(items@))
                },
                None => !buckets_defined(keys, cluster_views(buckets@), like, compares(items@)),
            }
        }),
{
    let ghost keys = order::keys_of(items@);
    let ghost like = likes(items@, threshold);
    let ghost comparable = compares(items@);
    let ghost views = cluster_views(buckets@);
    let mut out: Vec<Vec<usize>> = Vec::new();
    let mut b: usize = 0;
    assert(views.take(0) =~= Seq::empty());
    assert(cluster_views(out@) =~= Seq::empty());
    while b < buckets.len()
        invariant
            0 <= b <= buckets@.len(),
            buckets_within(buckets@, items@.len()),
            threshold@.normal(),
            keys == order::keys_of(items@),
            like == likes(items@, threshold),
            comparable == compares(items@),
            views == cluster_views(buckets@),
            forall|a: int|
                0 <= a < b ==> stars_defined(
                    sorted_by(keys, #[trigger] views[a]),
                    like,
                    comparable,
                ),
            cluster_views(out@) == clusters_in(keys, views.take(b as int), like),
            within(cluster_views(out@), items@.len()),
            led(cluster_views(out@), like, comparable),
        decreases buckets@.len() - b,
    {
        assert(order::all_below(buckets@[b as int]@, items@.len()));
        let sorted = sort_indices(items, &buckets[b]);
        proof {
            let p = sorted_by(keys, views[b as int]);
            assert(order::sorts(keys, views[b as int], sorted@));
            order::lemma_sorts_unique(keys, views[b as int], p, sorted@);
        }
        let clusters = match star_clusters(items, &sorted, threshold) {
            Some(c) => c,
            None => {
                assert(!stars_defined(sorted_by(keys, views[b as int]), like, comparable));
                return None;
            },
        };
        let ghost all = cluster_views(clusters@);
        let ghost before = cluster_views(out@);
        assert(views.take(b + 1).drop_last() =~= views.take(b as int));
        assert(all.take(0) =~= Seq::empty());
        assert(before + big_ones(all.take(0)) =~= before);
        proof {
            assert forall|c: int, k: int| 0 <= c < all.len() && 1 <= k < all[c].len() implies like(
                #[trigger] all[c][k],
                all[c][0],
            ) && comparable(all[c][k], all[c][0]) by {
                lemma_like_leader(sorted@, like, c, k);
                lemma_compared(sorted@, like, comparable, c, k);
            }
            assert(led(all, like, comparable));
        }
        let ghost list = clusters@;
        for c in it: clusters
            invariant
                it.seq() == list,
                all == cluster_views(list),
                within(all, items@.len()),
                led(all, like, comparable),
                cluster_views(out@) == before + big_ones(all.take(it.index())),
                within(cluster_views(out@), items@.len()),
                led(cluster_views(out@), like, comparable),
        {
            assert(all.take(it.index() + 1).drop_last() =~= all.take(it.index()));
            assert(all.take(it.index() + 1).last() == c@);
            assert(all[it.index()] == c@);
            if c.len() >= 2 {
                let ghost was = cluster_views(out@);
                out.push(c);
                let ghost now = cluster_views(out@);
                assert(now =~= was.push(c@));
                assert forall|d: int, k: int|
                    0 <= d < now.len() && 1 <= k < now[d].len() implies like(
                    #[trigger] now[d][k],
                    now[d][0],
                ) && comparable(now[d][k], now[d][0]) by {
                    if d < was.len() {
                        assert(like(was[d][k], was[d][0]));
                    } else {
                        assert(like(all[it.index()][k], all[it.index()][0]));
                    }
                }
                assert(cluster_views(out@) =~= before + big_ones(all.take(it.index() + 1)));
            }
        }
        assert(all.take(all.len() as int) =~= all);
        b = b + 1;
    }
    assert(views.take(b as int) =~= views);
    Some(out)
}

/// A cluster that is listed has at least two items and is one that clustering
/// a bucket makes.
pub proof fn lemma_listed_clusters(
    keys: Seq<Seq<Seq<int>>>,
    buckets: Seq<Seq<usize>>,
    like: spec_fn(usize, usize) -> bool,
    c: int,
)
    requires
        0 <= c < clusters_in(keys, buckets, like).len(),
    ensures
        clusters_in(keys, buckets, like)[c].len() >= 2,
        exists|b: int, g: int|
            {
                &&& 0 <= b < buckets.len()
                &&& 0 <= g < stars(sorted_by(keys, #[trigger] buckets[b]), like).len()
                &&& clusters_in(keys, buckets, like)[c] == #[trigger] stars(
                    sorted_by(keys, buckets[b]),
                    like,
                )[g]
            },
    decreases buckets.len(),
{
    let front = clusters_in(keys, buckets.drop_last(), like);
    if c < front.len() {
        lemma_listed_clusters(keys, buckets.drop_last(), like, c);
        let (b, g) = choose|b: int, g: int|
            {
                &&& 0 <= b < buckets.drop_last().len()
                &&& 0 <= g < stars(sorted_by(keys, #[trigger] buckets.drop_last()[b]), like).len()
                &&& front[c] == #[trigger] stars(
                    sorted_by(keys, buckets.drop_last()[b]),
                    like,
                )[g]
            };
        assert(buckets[b] == buckets.drop_last()[b]);
        assert(front[c] == stars(sorted_by(keys, buckets[b]), like)[g]);
    } else {
        let last = stars(sorted_by(keys, buckets.last()), like);
        lemma_big_ones(last, c - front.len());
        let g = choose|g: int|
            0 <= g < last.len() && big_ones(last)[c - front.len()] == #[trigger] last[g];
        assert(buckets[buckets.len() - 1] == buckets.last());
        assert(clusters_in(keys, buckets, like)[c] == stars(
            sorted_by(keys, buckets[buckets.len() - 1]),
            like,
        )[g]);
    }
}

/// Every item of a cluster came up.
proof fn lemma_items_came_up(order: Seq<usize>, like: spec_fn(usize, usize) -> bool, c: int, k: int)
    requires
        0 <= c < stars(order, like).len(),
        0 <= k < stars(order, like)[c].len(),
    ensures
        order.contains(stars(order, like)[c][k]),
    decreases order.len(),
{
    let front = order.drop_last();
    let clusters = stars(front, like);
    let i = order.last();
    assert(order[order.len() - 1] == i);
    let x = stars(order, like)[c][k];
    if x != i {
        assert(c < clusters.len() && k < clusters[c].len() && clusters[c][k] == x) by {
            if exists|g: int| joins(clusters, i, like, g) {
                let g = choose|g: int| joins(clusters, i, like, g);
                assert(stars(order, like) == clusters.update(g, clusters[g].push(i)));
            } else {
                assert(stars(order, like) == clusters.push(seq![i]));
            }
        }
        lemma_items_came_up(front, like, c, k);
        let j = choose|j: int| 0 <= j < front.len() && front[j] == x;
        assert(order[j] == x);
    }
}

/// The leader of a cluster came up before its other items.
proof fn lemma_leader_came_first(
    keys: Seq<Seq<Seq<int>>>,
    order: Seq<usize>,
    like: spec_fn(usize, usize) -> bool,
    c: int,
    k: int,
)
    requires
        order::in_order(keys, order),
        0 <= c < stars(order, like).len(),
        0 <= k < stars(order, like)[c].len(),
    ensures
        order::goes_before(keys, stars(order, like)[c][0], stars(order, like)[c][k]),
    decreases order.len(),
{
    let front = order.drop_last();
    let clusters = stars(front, like);
    let all = stars(order, like);
    let i = order.last();
    lemma_items_came_up(order, like, c, 0);
    let p = choose|p: int| 0 <= p < order.len() && order[p] == all[c][0];
    assert(order::goes_before(keys, order[p], order[order.len() - 1]));
    assert forall|a: int, b: int| 0 <= a <= b < front.len() implies order::goes_before(
        keys,
        #[trigger] front[a],
        #[trigger] front[b],
    ) by {
        assert(front[a] == order[a] && front[b] == order[b]);
    }
    if exists|g: int| joins(clusters, i, like, g) {
        let g = choose|g: int| joins(clusters, i, like, g);
        assert(all == clusters.update(g, clusters[g].push(i)));
        if c != g || k < clusters[g].len() {
            lemma_has_leaders(front, like);
            lemma_leader_came_first(keys, front, like, c, k);
        }
    } else {
        assert(all == clusters.push(seq![i]));
        if c < clusters.len() {
            lemma_leader_came_first(keys, front, like, c, k);
        }
    }
}

/// The leader of a cluster that is listed has the first key in it.
pub proof fn lemma_leader_first(
    keys: Seq<Seq<Seq<int>>>,
    buckets: Seq<Seq<usize>>,
    like: spec_fn(usize, usize) -> bool,
    c: int,
    k: int,
)
    requires
        0 <= c < clusters_in(keys, buckets, like).len(),
        0 <= k < clusters_in(keys, buckets, like)[c].len(),
    ensures
        order::goes_before(
            keys,
            clusters_in(keys, buckets, like)[c][0],
            clusters_in(keys, buckets, like)[c][k],
        ),
{
    lemma_listed_clusters(keys, buckets, like, c);
    let (b, g) = choose|b: int, g: int|
        {
            &&& 0 <= b < buckets.len()
            &&& 0 <= g < stars(sorted_by(keys, #[trigger] buckets[b]), like).len()
            &&& clusters_in(keys, buckets, like)[c] == #[trigger] stars(
                sorted_by(keys, buckets[b]),
                like,
            )[g]
        };
    order::lemma_sorts_exist(keys, buckets[b]);
    lemma_leader_came_first(keys, sorted_by(keys, buckets[b]), like, g, k);
}

/// Every item of a cluster that is listed is like the leader, or is the leader;
/// and the leader has an item that is like it.
pub proof fn lemma_listed_likes(
    keys: Seq<Seq<Seq<int>>>,
    buckets: Seq<Seq<usize>>,
    like: spec_fn(usize, usize) -> bool,
    c: int,
    k: int,
)
    requires
        0 <= c < clusters_in(keys, buckets, like).len(),
        0 <= k < clusters_in(keys, buckets, like)[c].len(),
    ensures
        k > 0 ==> like(
            clusters_in(keys, buckets, like)[c][k],
            clusters_in(keys, buckets, like)[c][0],
        ),
        like(clusters_in(keys, buckets, like)[c][1], clusters_in(keys, buckets, like)[c][0]),
{
    lemma_listed_clusters(keys, buckets, like, c);
    let (b, g) = choose|b: int, g: int|
        {
            &&& 0 <= b < buckets.len()
            &&& 0 <= g < stars(sorted_by(keys, #[trigger] buckets[b]), like).len()
            &&& clusters_in(keys, buckets, like)[c] == #[trigger] stars(
                sorted_by(keys, buckets[b]),
                like,
            )[g]
        };
    lemma_like_leader(sorted_by(keys, buckets[b]), like, g, 1);
    if k > 0 {
        lemma_like_leader(sorted_by(keys, buckets[b]), like, g, k);
    }
}

proof fn lemma_big_ones(clusters: Seq<Seq<usize>>, c: int)
    requires
        0 <= c < big_ones(clusters).len(),
    ensures
        big_ones(clusters)[c].len() >= 2,
        exists|g: int| 0 <= g < clusters.len() && big_ones(clusters)[c] == #[trigger] clusters[g],
    decreases clusters.len(),
{
    let front = clusters.drop_last();
    if c < big_ones(front).len() {
        lemma_big_ones(front, c);
        let g = choose|g: int|
            0 <= g < front.len() && big_ones(front)[c] == #[trigger] front[g];
        assert(clusters[g] == front[g]);
    } else {
        assert(clusters[clusters.len() - 1] == clusters.last());
    }
}

/// No item is in two places.
pub open spec fn items_differ(clusters: Seq<Seq<usize>>) -> bool {
    forall|c: int, k: int, d: int, l: int|
        0 <= c < clusters.len() && 0 <= k < clusters[c].len() && 0 <= d < clusters.len() && 0 <= l
            < clusters[d].len() && !(c == d && k == l) ==> #[trigger] clusters[c][k]
            != #[trigger] clusters[d][l]
}

/// Every item is one of those in a list.
spec fn items_among(clusters: Seq<Seq<usize>>, list: Seq<usize>) -> bool {
    forall|c: int, k: int|
        0 <= c < clusters.len() && 0 <= k < clusters[c].len() ==> list.contains(
            #[trigger] clusters[c][k],
        )
}

/// Items that come up once are in one place.
proof fn lemma_stars_differ(order: Seq<usize>, like: spec_fn(usize, usize) -> bool)
    requires
        order.no_duplicates(),
    ensures
        items_differ(stars(order, like)),
    decreases order.len(),
{
    if order.len() > 0 {
        let front = order.drop_last();
        let clusters = stars(front, like);
        let all = stars(order, like);
        let i = order.last();
        assert(front.no_duplicates());
        lemma_stars_differ(front, like);
        assert forall|c: int, k: int| 0 <= c < clusters.len() && 0 <= k < clusters[c].len() implies
            #[trigger] clusters[c][k] != i by {
            lemma_items_came_up(front, like, c, k);
            let j = choose|j: int| 0 <= j < front.len() && front[j] == clusters[c][k];
            assert(order[j] == clusters[c][k]);
            assert(order[order.len() - 1] == i);
        }
        assert forall|c: int, k: int, d: int, l: int|
            0 <= c < all.len() && 0 <= k < all[c].len() && 0 <= d < all.len() && 0 <= l
                < all[d].len() && !(c == d && k == l) implies #[trigger] all[c][k]
            != #[trigger] all[d][l] by {
            if exists|g: int| joins(clusters, i, like, g) {
                let g = choose|g: int| joins(clusters, i, like, g);
                assert(all == clusters.update(g, clusters[g].push(i)));
                let n = clusters[g].len();
                if !(c == g && k == n) {
                    assert(all[c][k] == clusters[c][k]);
                }
                if !(d == g && l == n) {
                    assert(all[d][l] == clusters[d][l]);
                }
            } else {
                assert(all == clusters.push(seq![i]));
                if c < clusters.len() {
                    assert(all[c][k] == clusters[c][k]);
                }
                if d < clusters.len() {
                    assert(all[d][l] == clusters[d][l]);
                }
            }
        }
    }
}

proof fn lemma_big_ones_differ(clusters: Seq<Seq<usize>>, list: Seq<usize>)
    requires
        items_differ(clusters),
        items_among(clusters, list),
    ensures
        items_differ(big_ones(clusters)),
        items_among(big_ones(clusters), list),
    decreases clusters.len(),
{
    if clusters.len() > 0 {
        let front = clusters.drop_last();
        assert forall|c: int, k: int, d: int, l: int|
            0 <= c < front.len() && 0 <= k < front[c].len() && 0 <= d < front.len() && 0 <= l
                < front[d].len() && !(c == d && k == l) implies #[trigger] front[c][k]
            != #[trigger] front[d][l] by {
            assert(front[c][k] == clusters[c][k] && front[d][l] == clusters[d][l]);
        }
        assert forall|c: int, k: int| 0 <= c < front.len() && 0 <= k < front[c].len() implies
            list.contains(#[trigger] front[c][k]) by {
            assert(front[c][k] == clusters[c][k]);
        }
        lemma_big_ones_differ(front, list);
        let some = big_ones(front);
        let all = big_ones(clusters);
        let last = clusters.last();
        assert(clusters[clusters.len() - 1] == last);
        if last.len() >= 2 {
            assert forall|c: int, k: int, l: int|
                0 <= c < some.len() && 0 <= k < some[c].len() && 0 <= l < last.len() implies
                #[trigger] some[c][k] != #[trigger] last[l] by {
                lemma_big_ones(front, c);
                let g = choose|g: int| 0 <= g < front.len() && some[c] == #[trigger] front[g];
                assert(clusters[g][k] == some[c][k]);
                assert(clusters[clusters.len() - 1][l] == last[l]);
            }
            assert forall|c: int, k: int, d: int, l: int|
                0 <= c < all.len() && 0 <= k < all[c].len() && 0 <= d < all.len() && 0 <= l
                    < all[d].len() && !(c == d && k == l) implies #[trigger] all[c][k]
                != #[trigger] all[d][l] by {
                if c < some.len() {
                    assert(all[c][k] == some[c][k]);
                } else {
                    assert(all[c][k] == last[k]);
                    assert(clusters[clusters.len() - 1][k] == last[k]);
                }
                if d < some.len() {
                    assert(all[d][l] == some[d][l]);
                } else {
                    assert(all[d][l] == last[l]);
                    assert(clusters[clusters.len() - 1][l] == last[l]);
                }
            }
            assert forall|c: int, k: int| 0 <= c < all.len() && 0 <= k < all[c].len() implies
                list.contains(#[trigger] all[c][k]) by {
                if c < some.len() {
                    assert(all[c][k] == some[c][k]);
                } else {
                    assert(clusters[clusters.len() - 1][k] == all[c][k]);
                }
            }
        }
    }
}

proof fn lemma_bucket_differs(
    keys: Seq<Seq<Seq<int>>>,
    bucket: Seq<usize>,
    like: spec_fn(usize, usize) -> bool,
)
    requires
        bucket.no_duplicates(),
    ensures
        items_differ(big_ones(stars(sorted_by(keys, bucket), like))),
        items_among(big_ones(stars(sorted_by(keys, bucket), like)), bucket),
{
    broadcast use vstd::seq_lib::group_to_multiset_ensures;

    order::lemma_sorts_exist(keys, bucket);
    let p = sorted_by(keys, bucket);
    bucket.lemma_multiset_has_no_duplicates();
    p.lemma_multiset_has_no_duplicates_conv();
    lemma_stars_differ(p, like);
    let clusters = stars(p, like);
    assert forall|c: int, k: int| 0 <= c < clusters.len() && 0 <= k < clusters[c].len() implies
        bucket.contains(#[trigger] clusters[c][k]) by {
        lemma_items_came_up(p, like, c, k);
        assert(p.to_multiset().contains(clusters[c][k]));
    }
    lemma_big_ones_differ(clusters, bucket);
}

/// Where no position is in two places of the buckets, none is in two places of
/// the clusters that are listed.
pub proof fn lemma_listed_differ(
    keys: Seq<Seq<Seq<int>>>,
    buckets: Seq<Seq<usize>>,
    like: spec_fn(usize, usize) -> bool,
)
    requires
        items_differ(buckets),
    ensures
        items_differ(clusters_in(keys, buckets, like)),
        forall|c: int, k: int|
            0 <= c < clusters_in(keys, buckets, like).len() && 0 <= k < clusters_in(
                keys,
                buckets,
                like,
            )[c].len() ==> exists|b: int|
                0 <= b < buckets.len() && buckets[b].contains(
                    #[trigger] clusters_in(keys, buckets, like)[c][k],
                ),
    decreases buckets.len(),
{
    if buckets.len() > 0 {
        let front = buckets.drop_last();
        let last = buckets.last();
        assert(buckets[buckets.len() - 1] == last);
        assert forall|c: int, k: int, d: int, l: int|
            0 <= c < front.len() && 0 <= k < front[c].len() && 0 <= d < front.len() && 0 <= l
                < front[d].len() && !(c == d && k == l) implies #[trigger] front[c][k]
            != #[trigger] front[d][l] by {
            assert(front[c][k] == buckets[c][k] && front[d][l] == buckets[d][l]);
        }
        lemma_listed_differ(keys, front, like);
        assert forall|a: int, b: int| 0 <= a < b < last.len() implies last[a] != last[b] by {
            assert(buckets[buckets.len() - 1][a] != buckets[buckets.len() - 1][b]);
        }
        assert(last.no_duplicates());
        lemma_bucket_differs(keys, last, like);
        let some = clusters_in(keys, front, like);
        let more = big_ones(stars(sorted_by(keys, last), like));
        let all = clusters_in(keys, buckets, like);
        assert(all == some + more);
        assert forall|c: int, k: int, d: int, l: int|
            0 <= c < some.len() && 0 <= k < some[c].len() && 0 <= d < more.len() && 0 <= l
                < more[d].len() implies #[trigger] some[c][k] != #[trigger] more[d][l] by {
            let b = choose|b: int|
                0 <= b < front.len() && front[b].contains(some[c][k]);
            let x = choose|x: int| 0 <= x < front[b].len() && front[b][x] == some[c][k];
            assert(last.contains(more[d][l]));
            let y = choose|y: int| 0 <= y < last.len() && last[y] == more[d][l];
            assert(buckets[b][x] != buckets[buckets.len() - 1][y]);
        }
        assert forall|c: int, k: int, d: int, l: int|
            0 <= c < all.len() && 0 <= k < all[c].len() && 0 <= d < all.len() && 0 <= l
                < all[d].len() && !(c == d && k == l) implies #[trigger] all[c][k]
            != #[trigger] all[d][l] by {
            let n = some.len() as int;
            if c < n {
                assert(all[c][k] == some[c][k]);
            } else {
                assert(all[c][k] == more[c - n][k]);
            }
            if d < n {
                assert(all[d][l] == some[d][l]);
            } else {
                assert(all[d][l] == more[d - n][l]);
            }
        }
        assert forall|c: int, k: int| 0 <= c < all.len() && 0 <= k < all[c].len() implies exists|
            b: int,
        | 0 <= b < buckets.len() && buckets[b].contains(#[trigger] all[c][k]) by {
            if c < some.len() {
                assert(all[c][k] == some[c][k]);
                let b = choose|b: int| 0 <= b < front.len() && front[b].contains(some[c][k]);
                assert(buckets[b].contains(all[c][k]));
            } else {
                assert(all[c][k] == more[c - some.len()][k]);
                assert(buckets[buckets.len() - 1].contains(all[c][k]));
            }
        }
    }
}

/// A cluster keeps its items, in their places, when another item comes up.
proof fn lemma_cluster_grows(
    clusters: Seq<Seq<usize>>,
    i: usize,
    like: spec_fn(usize, usize) -> bool,
    g: int,
    k: int,
)
    requires
        0 <= g < clusters.len(),
        0 <= k < clusters[g].len(),
    ensures
        g < with_item(clusters, i, like).len(),
        clusters[g].len() <= with_item(clusters, i, like)[g].len(),
        with_item(clusters, i, like)[g][k] == clusters[g][k],
{
}

/// Every item that came up is in a cluster.
proof fn lemma_item_placed(
    order: Seq<usize>,
    like: spec_fn(usize, usize) -> bool,
    t: int,
) -> (at: (int, int))
    requires
        0 <= t < order.len(),
    ensures
        0 <= at.0 < stars(order, like).len(),
        0 <= at.1 < stars(order, like)[at.0].len(),
        stars(order, like)[at.0][at.1] == order[t],
    decreases order.len(),
{
    let front = order.drop_last();
    let before = stars(front, like);
    let i = order.last();
    if t < front.len() {
        let at = lemma_item_placed(front, like, t);
        assert(front[t] == order[t]);
        lemma_cluster_grows(before, i, like, at.0, at.1);
        at
    } else if exists|g: int| joins(before, i, like, g) {
        let g = choose|g: int| joins(before, i, like, g);
        assert(stars(order, like) == before.update(g, before[g].push(i)));
        (g, before[g].len() as int)
    } else {
        assert(stars(order, like) == before.push(seq![i]));
        (before.len() as int, 0)
    }
}

/// Of two items, of which the later one is like the earlier one, at least one
/// is in a cluster with another item.
proof fn lemma_like_pair(
    order: Seq<usize>,
    like: spec_fn(usize, usize) -> bool,
    p: int,
    q: int,
) -> (at: (int, int))
    requires
        0 <= p < q < order.len(),
        like(order[q], order[p]),
    ensures
        0 <= at.0 < stars(order, like).len(),
        0 <= at.1 < stars(order, like)[at.0].len(),
        stars(order, like)[at.0].len() >= 2,
        stars(order, like)[at.0][at.1] == order[p] || stars(order, like)[at.0][at.1] == order[q],
    decreases order.len(),
{
    let front = order.drop_last();
    let before = stars(front, like);
    let i = order.last();
    assert(front[p] == order[p]);
    if q < front.len() {
        assert(front[q] == order[q]);
        let at = lemma_like_pair(front, like, p, q);
        lemma_cluster_grows(before, i, like, at.0, at.1);
        at
    } else {
        let at = lemma_item_placed(front, like, p);
        if before[at.0].len() >= 2 {
            lemma_cluster_grows(before, i, like, at.0, at.1);
            at
        } else {
            lemma_some_joins(before, i, like, at.0);
            lemma_has_leaders(front, like);
            let g = choose|g: int| joins(before, i, like, g);
            assert(stars(order, like) == before.update(g, before[g].push(i)));
            assert(before[g].len() > 0);
            (g, before[g].len() as int)
        }
    }
}

/// Every cluster with at least two items is listed.
proof fn lemma_big_one_kept(clusters: Seq<Seq<usize>>, g: int) -> (c: int)
    requires
        0 <= g < clusters.len(),
        clusters[g].len() >= 2,
    ensures
        0 <= c < big_ones(clusters).len(),
        big_ones(clusters)[c] == clusters[g],
    decreases clusters.len(),
{
    let front = clusters.drop_last();
    if g == clusters.len() - 1 {
        big_ones(front).len() as int
    } else {
        assert(front[g] == clusters[g]);
        lemma_big_one_kept(front, g)
    }
}

/// Every cluster with at least two items that clustering a bucket makes is
/// listed, whichever bucket it is.
proof fn lemma_cluster_listed(
    keys: Seq<Seq<Seq<int>>>,
    buckets: Seq<Seq<usize>>,
    like: spec_fn(usize, usize) -> bool,
    b: int,
    g: int,
) -> (c: int)
    requires
        0 <= b < buckets.len(),
        0 <= g < stars(sorted_by(keys, buckets[b]), like).len(),
        stars(sorted_by(keys, buckets[b]), like)[g].len() >= 2,
    ensures
        0 <= c < clusters_in(keys, buckets, like).len(),
        clusters_in(keys, buckets, like)[c] == stars(sorted_by(keys, buckets[b]), like)[g],
    decreases buckets.len(),
{
    let front = buckets.drop_last();
    let some = clusters_in(keys, front, like);
    if b == buckets.len() - 1 {
        let c = lemma_big_one_kept(stars(sorted_by(keys, buckets.last()), like), g);
        some.len() + c
    } else {
        assert(front[b] == buckets[b]);
        lemma_cluster_listed(keys, front, like, b, g)
    }
}

/// Clustering misses no pair: of two items of one bucket that are like each
/// other, at least one is in a cluster that is listed.
pub proof fn lemma_like_pair_listed(
    keys: Seq<Seq<Seq<int>>>,
    buckets: Seq<Seq<usize>>,
    like: spec_fn(usize, usize) -> bool,
    b: int,
    i: usize,
    j: usize,
) -> (at: (int, int))
    requires
        0 <= b < buckets.len(),
        buckets[b].contains(i),
        buckets[b].contains(j),
        i != j,
        like(i, j),
        like(j, i),
    ensures
        0 <= at.0 < clusters_in(keys, buckets, like).len(),
        0 <= at.1 < clusters_in(keys, buckets, like)[at.0].len(),
        clusters_in(keys, buckets, like)[at.0][at.1] == i || clusters_in(
            keys,
            buckets,
            like,
        )[at.0][at.1] == j,
{
    broadcast use vstd::seq_lib::group_to_multiset_ensures;

    order::lemma_sorts_exist(keys, buckets[b]);
    let order = sorted_by(keys, buckets[b]);
    assert(order::sorts(keys, buckets[b], order));
    assert(buckets[b].to_multiset().contains(i));
    assert(buckets[b].to_multiset().contains(j));
    assert(order.contains(i) && order.contains(j));
    let p = choose|p: int| 0 <= p < order.len() && order[p] == i;
    let q = choose|q: int| 0 <= q < order.len() && order[q] == j;
    let at = if p < q {
        lemma_like_pair(order, like, p, q)
    } else {
        lemma_like_pair(order, like, q, p)
    };
    let c = lemma_cluster_listed(keys, buckets, like, b, at.0);
    (c, at.1)
}

/// The items of a cluster that is listed all come from one bucket.
pub proof fn lemma_listed_in_bucket(
    keys: Seq<Seq<Seq<int>>>,
    buckets: Seq<Seq<usize>>,
    like: spec_fn(usize, usize) -> bool,
    c: int,
) -> (b: int)
    requires
        0 <= c < clusters_in(keys, buckets, like).len(),
    ensures
        0 <= b < buckets.len(),
        forall|k: int|
            0 <= k < clusters_in(keys, buckets, like)[c].len() ==> buckets[b].contains(
                #[trigger] clusters_in(keys, buckets, like)[c][k],
            ),
        clusters_in(keys, buckets, like)[c].len() >= 2,
{
    broadcast use vstd::seq_lib::group_to_multiset_ensures;

    lemma_listed_clusters(keys, buckets, like, c);
    let (b, g) = choose|b: int, g: int|
        {
            &&& 0 <= b < buckets.len()
            &&& 0 <= g < stars(sorted_by(keys, #[trigger] buckets[b]), like).len()
            &&& clusters_in(keys, buckets, like)[c] == #[trigger] stars(
                sorted_by(keys, buckets[b]),
                like,
            )[g]
        };
    order::lemma_sorts_exist(keys, buckets[b]);
    let p = sorted_by(keys, buckets[b]);
    assert(order::sorts(keys, buckets[b], p));
    assert forall|k: int| 0 <= k < clusters_in(keys, buckets, like)[c].len() implies buckets[b].contains(
        #[trigger] clusters_in(keys, buckets, like)[c][k],
    ) by {
        lemma_items_came_up(p, like, g, k);
        assert(p.to_multiset().contains(stars(p, like)[g][k]));
    }
    b
}

/// An item is with the first leader that it is like: it is like no leader of an
/// earlier cluster.
pub proof fn lemma_first_leader(
    order: Seq<usize>,
    like: spec_fn(usize, usize) -> bool,
    f: int,
    g: int,
    k: int,
)
    requires
        0 <= f < g < stars(order, like).len(),
        0 <= k < stars(order, like)[g].len(),
    ensures
        !like(stars(order, like)[g][k], stars(order, like)[f][0]),
    decreases order.len(),
{
    let front = order.drop_last();
    let before = stars(front, like);
    let i = order.last();
    lemma_has_leaders(front, like);
    if exists|h: int| joins(before, i, like, h) {
        let h = choose|h: int| joins(before, i, like, h);
        assert(stars(order, like) == before.update(h, before[h].push(i)));
        assert(before[f].len() > 0);
        if g == h && k == before[h].len() {
            assert(!like(i, before[f][0]));
        } else {
            lemma_first_leader(front, like, f, g, k);
        }
    } else {
        assert(stars(order, like) == before.push(seq![i]));
        assert(before[f].len() > 0);
        if g < before.len() {
            lemma_first_leader(front, like, f, g, k);
        } else if like(i, before[f][0]) {
            lemma_some_joins(before, i, like, f);
        }
    }
}

/// The items of a cluster stand in the order in which they came up.
pub proof fn lemma_cluster_order(
    keys: Seq<Seq<Seq<int>>>,
    order: Seq<usize>,
    like: spec_fn(usize, usize) -> bool,
    c: int,
    k: int,
    l: int,
)
    requires
        order::in_order(keys, order),
        0 <= c < stars(order, like).len(),
        0 <= k <= l < stars(order, like)[c].len(),
    ensures
        order::goes_before(keys, stars(order, like)[c][k], stars(order, like)[c][l]),
    decreases order.len(),
{
    let front = order.drop_last();
    let clusters = stars(front, like);
    let all = stars(order, like);
    let i = order.last();
    lemma_items_came_up(order, like, c, k);
    let p = choose|p: int| 0 <= p < order.len() && order[p] == all[c][k];
    assert(order::goes_before(keys, order[p], order[order.len() - 1]));
    assert forall|a: int, b: int| 0 <= a <= b < front.len() implies order::goes_before(
        keys,
        #[trigger] front[a],
        #[trigger] front[b],
    ) by {
        assert(front[a] == order[a] && front[b] == order[b]);
    }
    if exists|g: int| joins(clusters, i, like, g) {
        let g = choose|g: int| joins(clusters, i, like, g);
        assert(all == clusters.update(g, clusters[g].push(i)));
        if c != g || l < clusters[g].len() {
            lemma_cluster_order(keys, front, like, c, k, l);
        }
    } else {
        assert(all == clusters.push(seq![i]));
        if c < clusters.len() {
            lemma_cluster_order(keys, front, like, c, k, l);
        }
    }
}

} // verus!
