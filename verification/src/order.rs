//! Total orders on keys, and the stable sort built on them.

use vstd::prelude::*;

verus! {

/// The outcome of comparing two values.
#[derive(Clone, Copy, Debug, PartialEq, Eq, Structural)]
pub enum Rank {
    Less,
    Equal,
    Greater,
}

/// The same comparison with its two sides exchanged.
pub open spec fn flip(r: Rank) -> Rank {
    match r {
        Rank::Less => Rank::Greater,
        Rank::Equal => Rank::Equal,
        Rank::Greater => Rank::Less,
    }
}

/// The order of the integers.
pub open spec fn rank_int(a: int, b: int) -> Rank {
    if a < b {
        Rank::Less
    } else if a == b {
        Rank::Equal
    } else {
        Rank::Greater
    }
}

/// Lexicographic order: the first difference decides, and a proper prefix
/// comes before what it is a prefix of.
pub open spec fn rank_word(a: Seq<int>, b: Seq<int>) -> Rank
    decreases a.len(),
{
    if a.len() == 0 {
        if b.len() == 0 {
            Rank::Equal
        } else {
            Rank::Less
        }
    } else if b.len() == 0 {
        Rank::Greater
    } else {
        match rank_int(a[0], b[0]) {
            Rank::Equal => rank_word(a.skip(1), b.skip(1)),
            r => r,
        }
    }
}

/// Lexicographic order on sequences of words.
pub open spec fn rank_key(a: Seq<Seq<int>>, b: Seq<Seq<int>>) -> Rank
    decreases a.len(),
{
    if a.len() == 0 {
        if b.len() == 0 {
            Rank::Equal
        } else {
            Rank::Less
        }
    } else if b.len() == 0 {
        Rank::Greater
    } else {
        match rank_word(a[0], b[0]) {
            Rank::Equal => rank_key(a.skip(1), b.skip(1)),
            r => r,
        }
    }
}

/// Two words rank equal exactly when they are the same word.
pub proof fn lemma_rank_word_equal(a: Seq<int>, b: Seq<int>)
    ensures
        rank_word(a, b) == Rank::Equal <==> a == b,
    decreases a.len(),
{
    if a.len() > 0 && b.len() > 0 {
        lemma_rank_word_equal(a.skip(1), b.skip(1));
        if a[0] == b[0] && a.skip(1) == b.skip(1) {
            assert(a =~= seq![a[0]] + a.skip(1));
            assert(b =~= seq![b[0]] + b.skip(1));
        }
    } else if a.len() == 0 && b.len() == 0 {
        assert(a =~= b);
    }
}

/// Exchanging the sides of a comparison flips its outcome.
pub proof fn lemma_rank_word_flip(a: Seq<int>, b: Seq<int>)
    ensures
        rank_word(b, a) == flip(rank_word(a, b)),
    decreases a.len(),
{
    if a.len() > 0 && b.len() > 0 {
        lemma_rank_word_flip(a.skip(1), b.skip(1));
    }
}

/// The order on words is transitive.
pub proof fn lemma_rank_word_trans(a: Seq<int>, b: Seq<int>, c: Seq<int>)
    requires
        rank_word(a, b) != Rank::Greater,
        rank_word(b, c) != Rank::Greater,
    ensures
        rank_word(a, c) != Rank::Greater,
        rank_word(a, b) == Rank::Less || rank_word(b, c) == Rank::Less ==> rank_word(a, c)
            == Rank::Less,
    decreases a.len(),
{
    if a.len() > 0 && b.len() > 0 && c.len() > 0 {
        if a[0] == b[0] && b[0] == c[0] {
            lemma_rank_word_trans(a.skip(1), b.skip(1), c.skip(1));
        }
    }
}

/// Two keys rank equal exactly when they are the same key.
pub proof fn lemma_rank_key_equal(a: Seq<Seq<int>>, b: Seq<Seq<int>>)
    ensures
        rank_key(a, b) == Rank::Equal <==> a == b,
    decreases a.len(),
{
    if a.len() > 0 && b.len() > 0 {
        lemma_rank_word_equal(a[0], b[0]);
        lemma_rank_key_equal(a.skip(1), b.skip(1));
        if a[0] == b[0] && a.skip(1) == b.skip(1) {
            assert(a =~= seq![a[0]] + a.skip(1));
            assert(b =~= seq![b[0]] + b.skip(1));
        }
    } else if a.len() == 0 && b.len() == 0 {
        assert(a =~= b);
    }
}

/// Exchanging the sides of a comparison flips its outcome.
pub proof fn lemma_rank_key_flip(a: Seq<Seq<int>>, b: Seq<Seq<int>>)
    ensures
        rank_key(b, a) == flip(rank_key(a, b)),
    decreases a.len(),
{
    if a.len() > 0 && b.len() > 0 {
        lemma_rank_word_flip(a[0], b[0]);
        lemma_rank_key_flip(a.skip(1), b.skip(1));
    }
}

/// The order on keys is transitive.
pub proof fn lemma_rank_key_trans(a: Seq<Seq<int>>, b: Seq<Seq<int>>, c: Seq<Seq<int>>)
    requires
        rank_key(a, b) != Rank::Greater,
        rank_key(b, c) != Rank::Greater,
    ensures
        rank_key(a, c) != Rank::Greater,
        rank_key(a, b) == Rank::Less || rank_key(b, c) == Rank::Less ==> rank_key(a, c)
            == Rank::Less,
    decreases a.len(),
{
    if a.len() > 0 && b.len() > 0 && c.len() > 0 {
        lemma_rank_word_trans(a[0], b[0], c[0]);
        lemma_rank_word_equal(a[0], b[0]);
        lemma_rank_word_equal(b[0], c[0]);
        lemma_rank_word_equal(a[0], c[0]);
        if a[0] == b[0] && b[0] == c[0] {
            lemma_rank_key_trans(a.skip(1), b.skip(1), c.skip(1));
        }
    }
}

/// A value that can be sorted by a key.
pub trait SortKey {
    /// The key by which the value is sorted.
    spec fn sort_key(&self) -> Seq<Seq<int>>;

    /// Compares the keys of two values.
    fn rank(&self, other: &Self) -> (r: Rank)
        ensures
            r == rank_key(self.sort_key(), other.sort_key()),
    ;
}

/// The keys of a list of values.
pub open spec fn keys_of<T: SortKey>(items: Seq<T>) -> Seq<Seq<Seq<int>>> {
    items.map_values(|t: T| t.sort_key())
}

/// Item `i` goes at or before item `j`: its key is smaller, or the keys are
/// the same and `i` does not exceed `j`.
pub open spec fn goes_before(keys: Seq<Seq<Seq<int>>>, i: usize, j: usize) -> bool {
    match rank_key(keys[i as int], keys[j as int]) {
        Rank::Less => true,
        Rank::Equal => i <= j,
        Rank::Greater => false,
    }
}

/// Every index in `p` goes at or before all those that follow it.
pub open spec fn in_order(keys: Seq<Seq<Seq<int>>>, p: Seq<usize>) -> bool {
    forall|a: int, b: int|
        0 <= a <= b < p.len() ==> goes_before(keys, #[trigger] p[a], #[trigger] p[b])
}

/// `p` lists the indices in `idxs`, each as often as there, by ascending key,
/// and those of equal keys by ascending index.
pub open spec fn sorts(keys: Seq<Seq<Seq<int>>>, idxs: Seq<usize>, p: Seq<usize>) -> bool {
    &&& in_order(keys, p)
    &&& p.to_multiset() == idxs.to_multiset()
}

proof fn lemma_before_trans(keys: Seq<Seq<Seq<int>>>, i: usize, j: usize, k: usize)
    requires
        goes_before(keys, i, j),
        goes_before(keys, j, k),
    ensures
        goes_before(keys, i, k),
{
    let a = keys[i as int];
    let b = keys[j as int];
    let c = keys[k as int];
    lemma_rank_key_trans(a, b, c);
    lemma_rank_key_equal(a, b);
    lemma_rank_key_equal(b, c);
    lemma_rank_key_equal(a, c);
}

proof fn lemma_before_total(keys: Seq<Seq<Seq<int>>>, i: usize, j: usize)
    ensures
        goes_before(keys, i, j) || goes_before(keys, j, i),
        goes_before(keys, i, j) && goes_before(keys, j, i) ==> i == j,
{
    lemma_rank_key_flip(keys[i as int], keys[j as int]);
}

/// There is only one way to sort: two sorted lists of the same indices are
/// the same list.
pub proof fn lemma_sorts_unique(
    keys: Seq<Seq<Seq<int>>>,
    idxs: Seq<usize>,
    p: Seq<usize>,
    q: Seq<usize>,
)
    requires
        sorts(keys, idxs, p),
        sorts(keys, idxs, q),
    ensures
        p == q,
    decreases p.len(),
{
    broadcast use vstd::seq_lib::group_to_multiset_ensures;

    assert(p.len() == p.to_multiset().len());
    assert(q.len() == q.to_multiset().len());
    if p.len() == 0 {
        assert(p =~= q);
    } else {
        let a = p.last();
        let b = q.last();
        assert(q.to_multiset().contains(a) && p.to_multiset().contains(b)) by {
            assert(p.to_multiset().contains(a));
            assert(q.to_multiset().contains(b));
        }
        let i = choose|i: int| 0 <= i < q.len() && q[i] == a;
        let j = choose|j: int| 0 <= j < p.len() && p[j] == b;
        assert(goes_before(keys, q[i], q[q.len() - 1]));
        assert(goes_before(keys, p[j], p[p.len() - 1]));
        lemma_before_total(keys, a, b);
        assert(a == b);
        let p1 = p.drop_last();
        let q1 = q.drop_last();
        assert(p =~= p1.push(a));
        assert(q =~= q1.push(b));
        assert(p1.to_multiset() =~= p.to_multiset().remove(a));
        assert(q1.to_multiset() =~= q.to_multiset().remove(a));
        assert forall|x: int, y: int| 0 <= x <= y < p1.len() implies goes_before(
            keys,
            #[trigger] p1[x],
            #[trigger] p1[y],
        ) by {
            assert(p1[x] == p[x] && p1[y] == p[y]);
        }
        assert forall|x: int, y: int| 0 <= x <= y < q1.len() implies goes_before(
            keys,
            #[trigger] q1[x],
            #[trigger] q1[y],
        ) by {
            assert(q1[x] == q[x] && q1[y] == q[y]);
        }
        lemma_sorts_unique(keys, p1, p1, q1);
    }
}

/// `x` put into a sorted list, behind all that go before it.
spec fn put_in(keys: Seq<Seq<Seq<int>>>, p: Seq<usize>, x: usize) -> Seq<usize>
    decreases p.len(),
{
    if p.len() == 0 || goes_before(keys, p.last(), x) {
        p.push(x)
    } else {
        put_in(keys, p.drop_last(), x).push(p.last())
    }
}

proof fn lemma_put_in(keys: Seq<Seq<Seq<int>>>, p: Seq<usize>, x: usize)
    requires
        in_order(keys, p),
    ensures
        in_order(keys, put_in(keys, p, x)),
        put_in(keys, p, x).to_multiset() == p.to_multiset().insert(x),
    decreases p.len(),
{
    broadcast use vstd::seq_lib::group_to_multiset_ensures;

    let q = put_in(keys, p, x);
    lemma_before_total(keys, x, x);
    if p.len() == 0 || goes_before(keys, p.last(), x) {
        assert forall|a: int, b: int| 0 <= a <= b < q.len() implies goes_before(
            keys,
            #[trigger] q[a],
            #[trigger] q[b],
        ) by {
            if b < p.len() {
                assert(q[a] == p[a] && q[b] == p[b]);
            } else if a < p.len() {
                assert(q[a] == p[a]);
                lemma_before_trans(keys, p[a], p[p.len() - 1], x);
            }
        }
    } else {
        let front = p.drop_last();
        let y = p.last();
        assert forall|a: int, b: int| 0 <= a <= b < front.len() implies goes_before(
            keys,
            #[trigger] front[a],
            #[trigger] front[b],
        ) by {
            assert(front[a] == p[a] && front[b] == p[b]);
        }
        lemma_put_in(keys, front, x);
        let r = put_in(keys, front, x);
        lemma_before_total(keys, x, y);
        lemma_before_total(keys, y, y);
        assert(p =~= front.push(y));
        assert(q.to_multiset() =~= p.to_multiset().insert(x));
        assert forall|a: int| 0 <= a < r.len() implies goes_before(keys, #[trigger] r[a], y) by {
            assert(r.to_multiset().contains(r[a]));
            assert(front.to_multiset().insert(x).contains(r[a]));
            if r[a] != x {
                assert(front.to_multiset().contains(r[a]));
                let i = choose|i: int| 0 <= i < front.len() && front[i] == r[a];
                assert(goes_before(keys, p[i], p[p.len() - 1]));
            }
        }
        assert forall|a: int, b: int| 0 <= a <= b < q.len() implies goes_before(
            keys,
            #[trigger] q[a],
            #[trigger] q[b],
        ) by {
            if b < r.len() {
                assert(q[a] == r[a] && q[b] == r[b]);
            } else if a < r.len() {
                assert(q[a] == r[a]);
            }
        }
    }
}

/// Indices can always be sorted.
pub proof fn lemma_sorts_exist(keys: Seq<Seq<Seq<int>>>, idxs: Seq<usize>)
    ensures
        exists|p: Seq<usize>| sorts(keys, idxs, p),
    decreases idxs.len(),
{
    broadcast use vstd::seq_lib::group_to_multiset_ensures;

    if idxs.len() == 0 {
        assert(sorts(keys, idxs, idxs));
    } else {
        let front = idxs.drop_last();
        lemma_sorts_exist(keys, front);
        let p = choose|p: Seq<usize>| sorts(keys, front, p);
        lemma_put_in(keys, p, idxs.last());
        assert(idxs =~= front.push(idxs.last()));
        assert(sorts(keys, idxs, put_in(keys, p, idxs.last())));
    }
}

fn before<T: SortKey>(items: &Vec<T>, i: usize, j: usize) -> (r: bool)
    requires
        i < items@.len(),
        j < items@.len(),
    ensures
        r == goes_before(keys_of(items@), i, j),
{
    match items[i].rank(&items[j]) {
        Rank::Less => true,
        Rank::Equal => i <= j,
        Rank::Greater => false,
    }
}

/// Every index in `idxs` names an item.
pub open spec fn all_below(idxs: Seq<usize>, n: nat) -> bool {
    forall|k: int| 0 <= k < idxs.len() ==> #[trigger] idxs[k] < n
}

proof fn lemma_same_items(p: Seq<usize>, q: Seq<usize>, n: nat)
    requires
        p.to_multiset() == q.to_multiset(),
        all_below(q, n),
    ensures
        all_below(p, n),
        p.len() == q.len(),
{
    broadcast use vstd::seq_lib::group_to_multiset_ensures;

    assert(p.len() == p.to_multiset().len());
    assert(q.len() == q.to_multiset().len());
    assert forall|k: int| 0 <= k < p.len() implies #[trigger] p[k] < n by {
        assert(p.to_multiset().contains(p[k]));
        assert(q.contains(p[k]));
    }
}

/// Merges two sorted lists of indices.
fn merge<T: SortKey>(items: &Vec<T>, left: &Vec<usize>, right: &Vec<usize>) -> (out: Vec<usize>)
    requires
        all_below(left@, items@.len()),
        all_below(right@, items@.len()),
        in_order(keys_of(items@), left@),
        in_order(keys_of(items@), right@),
    ensures
        in_order(keys_of(items@), out@),
        out@.to_multiset() == left@.to_multiset().add(right@.to_multiset()),
{
    broadcast use vstd::seq_lib::group_to_multiset_ensures;

    let ghost keys = keys_of(items@);
    let mut out: Vec<usize> = Vec::new();
    let mut i: usize = 0;
    let mut j: usize = 0;
    proof {
        assert(left@.take(0) =~= Seq::<usize>::empty());
        assert(right@.take(0) =~= Seq::<usize>::empty());
        assert(out@.to_multiset() =~= left@.take(0).to_multiset().add(right@.take(0).to_multiset()));
    }
    while i < left.len() || j < right.len()
        invariant
            keys == keys_of(items@),
            0 <= i <= left@.len(),
            0 <= j <= right@.len(),
            all_below(left@, items@.len()),
            all_below(right@, items@.len()),
            in_order(keys, left@),
            in_order(keys, right@),
            in_order(keys, out@),
            out@.to_multiset() == left@.take(i as int).to_multiset().add(
                right@.take(j as int).to_multiset(),
            ),
            forall|a: int, b: int|
                0 <= a < out@.len() && i <= b < left@.len() ==> goes_before(
                    keys,
                    #[trigger] out@[a],
                    #[trigger] left@[b],
                ),
            forall|a: int, b: int|
                0 <= a < out@.len() && j <= b < right@.len() ==> goes_before(
                    keys,
                    #[trigger] out@[a],
                    #[trigger] right@[b],
                ),
        decreases left@.len() - i + right@.len() - j,
    {
        let take_left = if i >= left.len() {
            false
        } else if j >= right.len() {
            true
        } else {
            before(items, left[i], right[j])
        };
        let ghost prev = out@;
        if take_left {
            let x = left[i];
            proof {
                broadcast use vstd::seq_lib::group_to_multiset_ensures;

                assert(left@.take(i + 1) =~= left@.take(i as int).push(x));
                assert forall|b: int| j <= b < right@.len() implies goes_before(
                    keys,
                    x,
                    #[trigger] right@[b],
                ) by {
                    lemma_before_trans(keys, x, right@[j as int], right@[b]);
                }
            }
            out.push(x);
            i = i + 1;
            proof {
                broadcast use vstd::seq_lib::group_to_multiset_ensures;

                assert(out@ =~= prev.push(x));
                assert(out@.to_multiset() =~= left@.take(i as int).to_multiset().add(
                    right@.take(j as int).to_multiset(),
                ));
            }
        } else {
            let x = right[j];
            proof {
                broadcast use vstd::seq_lib::group_to_multiset_ensures;

                assert(right@.take(j + 1) =~= right@.take(j as int).push(x));
                if i < left@.len() {
                    lemma_before_total(keys, left@[i as int], x);
                }
                assert forall|b: int| i <= b < left@.len() implies goes_before(
                    keys,
                    x,
                    #[trigger] left@[b],
                ) by {
                    lemma_before_trans(keys, x, left@[i as int], left@[b]);
                }
            }
            out.push(x);
            j = j + 1;
            proof {
                broadcast use vstd::seq_lib::group_to_multiset_ensures;

                assert(out@ =~= prev.push(x));
                assert(out@.to_multiset() =~= left@.take(i as int).to_multiset().add(
                    right@.take(j as int).to_multiset(),
                ));
            }
        }
    }
    proof {
        assert(left@.take(i as int) =~= left@);
        assert(right@.take(j as int) =~= right@);
    }
    out
}

/// Sorts the indices at positions `lo..hi` of `idxs` by the keys of the items
/// they name.
fn sort_range<T: SortKey>(items: &Vec<T>, idxs: &Vec<usize>, lo: usize, hi: usize) -> (out: Vec<
    usize,
>)
    requires
        lo <= hi <= idxs@.len(),
        all_below(idxs@, items@.len()),
    ensures
        sorts(keys_of(items@), idxs@.subrange(lo as int, hi as int), out@),
    decreases hi - lo,
{
    broadcast use vstd::seq_lib::group_to_multiset_ensures;

    if hi - lo <= 1 {
        let mut out: Vec<usize> = Vec::new();
        if hi - lo == 1 {
            out.push(idxs[lo]);
            proof {
                lemma_before_total(keys_of(items@), idxs@[lo as int], idxs@[lo as int]);
            }
        }
        assert(out@ =~= idxs@.subrange(lo as int, hi as int));
        return out;
    }
    let mid: usize = lo + (hi - lo) / 2;
    let left = sort_range(items, idxs, lo, mid);
    let right = sort_range(items, idxs, mid, hi);
    let ghost l = idxs@.subrange(lo as int, mid as int);
    let ghost r = idxs@.subrange(mid as int, hi as int);
    proof {
        lemma_same_items(left@, l, items@.len());
        lemma_same_items(right@, r, items@.len());
    }
    let out = merge(items, &left, &right);
    proof {
        assert(idxs@.subrange(lo as int, hi as int) =~= l + r);
        vstd::seq_lib::lemma_multiset_commutative(l, r);
    }
    out
}

/// Sorts indices by the keys of the items they name.
pub fn sort_indices<T: SortKey>(items: &Vec<T>, idxs: &Vec<usize>) -> (out: Vec<usize>)
    requires
        all_below(idxs@, items@.len()),
    ensures
        sorts(keys_of(items@), idxs@, out@),
        all_below(out@, items@.len()),
        out@.len() == idxs@.len(),
{
    let out = sort_range(items, idxs, 0, idxs.len());
    proof {
        assert(idxs@.subrange(0, idxs@.len() as int) =~= idxs@);
        lemma_same_items(out@, idxs@, items@.len());
    }
    out
}

/// The numbers from zero up to, but without, `n`.
pub open spec fn upto(n: nat) -> Seq<usize> {
    Seq::new(n, |i: int| i as usize)
}

/// The items that the indices in `p` name, in the order of `p`.
pub open spec fn pick<T>(items: Seq<T>, p: Seq<usize>) -> Seq<T> {
    p.map_values(|i: usize| items[i as int])
}

/// `out` holds the items by ascending key, and those of equal keys in the
/// order they had.
pub open spec fn stable_sorted<T>(items: Seq<T>, keys: Seq<Seq<Seq<int>>>, out: Seq<T>) -> bool {
    exists|p: Seq<usize>| #[trigger] sorts(keys, upto(items.len()), p) && out == pick(items, p)
}

/// A sorted list of all indices names every item exactly once.
pub proof fn lemma_permutation(n: nat, p: Seq<usize>)
    requires
        n <= usize::MAX,
        p.to_multiset() == upto(n).to_multiset(),
    ensures
        p.len() == n,
        p.no_duplicates(),
        all_below(p, n),
        forall|i: usize| i < n ==> p.contains(i),
{
    broadcast use vstd::seq_lib::group_to_multiset_ensures;

    let u = upto(n);
    assert(u.no_duplicates());
    assert(all_below(u, n));
    lemma_same_items(p, u, n);
    u.lemma_multiset_has_no_duplicates();
    p.lemma_multiset_has_no_duplicates_conv();
    assert forall|i: usize| i < n implies p.contains(i) by {
        assert(u[i as int] == i);
        assert(u.to_multiset().contains(i));
        assert(p.to_multiset().contains(i));
    }
}

/// Sorts items by their keys; the sort is stable.
pub fn stable_sort<T: SortKey>(items: Vec<T>) -> (out: Vec<T>)
    ensures
        stable_sorted(items@, keys_of(items@), out@),
        out@.len() == items@.len(),
{
    let mut all: Vec<usize> = Vec::new();
    let n = items.len();
    let mut i: usize = 0;
    while i < n
        invariant
            n == items@.len(),
            0 <= i <= n,
            all@ == upto(i as nat),
        decreases n - i,
    {
        all.push(i);
        i = i + 1;
        assert(all@ =~= upto(i as nat));
    }
    let p = sort_indices(&items, &all);
    let ghost given = items@;
    let mut slots: Vec<Option<T>> = Vec::new();
    for item in it: items
        invariant
            it.seq() == given,
            slots@ == given.take(it.index()).map_values(|t: T| Some(t)),
    {
        slots.push(Some(item));
        assert(given.take(it.index() + 1) =~= given.take(it.index()).push(item));
        assert(slots@ =~= given.take(it.index() + 1).map_values(|t: T| Some(t)));
    }
    assert(given.take(n as int) =~= given);
    proof {
        lemma_permutation(n as nat, p@);
    }
    let mut out: Vec<T> = Vec::new();
    let mut k: usize = 0;
    assert(out@ =~= pick(given, p@).take(0));
    while k < n
        invariant
            0 <= k <= n,
            n == given.len(),
            p@.len() == n,
            p@.no_duplicates(),
            all_below(p@, n as nat),
            slots@.len() == n,
            out@ == pick(given, p@).take(k as int),
            forall|a: int| k <= a < n ==> slots@[#[trigger] p@[a] as int] == Some(given[p@[a] as int]),
        decreases n - k,
    {
        let at = p[k];
        assert(slots@[p@[k as int] as int] == Some(given[p@[k as int] as int]));
        let ghost before_take = slots@;
        let taken = slots[at].take();
        match taken {
            Some(item) => {
                out.push(item);
            },
            None => {},
        }
        k = k + 1;
        proof {
            assert(pick(given, p@).take(k as int) =~= pick(given, p@).take(k - 1).push(
                given[at as int],
            ));
            assert forall|a: int| k <= a < n implies slots@[#[trigger] p@[a] as int] == Some(
                given[p@[a] as int],
            ) by {
                assert(p@[a] != at);
                assert(before_take[p@[a] as int] == Some(given[p@[a] as int]));
            }
        }
    }
    proof {
        assert(pick(given, p@).take(n as int) =~= pick(given, p@));
        assert(sorts(keys_of(given), upto(given.len()), p@));
    }
    out
}

/// Sorting what the items are is the same as sorting the items.
pub proof fn lemma_sorted_map<T, U>(
    items: Seq<T>,
    keys: Seq<Seq<Seq<int>>>,
    out: Seq<T>,
    f: spec_fn(T) -> U,
)
    requires
        stable_sorted(items, keys, out),
        items.len() <= usize::MAX,
    ensures
        stable_sorted(items.map_values(f), keys, out.map_values(f)),
        out.len() == items.len(),
{
    let p = choose|p: Seq<usize>|
        #[trigger] sorts(keys, upto(items.len()), p) && out == pick(items, p);
    lemma_permutation(items.len(), p);
    assert(out.map_values(f) =~= pick(items.map_values(f), p));
    assert(sorts(keys, upto(items.map_values(f).len()), p));
}

/// A sorted list holds the items that were there, each as often.
pub proof fn lemma_sorted_permutes<T>(items: Seq<T>, keys: Seq<Seq<Seq<int>>>, out: Seq<T>)
    requires
        stable_sorted(items, keys, out),
        items.len() <= usize::MAX,
    ensures
        out.len() == items.len(),
        forall|x: T| out.contains(x) <==> items.contains(x),
        out.to_multiset() == items.to_multiset(),
{
    let p = choose|p: Seq<usize>|
        #[trigger] sorts(keys, upto(items.len()), p) && out == pick(items, p);
    lemma_permutation(items.len(), p);
    assert forall|x: T| items.contains(x) implies out.contains(x) by {
        let i = choose|i: int| 0 <= i < items.len() && items[i] == x;
        assert(p.contains(i as usize));
        let k = choose|k: int| 0 <= k < p.len() && p[k] == i as usize;
        assert(out[k] == x);
    }
    assert forall|x: T| out.contains(x) implies items.contains(x) by {
        let k = choose|k: int| 0 <= k < out.len() && out[k] == x;
        assert(items[p[k] as int] == x);
    }
    lemma_pick_multiset(items, p, upto(items.len()));
    assert(pick(items, upto(items.len())) =~= items);
}

/// Lists of the same indices name the same items.
proof fn lemma_pick_multiset<T>(items: Seq<T>, p: Seq<usize>, q: Seq<usize>)
    requires
        p.to_multiset() == q.to_multiset(),
    ensures
        pick(items, p).to_multiset() == pick(items, q).to_multiset(),
    decreases p.len(),
{
    broadcast use vstd::seq_lib::group_to_multiset_ensures;

    assert(p.len() == p.to_multiset().len());
    assert(q.len() == q.to_multiset().len());
    if p.len() == 0 {
        assert(pick(items, p) =~= pick(items, q));
    } else {
        let x = p.last();
        assert(p.to_multiset().contains(x));
        assert(q.contains(x));
        let k = choose|k: int| 0 <= k < q.len() && q[k] == x;
        assert(p.drop_last() =~= p.remove(p.len() - 1));
        assert(p.drop_last().to_multiset() =~= q.remove(k).to_multiset());
        lemma_pick_multiset(items, p.drop_last(), q.remove(k));
        assert(pick(items, p) =~= pick(items, p.drop_last()).push(items[x as int]));
        assert(pick(items, q.remove(k)) =~= pick(items, q).remove(k));
        assert(pick(items, q)[k] == items[x as int]);
        assert(pick(items, p).to_multiset() =~= pick(items, q).to_multiset());
    }
}

/// Position `k` is the first that has the smallest key.
pub open spec fn first_least(keys: Seq<Seq<Seq<int>>>, k: int) -> bool {
    &&& 0 <= k < keys.len()
    &&& forall|j: int|
        0 <= j < keys.len() ==> rank_key(keys[k], #[trigger] keys[j]) != Rank::Greater
    &&& forall|j: int| 0 <= j < k ==> rank_key(keys[k], #[trigger] keys[j]) == Rank::Less
}

/// The first smallest key among the first `i + 1`, from that among the first
/// `i`.
pub proof fn lemma_first_least_step(keys: Seq<Seq<Seq<int>>>, i: int, best: int)
    requires
        0 < i < keys.len(),
        first_least(keys.take(i), best),
    ensures
        rank_key(keys[i], keys[best]) == Rank::Less ==> first_least(keys.take(i + 1), i),
        rank_key(keys[i], keys[best]) != Rank::Less ==> first_least(keys.take(i + 1), best),
{
    let t = keys.take(i);
    let u = keys.take(i + 1);
    lemma_rank_key_flip(keys[best], keys[i]);
    lemma_rank_key_equal(keys[i], keys[i]);
    if rank_key(keys[i], keys[best]) == Rank::Less {
        assert forall|j: int| 0 <= j < i implies rank_key(u[i], #[trigger] u[j]) == Rank::Less by {
            assert(rank_key(t[best], t[j]) != Rank::Greater);
            lemma_rank_key_trans(keys[i], keys[best], keys[j]);
        }
        assert(first_least(u, i));
    } else {
        assert forall|j: int| 0 <= j < u.len() implies rank_key(u[best], #[trigger] u[j])
            != Rank::Greater by {
            if j < i {
                assert(rank_key(t[best], t[j]) != Rank::Greater);
            }
        }
        assert forall|j: int| 0 <= j < best implies rank_key(u[best], #[trigger] u[j])
            == Rank::Less by {
            assert(rank_key(t[best], t[j]) == Rank::Less);
        }
        assert(first_least(u, best));
    }
}

/// Only one position is the first with the smallest key.
pub proof fn lemma_first_least_unique(keys: Seq<Seq<Seq<int>>>, j: int, k: int)
    requires
        first_least(keys, j),
        first_least(keys, k),
    ensures
        j == k,
{
    if j < k {
        assert(rank_key(keys[k], keys[j]) == Rank::Less);
        assert(rank_key(keys[j], keys[k]) != Rank::Greater);
        lemma_rank_key_flip(keys[j], keys[k]);
    }
    if k < j {
        assert(rank_key(keys[j], keys[k]) == Rank::Less);
        assert(rank_key(keys[k], keys[j]) != Rank::Greater);
        lemma_rank_key_flip(keys[j], keys[k]);
    }
}

/// The first difference decides between two words, and of two words of which one
/// begins the other the shorter one comes first.
pub proof fn lemma_word_order(common: Seq<int>, x: int, y: int, r: Seq<int>, s: Seq<int>)
    ensures
        x < y ==> rank_word(common + seq![x] + r, common + seq![y] + s) == Rank::Less,
        x > y ==> rank_word(common + seq![x] + r, common + seq![y] + s) == Rank::Greater,
        s.len() > 0 ==> rank_word(common, common + s) == Rank::Less,
        s.len() > 0 ==> rank_word(common + s, common) == Rank::Greater,
    decreases common.len(),
{
    let a = common + seq![x] + r;
    let b = common + seq![y] + s;
    let c = common + s;
    if common.len() == 0 {
        assert(a[0] == x && b[0] == y);
        assert(c =~= s);
    } else {
        let rest = common.skip(1);
        lemma_word_order(rest, x, y, r, s);
        assert(a.skip(1) =~= rest + seq![x] + r);
        assert(b.skip(1) =~= rest + seq![y] + s);
        assert(c.skip(1) =~= rest + s);
        assert(a[0] == common[0] && b[0] == common[0] && c[0] == common[0]);
    }
}

/// The first word that differs decides between two keys, and of two keys of
/// which one begins the other the shorter one comes first.
pub proof fn lemma_key_order(
    common: Seq<Seq<int>>,
    x: Seq<int>,
    y: Seq<int>,
    r: Seq<Seq<int>>,
    s: Seq<Seq<int>>,
)
    ensures
        x != y ==> rank_key(common + seq![x] + r, common + seq![y] + s) == rank_word(x, y),
        s.len() > 0 ==> rank_key(common, common + s) == Rank::Less,
    decreases common.len(),
{
    let a = common + seq![x] + r;
    let b = common + seq![y] + s;
    let c = common + s;
    if common.len() == 0 {
        assert(a[0] == x && b[0] == y);
        assert(c =~= s);
        lemma_rank_word_equal(x, y);
    } else {
        let rest = common.skip(1);
        lemma_key_order(rest, x, y, r, s);
        lemma_rank_word_equal(common[0], common[0]);
        assert(a.skip(1) =~= rest + seq![x] + r);
        assert(b.skip(1) =~= rest + seq![y] + s);
        assert(c.skip(1) =~= rest + s);
        assert(a[0] == common[0] && b[0] == common[0] && c[0] == common[0]);
    }
}

/// In a sorted list nothing comes before what stands earlier.
pub proof fn lemma_sorted_in_order<T>(
    items: Seq<T>,
    keys: Seq<Seq<Seq<int>>>,
    key: spec_fn(T) -> Seq<Seq<int>>,
    out: Seq<T>,
    i: int,
    j: int,
)
    requires
        stable_sorted(items, keys, out),
        items.len() <= usize::MAX,
        keys == items.map_values(key),
        0 <= i < j < out.len(),
    ensures
        rank_key(key(out[j]), key(out[i])) != Rank::Less,
{
    let p = choose|p: Seq<usize>|
        #[trigger] sorts(keys, upto(items.len()), p) && out == pick(items, p);
    lemma_permutation(items.len(), p);
    assert(goes_before(keys, p[i], p[j]));
    assert(p[i] < items.len() && p[j] < items.len());
    assert(keys[p[i] as int] == key(out[i]));
    assert(keys[p[j] as int] == key(out[j]));
    lemma_rank_key_flip(key(out[i]), key(out[j]));
}

/// Sorting is stable: what has the same key stays in its order.
pub proof fn lemma_sort_is_stable(
    keys: Seq<Seq<Seq<int>>>,
    idxs: Seq<usize>,
    p: Seq<usize>,
    a: int,
    b: int,
)
    requires
        sorts(keys, idxs, p),
        0 <= a <= b < p.len(),
        keys[p[a] as int] == keys[p[b] as int],
    ensures
        p[a] <= p[b],
{
    assert(goes_before(keys, p[a], p[b]));
    lemma_rank_key_equal(keys[p[a] as int], keys[p[b] as int]);
}

} // verus!
