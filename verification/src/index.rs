//! A table that finds the positions in a list by the hash of what stands
//! there.

use std::collections::HashMap;
use vstd::prelude::*;

verus! {

broadcast use vstd::std_specs::hash::group_hash_axioms;

/// Positions in a list, to be found by hash. Its view is the list of the
/// hashes, one for each position.
pub struct HashIndex {
    buckets: HashMap<u64, Vec<usize>>,
    hashes: Ghost<Seq<u64>>,
}

impl View for HashIndex {
    type V = Seq<u64>;

    closed spec fn view(&self) -> Seq<u64> {
        self.hashes@
    }
}

/// `found` lists the positions at which `hashes` holds `h`, in ascending
/// order.
pub open spec fn positions_of(hashes: Seq<u64>, h: u64, found: Seq<usize>) -> bool {
    &&& forall|k: int| 0 <= k < found.len() ==> #[trigger] found[k] < hashes.len()
    &&& forall|k: int| 0 <= k < found.len() ==> hashes[#[trigger] found[k] as int] == h
    &&& forall|i: int| 0 <= i < hashes.len() && #[trigger] hashes[i] == h ==> found.contains(i as usize)
    &&& forall|j: int, k: int| 0 <= j < k < found.len() ==> #[trigger] found[j] < #[trigger] found[k]
}

impl HashIndex {
    /// The table agrees with the list of hashes.
    pub closed spec fn well_formed(&self) -> bool {
        &&& forall|i: int|
            0 <= i < self.hashes@.len() ==> self.buckets@.contains_key(#[trigger] self.hashes@[i])
        &&& forall|h: u64| #[trigger]
            self.buckets@.contains_key(h) ==> positions_of(
                self.hashes@,
                h,
                self.buckets@[h]@,
            )
    }

    /// A table without positions.
    pub fn new() -> (r: Self)
        ensures
            r.well_formed(),
            r@ == Seq::<u64>::empty(),
    {
        HashIndex { buckets: HashMap::new(), hashes: Ghost(Seq::empty()) }
    }

    /// The positions that hold `h`, if there are any.
    pub fn lookup(&self, h: u64) -> (r: Option<&Vec<usize>>)
        requires
            self.well_formed(),
        ensures
            match r {
                Some(found) => positions_of(self@, h, found@),
                None => forall|i: int| 0 <= i < self@.len() ==> #[trigger] self@[i] != h,
            },
    {
        self.buckets.get(&h)
    }

    /// Adds the next position, `at`, which holds `h`.
    pub fn add(&mut self, h: u64, at: usize)
        requires
            old(self).well_formed(),
            old(self)@.len() == at,
        ensures
            final(self).well_formed(),
            final(self)@ == old(self)@.push(h),
    {
        let mut bucket = match self.buckets.remove(&h) {
            Some(b) => b,
            None => Vec::new(),
        };
        let ghost before = bucket@;
        bucket.push(at);
        let ghost after = bucket@;
        self.buckets.insert(h, bucket);
        self.hashes = Ghost(self.hashes@.push(h));
        proof {
            let olds = old(self).hashes@;
            let news = self.hashes@;
            assert forall|g: u64| #[trigger] self.buckets@.contains_key(g) implies positions_of(
                news,
                g,
                self.buckets@[g]@,
            ) by {
                if g == h {
                    assert forall|i: int| 0 <= i < news.len() && #[trigger] news[i] == h implies after.contains(
                    i as usize) by {
                        if i < olds.len() {
                            assert(olds[i] == h);
                            assert(before.contains(i as usize));
                            let k = choose|k: int| 0 <= k < before.len() && before[k] == i as usize;
                            assert(after[k] == i as usize);
                        } else {
                            assert(after[after.len() - 1] == at);
                        }
                    }
                } else {
                    assert(old(self).buckets@.contains_key(g));
                    let b = self.buckets@[g]@;
                    assert forall|i: int| 0 <= i < news.len() && #[trigger] news[i] == g implies b.contains(
                    i as usize) by {
                        assert(olds[i] == g);
                    }
                }
            }
            assert forall|i: int| 0 <= i < news.len() implies self.buckets@.contains_key(
                #[trigger] news[i],
            ) by {
                if i < olds.len() {
                    assert(old(self).buckets@.contains_key(olds[i]));
                }
            }
        }
    }
}

/// One step of the hash: a byte is mixed into what came before.
pub open spec fn mix(h: u64, x: u32) -> u64 {
    (h ^ (x as u64)).wrapping_mul(0x100_0000_01b3)
}

/// Mixes one value into a hash.
pub fn mixed(h: u64, x: u32) -> (r: u64)
    ensures
        r == mix(h, x),
{
    (h ^ (x as u64)).wrapping_mul(0x100_0000_01b3)
}

/// The hash of nothing.
pub const HASH_START: u64 = 0xcbf2_9ce4_8422_2325;

/// The hash of a sequence of numbers.
pub open spec fn hash_numbers(s: Seq<int>) -> u64
    decreases s.len(),
{
    if s.len() == 0 {
        HASH_START
    } else {
        mix(hash_numbers(s.drop_last()), s.last() as u32)
    }
}

/// Hashes the characters of a text.
pub fn hash_text(s: &str) -> (h: u64)
    ensures
        h == hash_numbers(s@.map_values(|c: char| c as int)),
{
    let ghost all = s@.map_values(|c: char| c as int);
    let mut h: u64 = HASH_START;
    for c in it: s.chars()
        invariant
            it.seq() == s@,
            all == s@.map_values(|c: char| c as int),
            h == hash_numbers(all.take(it.index())),
    {
        h = mixed(h, c as u32);
        assert(all.take(it.index() + 1).drop_last() =~= all.take(it.index()));
    }
    assert(all.take(s@.len() as int) =~= all);
    h
}

/// The hash `h` after the bytes of `s`.
pub open spec fn hash_bytes(h: u64, s: Seq<u8>) -> u64
    decreases s.len(),
{
    if s.len() == 0 {
        h
    } else {
        mix(hash_bytes(h, s.drop_last()), s.last() as u32)
    }
}

/// Mixes bytes into a hash.
pub fn hash_more(start: u64, s: &Vec<u8>) -> (h: u64)
    ensures
        h == hash_bytes(start, s@),
{
    let mut h: u64 = start;
    let mut i: usize = 0;
    while i < s.len()
        invariant
            0 <= i <= s@.len(),
            h == hash_bytes(start, s@.take(i as int)),
        decreases s@.len() - i,
    {
        h = mixed(h, s[i] as u32);
        i = i + 1;
        assert(s@.take(i as int).drop_last() =~= s@.take(i - 1));
    }
    assert(s@.take(i as int) =~= s@);
    h
}

} // verus!
