//! Perceptual fingerprints and how alike they are.

use crate::accuracy;
use crate::binary64;
use crate::binary64::{Binary64, Float};
use vstd::arithmetic::power2::pow2;
use vstd::prelude::*;
use vstd::slice::slice_subrange;

verus! {

/// Width of the grid that a picture is reduced to.
pub const FRAME_W: usize = 9;

/// Height of the grid that a picture is reduced to.
pub const FRAME_H: usize = 8;

/// Number of pixels of the grid.
pub const FRAME_SIZE: usize = 72;

/// In a grid `w` wide, the brightness falls from left to right at the `b`-th
/// pair of neighbours, row by row.
pub open spec fn falls(w: nat, gray: Seq<u8>, b: nat) -> bool {
    let at = (b / (w - 1) as nat) * w + b % (w - 1) as nat;
    gray[at as int] > gray[at as int + 1]
}

/// The hash of the first `n` pairs: bit `b` is set where the brightness falls
/// at pair `b`.
pub open spec fn dhash_pairs(w: nat, gray: Seq<u8>, n: nat) -> u64
    decreases n,
{
    if n == 0 {
        0
    } else {
        let b = (n - 1) as nat;
        if falls(w, gray, b) {
            dhash_pairs(w, gray, b) | (1u64 << (b as u64))
        } else {
            dhash_pairs(w, gray, b)
        }
    }
}

/// How many pairs of neighbours a grid has, as far as the hash has bits.
pub open spec fn pair_count(w: nat, h: nat) -> nat {
    if w <= 1 {
        0
    } else if h * (w - 1) < 64 {
        (h * (w - 1)) as nat
    } else {
        64
    }
}

/// The difference hash of a grid.
pub open spec fn dhash_of(w: nat, h: nat, gray: Seq<u8>) -> u64 {
    dhash_pairs(w, gray, pair_count(w, h))
}

/// 64-bit difference hash: for each row, compare the horizontally-adjacent
/// pixel pairs. Only the *relative* brightness order is kept, so the hash is
/// robust to re-encoding, format changes and slight exposure differences.
pub fn dhash_gray(w: usize, h: usize, gray: &[u8]) -> (hash: u64)
    requires
        w * h <= gray@.len(),
    ensures
        hash == dhash_of(w as nat, h as nat, gray@),
{
    let mut hash: u64 = 0;
    if w <= 1 {
        return hash;
    }
    let ghost pairs = h * (w - 1);
    let mut bit: usize = 0;
    let mut x: usize = 0;
    let mut y: usize = 0;
    proof {
        assert(gray.len() == gray@.len());
        assert(0 * (w - 1) == 0) by (nonlinear_arith);
    }
    while bit < 64 && y < h
        invariant
            w > 1,
            w * h <= gray@.len() <= usize::MAX,
            pairs == h * (w - 1),
            0 <= bit <= 64,
            0 <= x < w - 1,
            0 <= y <= h,
            y == h ==> x == 0,
            bit == y * (w - 1) + x,
            bit <= pairs,
            hash == dhash_pairs(w as nat, gray@, bit as nat),
        decreases 64 - bit,
    {
        proof {
            let a = w as int;
            let b = h as int;
            let c = y as int;
            assert(c * a + a <= a * b) by (nonlinear_arith)
                requires
                    c + 1 <= b,
                    a > 0,
            ;
            assert(0 <= c * a) by (nonlinear_arith)
                requires
                    c >= 0,
                    a > 0,
            ;
            assert(c * (a - 1) + (a - 1) <= b * (a - 1)) by (nonlinear_arith)
                requires
                    c + 1 <= b,
                    a > 1,
            ;
            assert((c + 1) * (a - 1) == c * (a - 1) + (a - 1)) by (nonlinear_arith);
            let n = bit as int;
            vstd::arithmetic::div_mod::lemma_fundamental_div_mod_converse(
                n,
                a - 1,
                c,
                x as int,
            );
            assert(1u64 << (bit as u64) == 1u64 << bit);
        }
        let row: usize = y * w;
        if gray[row + x] > gray[row + x + 1] {
            hash = hash | (1u64 << bit);
        }
        bit = bit + 1;
        x = x + 1;
        if x == w - 1 {
            x = 0;
            y = y + 1;
        }
    }
    hash
}

/// Bit `b` of a number.
pub open spec fn bit_of(x: u64, b: u64) -> bool {
    x & (1u64 << b) != 0
}

/// Bit `b` of the hash tells whether the brightness falls at pair `b`.
pub proof fn lemma_dhash_bits(w: nat, gray: Seq<u8>, n: nat, b: u64)
    requires
        n <= 64,
        b < 64,
    ensures
        bit_of(dhash_pairs(w, gray, n), b) <==> b < n && falls(w, gray, b as nat),
    decreases n,
{
    if n == 0 {
        assert(0u64 & (1u64 << b) == 0) by (bit_vector);
    } else {
        let c = (n - 1) as u64;
        lemma_dhash_bits(w, gray, c as nat, b);
        let x = dhash_pairs(w, gray, c as nat);
        if b == c {
            assert((x | (1u64 << c)) & (1u64 << c) != 0) by (bit_vector)
                requires
                    c < 64,
            ;
        } else {
            assert((x | (1u64 << c)) & (1u64 << b) == x & (1u64 << b)) by (bit_vector)
                requires
                    b < 64,
                    c < 64,
                    b != c,
            ;
        }
    }
}

/// Each pair of neighbours has a bit of its own in the hash, counted row by
/// row: the bit is one where the left pixel of the pair is brighter than the
/// right one, and zero where the right one is as bright or brighter.
pub proof fn lemma_dhash_pixels(w: nat, h: nat, gray: Seq<u8>, x: nat, y: nat)
    requires
        w * h <= gray.len(),
        x + 1 < w,
        y < h,
        y * (w - 1) + x < 64,
    ensures
        (dhash_of(w, h, gray) >> ((y * (w - 1) + x) as u64)) & 1 == (if gray[(y * w + x) as int]
            > gray[(y * w + x + 1) as int] {
            1u64
        } else {
            0u64
        }),
{
    let m = (w - 1) as int;
    let b = (y * (w - 1) + x) as int;
    assert(0 <= y * m + x && y * m + x < h * m) by (nonlinear_arith)
        requires
            y < h,
            0 <= x < m,
    ;
    vstd::arithmetic::div_mod::lemma_fundamental_div_mod_converse(b, m, y as int, x as int);
    let c = b as u64;
    lemma_dhash_bits(w, gray, pair_count(w, h), c);
    let hash = dhash_of(w, h, gray);
    assert((hash >> c) & 1 == if hash & (1u64 << c) != 0 {
        1u64
    } else {
        0u64
    }) by (bit_vector)
        requires
            c < 64,
    ;
}

/// The bits of the hash that no pair of neighbours stands for are zero.
pub proof fn lemma_dhash_spare_bits(w: nat, h: nat, gray: Seq<u8>, b: u64)
    requires
        b < 64,
        w <= 1 || h * (w - 1) <= b,
    ensures
        (dhash_of(w, h, gray) >> b) & 1 == 0,
{
    lemma_dhash_bits(w, gray, pair_count(w, h), b);
    let hash = dhash_of(w, h, gray);
    assert((hash >> b) & 1 == 0) by (bit_vector)
        requires
            b < 64,
            hash & (1u64 << b) == 0,
    ;
}

/// Two grids in which brightness falls at the same pairs have the same hash:
/// only the relative order of neighbours counts.
pub proof fn lemma_dhash_relative(w: nat, a: Seq<u8>, b: Seq<u8>, n: nat)
    requires
        forall|k: nat| k < n ==> #[trigger] falls(w, a, k) == falls(w, b, k),
    ensures
        dhash_pairs(w, a, n) == dhash_pairs(w, b, n),
    decreases n,
{
    if n > 0 {
        lemma_dhash_relative(w, a, b, (n - 1) as nat);
        assert(falls(w, a, (n - 1) as nat) == falls(w, b, (n - 1) as nat));
    }
}

/// A change of exposure that keeps the order of all brightness values keeps
/// the hash.
pub proof fn lemma_dhash_exposure(w: nat, h: nat, gray: Seq<u8>, curve: spec_fn(u8) -> u8)
    requires
        w * h <= gray.len(),
        forall|p: u8, q: u8| p < q ==> #[trigger] curve(p) < #[trigger] curve(q),
    ensures
        dhash_of(w, h, gray.map_values(curve)) == dhash_of(w, h, gray),
{
    let other = gray.map_values(curve);
    let n = pair_count(w, h);
    assert forall|k: nat| k < n implies #[trigger] falls(w, gray, k) == falls(w, other, k) by {
        let m = (w - 1) as nat;
        let y = k / m;
        let x = k % m;
        vstd::arithmetic::div_mod::lemma_fundamental_div_mod(k as int, m as int);
        vstd::arithmetic::div_mod::lemma_mod_bound(k as int, m as int);
        assert(0 <= y < h) by (nonlinear_arith)
            requires
                k == m * y + x,
                0 <= x < m,
                k < h * m,
                k >= 0,
        ;
        assert(0 <= y * w + x && y * w + x + 1 < w * h) by (nonlinear_arith)
            requires
                0 <= y < h,
                0 <= x < m,
                m == w - 1,
        ;
        let at = (y * w + x) as int;
        let p = gray[at];
        let q = gray[at + 1];
        assert(other[at] == curve(p));
        assert(other[at + 1] == curve(q));
        assert(p < q ==> curve(p) < curve(q));
        assert(q < p ==> curve(q) < curve(p));
    }
    lemma_dhash_relative(w, gray, other, n);
}

/// How many ones a number has in binary.
pub open spec fn ones(x: nat) -> nat
    decreases x,
{
    if x == 0 {
        0
    } else {
        x % 2 + ones(x / 2)
    }
}

/// A number below `2^k` has at most `k` ones.
proof fn lemma_ones_bound(x: nat, k: nat)
    requires
        x < vstd::arithmetic::power2::pow2(k),
    ensures
        ones(x) <= k,
    decreases k,
{
    if x > 0 {
        if k == 0 {
            vstd::arithmetic::power2::lemma2_to64();
        } else {
            vstd::arithmetic::power2::lemma_pow2_unfold(k);
            lemma_ones_bound(x / 2, (k - 1) as nat);
        }
    }
}

/// How many of 64 bits two hashes have in common.
pub open spec fn common_bits(a: u64, b: u64) -> nat {
    (64 - ones((a ^ b) as nat)) as nat
}

proof fn lemma_common_bits(a: u64, b: u64)
    ensures
        ones((a ^ b) as nat) <= 64,
        common_bits(a, b) <= 64,
{
    vstd::arithmetic::power2::lemma2_to64();
    lemma_ones_bound((a ^ b) as nat, 64);
}

/// Counts the bits that two hashes have in common.
pub fn shared_bits(a: u64, b: u64) -> (n: u64)
    ensures
        n == common_bits(a, b),
        n <= 64,
{
    proof {
        lemma_common_bits(a, b);
    }
    let mut x: u64 = a ^ b;
    let mut n: u64 = 64;
    let ghost start = a ^ b;
    while x > 0
        invariant
            n - ones(x as nat) == 64 - ones(start as nat),
            ones(start as nat) <= 64,
            n <= 64,
        decreases x,
    {
        n = n - x % 2;
        x = x / 2;
    }
    n
}

/// The fraction of bits that two hashes have in common.
pub open spec fn likeness(a: u64, b: u64) -> Float {
    binary64::nearest(common_bits(a, b), 64)
}

/// Fraction of identical bits between two 64-bit hashes (0..=1).
pub fn hash_similarity(a: u64, b: u64) -> (r: Binary64)
    ensures
        r@ == likeness(a, b),
        r.moderate(),
{
    Binary64::ratio(shared_bits(a, b), 64)
}

/// Only zero has no ones.
proof fn lemma_ones_zero(x: nat)
    ensures
        ones(x) == 0 <==> x == 0,
    decreases x,
{
    if x > 0 {
        lemma_ones_zero(x / 2);
    }
}

/// Two hashes are as alike in one order as in the other, and at most one; they
/// have all bits in common exactly when they are the same, and are then alike
/// by exactly one.
pub proof fn lemma_likeness(a: u64, b: u64)
    ensures
        likeness(a, b) == likeness(b, a),
        common_bits(a, b) == 64 <==> a == b,
        common_bits(a, b) <= 64,
        likeness(a, a) == binary64::float_one(),
        binary64::float_ge(binary64::float_one(), likeness(a, b)),
{
    lemma_common_bits(a, a);
    lemma_common_bits(a, b);
    assert(a ^ a == 0) by (bit_vector);
    lemma_ones_zero((a ^ a) as nat);
    binary64::lemma_nearest_scaled(1, 1, 64);
    binary64::lemma_one();
    binary64::lemma_nearest_grows(common_bits(a, b), 64, 64);
    assert(a ^ b == b ^ a) by (bit_vector);
    lemma_ones_zero((a ^ b) as nat);
    assert((a ^ b) == 0 <==> a == b) by (bit_vector);
}

/// The most bits that a hash has in common with one of those at `lo..hi`.
pub open spec fn best_match(hash: u64, b: Seq<u64>, lo: int, hi: int) -> nat
    decreases hi - lo,
{
    if lo >= hi {
        0
    } else {
        let rest = best_match(hash, b, lo, hi - 1);
        let last = common_bits(hash, b[hi - 1]);
        if last > rest {
            last
        } else {
            rest
        }
    }
}

/// The first position of a window around `i`.
pub open spec fn window_start(i: int, window: nat) -> int {
    if i > window {
        i - window
    } else {
        0
    }
}

/// The position behind a window around `i`, in a list of `n`.
pub open spec fn window_end(i: int, window: nat, n: nat) -> int {
    if i + window + 1 < n {
        i + window + 1
    } else {
        n as int
    }
}

/// The best matches of the first `n` hashes of `a` near their positions in
/// `b`, added up.
pub open spec fn match_total(a: Seq<u64>, b: Seq<u64>, window: nat, n: nat) -> nat
    decreases n,
{
    if n == 0 {
        0
    } else {
        let i = n - 1;
        match_total(a, b, window, i as nat) + best_match(
            a[i],
            b,
            window_start(i, window),
            window_end(i, window, b.len()),
        )
    }
}

/// The mean over `a`'s hashes of the best match near the same position in `b`.
pub open spec fn sequence_likeness(a: Seq<u64>, b: Seq<u64>, window: nat) -> Float {
    if a.len() == 0 || b.len() == 0 {
        binary64::float_zero()
    } else {
        binary64::float_div(
            binary64::nearest(match_total(a, b, window, a.len()), 64),
            binary64::nearest(a.len(), 1),
        )
    }
}

/// The windows of all positions of a list of `m` lie within, or end at the end
/// of, a list of `n`.
pub open spec fn windows_meet(m: nat, n: nat, window: nat) -> bool {
    m == 0 || n == 0 || m <= n + window + 1
}

proof fn lemma_best_bound(hash: u64, b: Seq<u64>, lo: int, hi: int)
    ensures
        best_match(hash, b, lo, hi) <= 64,
    decreases hi - lo,
{
    if lo < hi {
        lemma_best_bound(hash, b, lo, hi - 1);
        lemma_common_bits(hash, b[hi - 1]);
    }
}

proof fn lemma_total_bound(a: Seq<u64>, b: Seq<u64>, window: nat, n: nat)
    ensures
        match_total(a, b, window, n) <= 64 * n,
    decreases n,
{
    if n > 0 {
        lemma_total_bound(a, b, window, (n - 1) as nat);
        lemma_best_bound(
            a[n - 1],
            b,
            window_start(n - 1, window),
            window_end(n - 1, window, b.len()),
        );
    }
}

/// Mean over `a`'s frames of the best similarity found inside a ±`window`
/// neighborhood of `b`; a frame whose neighborhood lies past the end of `b` has
/// none.
pub(crate) fn mean_of_best(a: &Vec<u64>, b: &Vec<u64>, window: usize) -> (r: Binary64)
    requires
        a@.len() + window <= usize::MAX,
        a@.len() <= 0x1000_0000_0000,
    ensures
        r@ == sequence_likeness(a@, b@, window as nat),
        r.moderate(),
{
    if a.len() == 0 || b.len() == 0 {
        return Binary64 { mant: 0, exp: 0 };
    }
    let mut total: u64 = 0;
    let mut i: usize = 0;
    while i < a.len()
        invariant
            0 <= i <= a@.len(),
            b@.len() > 0,
            a@.len() + window <= usize::MAX,
            a@.len() <= 0x1000_0000_0000,
            total == match_total(a@, b@, window as nat, i as nat),
        decreases a@.len() - i,
    {
        proof {
            lemma_total_bound(a@, b@, window as nat, (i + 1) as nat);
        }
        let lo: usize = if i > window {
            i - window
        } else {
            0
        };
        let end: usize = if i + window + 1 < b.len() {
            i + window + 1
        } else {
            b.len()
        };
        let mut best: u64 = 0;
        let mut k: usize = lo;
        while k < end
            invariant
                i < a@.len(),
                lo <= k,
                k <= end || k == lo,
                end <= b@.len(),
                best == best_match(a@[i as int], b@, lo as int, k as int),
            decreases end - k,
        {
            let n = shared_bits(a[i], b[k]);
            if n > best {
                best = n;
            }
            k = k + 1;
        }
        total = total + best;
        i = i + 1;
    }
    let n = Binary64::from_u64(a.len() as u64);
    Binary64::ratio(total, 64).div(n)
}

/// Mean over `a`'s frames of the best similarity found inside a ±`window`
/// neighborhood of `b`: tolerates small temporal drift between encodings.
/// Lists longer than any address space holds are left out.
pub fn frame_seq_similarity(a: &Vec<u64>, b: &Vec<u64>, window: usize) -> (r: Binary64)
    requires
        windows_meet(a@.len(), b@.len(), window as nat),
        a@.len() + window <= usize::MAX,
        a@.len() <= 0x1000_0000_0000,
    ensures
        r@ == sequence_likeness(a@, b@, window as nat),
        r.moderate(),
{
    mean_of_best(a, b, window)
}

/// A list that is compared with itself is alike by exactly one.
pub proof fn lemma_sequence_itself(a: Seq<u64>, window: nat)
    requires
        a.len() > 0,
    ensures
        sequence_likeness(a, a, window) == binary64::float_one(),
{
    lemma_same_sequence(a, window, a.len());
    binary64::lemma_nearest_scaled(a.len(), 1, 64);
    binary64::lemma_outer(a.len(), 1);
    binary64::lemma_nearest_range(a.len(), 1, -1, a.len() as int);
    binary64::lemma_div_self(binary64::nearest(a.len(), 1));
}

/// Two lists are alike by at most one.
pub proof fn lemma_sequence_range(a: Seq<u64>, b: Seq<u64>, window: nat)
    ensures
        binary64::float_ge(binary64::float_one(), sequence_likeness(a, b, window)),
{
    if a.len() == 0 || b.len() == 0 {
        binary64::lemma_nearest_grows(0, 1, 1);
        binary64::lemma_one();
    } else {
        let n = a.len();
        let total = match_total(a, b, window, n);
        lemma_total_bound(a, b, window, n);
        binary64::lemma_nearest_scaled(n, 1, 64);
        binary64::lemma_nearest_grows(total, 64 * n, 64);
        binary64::lemma_outer(n, 1);
        binary64::lemma_nearest_range(n, 1, -1, n as int);
        if total > 0 {
            binary64::lemma_outer(total, 64);
            binary64::lemma_nearest_range(total, 64, -64, total as int);
        }
        binary64::lemma_div_at_most_one(
            binary64::nearest(total, 64),
            binary64::nearest(n, 1),
        );
    }
}

/// A list that is compared with itself matches in full.
pub proof fn lemma_same_sequence(a: Seq<u64>, window: nat, n: nat)
    requires
        n <= a.len(),
    ensures
        match_total(a, a, window, n) == 64 * n,
    decreases n,
{
    if n > 0 {
        lemma_same_sequence(a, window, (n - 1) as nat);
        let i = n - 1;
        lemma_best_at(a[i], a, window_start(i, window), window_end(i, window, a.len()), i);
        lemma_best_bound(a[i], a, window_start(i, window), window_end(i, window, a.len()));
        lemma_likeness(a[i], a[i]);
    }
}

/// The best match is at least as good as each.
proof fn lemma_best_at(hash: u64, b: Seq<u64>, lo: int, hi: int, k: int)
    requires
        lo <= k < hi,
    ensures
        best_match(hash, b, lo, hi) >= common_bits(hash, b[k]),
    decreases hi - lo,
{
    if k < hi - 1 {
        lemma_best_at(hash, b, lo, hi - 1, k);
    }
}

/// The frames of a raw video: whole grids, one after the other.
pub open spec fn frames_in(raw: Seq<u8>) -> Seq<u64> {
    Seq::new(
        raw.len() / 72,
        |i: int| dhash_of(9, 8, raw.subrange(72 * i, 72 * i + 72)),
    )
}

/// Hashes the frames of a raw video; what is left of an incomplete frame is
/// dropped.
pub fn frame_hashes(raw: &[u8]) -> (out: Vec<u64>)
    ensures
        out@ == frames_in(raw@),
{
    let mut out: Vec<u64> = Vec::new();
    let n = raw.len();
    let count: usize = n / FRAME_SIZE;
    let mut i: usize = 0;
    while i < count
        invariant
            n == raw@.len(),
            count == n / 72,
            0 <= i <= count,
            out@.len() == i,
            forall|j: int| 0 <= j < i ==> #[trigger] out@[j] == frames_in(raw@)[j],
        decreases count - i,
    {
        let lo: usize = i * FRAME_SIZE;
        let frame = slice_subrange(raw, lo, lo + FRAME_SIZE);
        out.push(dhash_gray(FRAME_W, FRAME_H, frame));
        i = i + 1;
    }
    assert(out@ =~= frames_in(raw@));
    out
}

proof fn lemma_best_grows(hash: u64, b: Seq<u64>, lo: int, hi: int, from: int, to: int)
    requires
        from <= lo,
        hi <= to,
    ensures
        best_match(hash, b, lo, hi) <= best_match(hash, b, from, to),
    decreases to - from,
{
    if lo < hi {
        if hi < to {
            lemma_best_grows(hash, b, lo, hi, from, to - 1);
        } else {
            lemma_best_grows(hash, b, lo, hi - 1, from, to - 1);
        }
    }
}

proof fn lemma_total_grows(a: Seq<u64>, b: Seq<u64>, window: nat, wider: nat, n: nat)
    requires
        window <= wider,
    ensures
        match_total(a, b, window, n) <= match_total(a, b, wider, n),
    decreases n,
{
    if n > 0 {
        lemma_total_grows(a, b, window, wider, (n - 1) as nat);
        lemma_best_grows(
            a[n - 1],
            b,
            window_start(n - 1, window),
            window_end(n - 1, window, b.len()),
            window_start(n - 1, wider),
            window_end(n - 1, wider, b.len()),
        );
    }
}

/// A wider window never makes two lists less alike.
pub proof fn lemma_wider_window(a: Seq<u64>, b: Seq<u64>, window: nat, wider: nat)
    requires
        window <= wider,
    ensures
        binary64::float_ge(sequence_likeness(a, b, wider), sequence_likeness(a, b, window)),
{
    if a.len() == 0 || b.len() == 0 {
        binary64::lemma_compare(binary64::float_zero(), binary64::float_zero());
    } else {
        let few = match_total(a, b, window, a.len());
        let more = match_total(a, b, wider, a.len());
        lemma_total_grows(a, b, window, wider, a.len());
        binary64::lemma_nearest_grows(few, more, 64);
        lemma_rounded(few);
        lemma_rounded(more);
        binary64::lemma_outer(a.len(), 1);
        binary64::lemma_nearest_range(a.len(), 1, -1, a.len() as int);
        binary64::lemma_div_grows(
            binary64::nearest(few, 64),
            binary64::nearest(more, 64),
            binary64::nearest(a.len(), 1),
        );
    }
}

/// A rounded number of shared bits is a number that can be compared.
proof fn lemma_rounded(n: nat)
    ensures
        binary64::nearest(n, 64).normal(),
{
    if n > 0 {
        binary64::lemma_outer(n, 64);
        binary64::lemma_nearest_range(n, 64, -64, n as int);
    }
}

/// Changing one bit of a number changes the number of its ones by one.
proof fn lemma_ones_flip(x: u64, k: u64)
    requires
        k < 64,
    ensures
        ones((x ^ (1u64 << k)) as nat) == ones(x as nat) + (if (x >> k) & 1 == 0 {
            1int
        } else {
            -1int
        }),
    decreases k,
{
    let y = x ^ (1u64 << k);
    if k == 0 {
        assert(y % 2 == 1 - x % 2 && y / 2 == x / 2 && (x >> k) & 1 == x % 2) by (bit_vector)
            requires
                y == x ^ (1u64 << k),
                k == 0,
        ;
    } else {
        let j = (k - 1) as u64;
        let half = x / 2;
        assert(y % 2 == x % 2 && y / 2 == half ^ (1u64 << j) && (x >> k) & 1 == (half >> j) & 1)
            by (bit_vector)
            requires
                y == x ^ (1u64 << k),
                half == x / 2,
                j == k - 1,
                0 < k < 64,
        ;
        lemma_ones_flip(half, j);
    }
    lemma_ones_step(x as nat);
    lemma_ones_step(y as nat);
}

proof fn lemma_ones_step(x: nat)
    ensures
        ones(x) == x % 2 + ones(x / 2),
{
    if x == 0 {
        assert(ones(0) == 0);
    }
}

/// Every bit counts the same: changing a bit that two hashes have in common
/// leaves them one bit less in common, and changing one in which they differ
/// gives them one more.
pub proof fn lemma_bit_counts(a: u64, b: u64, k: u64)
    requires
        k < 64,
    ensures
        (a >> k) & 1 == (b >> k) & 1 ==> common_bits(a ^ (1u64 << k), b) == common_bits(a, b) - 1,
        (a >> k) & 1 != (b >> k) & 1 ==> common_bits(a ^ (1u64 << k), b) == common_bits(a, b) + 1,
{
    let x = a ^ b;
    let c = a ^ (1u64 << k);
    assert(c ^ b == x ^ (1u64 << k) && ((x >> k) & 1 == 0 <==> (a >> k) & 1 == (b >> k) & 1))
        by (bit_vector)
        requires
            x == a ^ b,
            c == a ^ (1u64 << k),
            k < 64,
    ;
    lemma_ones_flip(x, k);
    lemma_common_bits(a, b);
    lemma_common_bits(c, b);
}

/// Two hashes are alike by the number of bits that they have in common, divided
/// by sixty-four, exactly.
pub proof fn lemma_likeness_value(a: u64, b: u64)
    ensures
        likeness(a, b).above() * 64 == common_bits(a, b) * likeness(a, b).below(),
        likeness(a, b).below() > 0,
{
    let c = common_bits(a, b);
    lemma_common_bits(a, b);
    let x = likeness(a, b);
    vstd::arithmetic::power2::lemma2_to64();
    if c == 0 {
        assert(x == binary64::float_zero());
    } else {
        accuracy::lemma_small(c, 58);
        accuracy::lemma_small(c, 64);
        let y = binary64::nearest(c, 1);
        let z = Float { mant: y.mant, exp: y.exp - 6 };
        assert(accuracy::units(z, 64) == accuracy::units(y, 58));
        vstd::arithmetic::power2::lemma_pow2_adds(58, 6);
        let p58 = pow2(58);
        let p64 = pow2(64);
        assert((c * p58) * 64 == c * p64) by (nonlinear_arith)
            requires
                p64 == p58 * 64,
        ;
        accuracy::lemma_exact(c, 64, z, 64);
        accuracy::lemma_units_fraction(x, 64);
        let u = accuracy::units(x, 64);
        let above = x.above();
        let below = x.below();
        assert(above * 64 == c * below) by (nonlinear_arith)
            requires
                u * 64 == c * p64,
                u * below == above * p64,
                p64 > 0,
        {
            assert((above * p64) * 64 == (u * 64) * below);
            assert((c * p64) * below == (c * below) * p64);
            assert((above * 64) * p64 == (c * below) * p64);
        }
    }
}

/// The best match is one of those in the window, and none there is better.
proof fn lemma_best_is(hash: u64, b: Seq<u64>, lo: int, hi: int)
    ensures
        forall|k: int| lo <= k < hi ==> common_bits(hash, #[trigger] b[k]) <= best_match(
            hash,
            b,
            lo,
            hi,
        ),
        lo < hi ==> exists|k: int|
            lo <= k < hi && common_bits(hash, #[trigger] b[k]) == best_match(hash, b, lo, hi),
        lo >= hi ==> best_match(hash, b, lo, hi) == 0,
    decreases hi - lo,
{
    if lo < hi {
        lemma_best_is(hash, b, lo, hi - 1);
        let last = common_bits(hash, b[hi - 1]);
        let rest = best_match(hash, b, lo, hi - 1);
        if last > rest || lo == hi - 1 {
            assert(common_bits(hash, b[hi - 1]) == last);
            assert(last >= rest);
        } else {
            let k = choose|k: int|
                lo <= k < hi - 1 && common_bits(hash, #[trigger] b[k]) == rest;
            assert(common_bits(hash, b[k]) == best_match(hash, b, lo, hi));
        }
    }
}

/// Each frame adds the most bits that it has in common with a frame of the
/// other list at most `window` places away, and nothing where there is none.
pub proof fn lemma_frame_adds(a: Seq<u64>, b: Seq<u64>, window: nat, i: nat)
    ensures
        match_total(a, b, window, 0) == 0,
        forall|k: int|
            0 <= k < b.len() && i - window <= k <= i + window ==> match_total(a, b, window, i + 1)
                >= match_total(a, b, window, i) + common_bits(a[i as int], #[trigger] b[k]),
        (exists|k: int|
            0 <= k < b.len() && i - window <= k <= i + window && match_total(a, b, window, i + 1)
                == match_total(a, b, window, i) + common_bits(a[i as int], #[trigger] b[k])) || (
        match_total(a, b, window, i + 1) == match_total(a, b, window, i) && (
        b.len() == 0 || i >= b.len() + window)),
{
    let lo = window_start(i as int, window);
    let hi = window_end(i as int, window, b.len());
    lemma_best_is(a[i as int], b, lo, hi);
    let best = best_match(a[i as int], b, lo, hi);
    assert(match_total(a, b, window, i + 1) == match_total(a, b, window, i) + best);
    if lo < hi {
        let k = choose|k: int|
            lo <= k < hi && common_bits(a[i as int], #[trigger] b[k]) == best;
        assert(common_bits(a[i as int], b[k]) == best);
    }
}

/// Two lists are alike by the mean of what the frames of the first add, each of
/// sixty-four bits, up to rounding; without frames on either side, not at all.
pub proof fn lemma_sequence_value(a: Seq<u64>, b: Seq<u64>, window: nat)
    requires
        a.len() < binary64::MANT_HIGH,
    ensures
        a.len() == 0 || b.len() == 0 ==> sequence_likeness(a, b, window).above() == 0,
        a.len() > 0 && b.len() > 0 ==> accuracy::close(
            64 * a.len() * sequence_likeness(a, b, window).above(),
            match_total(a, b, window, a.len()) * sequence_likeness(a, b, window).below(),
        ),
{
    if a.len() > 0 && b.len() > 0 {
        let n = a.len();
        let total = match_total(a, b, window, n);
        let x = binary64::nearest(total, 64);
        let y = binary64::nearest(n, 1);
        let q = binary64::float_div(x, y);
        if total == 0 {
            binary64::lemma_outer(n, 1);
            binary64::lemma_nearest_range(n, 1, -1, n as int);
            assert(x == binary64::float_zero());
            assert(q == binary64::float_zero());
            let below = q.below();
            let c = 64 * n;
            assert(c * 0 == 0 && 0 * below == 0);
            assert(q.above() == 0);
        } else {
            binary64::lemma_outer(total, 64);
            binary64::lemma_nearest_range(total, 64, -64, total as int);
            accuracy::lemma_small(n, 52);
            accuracy::lemma_div(x, y, 300, 52);
            accuracy::lemma_nearest(total, 64, 352);
            let u = accuracy::units(x, 352);
            let v = accuracy::units(y, 52);
            let w = accuracy::units(q, 300);
            let p = pow2(52);
            vstd::arithmetic::power2::lemma_pow2_pos(52);
            vstd::arithmetic::power2::lemma_pow2_adds(300, 52);
            let p3 = pow2(300);
            assert(64 * u == u * 64);
            accuracy::lemma_close_quotient(total * pow2(352), n * p, 64, u, v, w);
            assert(64 * w * (n * p) == (64 * n * w) * p && total * (p3 * p) == (total * p3) * p)
                by (nonlinear_arith);
            accuracy::lemma_close_divide(64 * n * w, total * p3, p);
            accuracy::lemma_close_fraction(q, 300, 64 * n, total);
        }
    }
}

/// Every whole frame of a raw video has a hash, at its place, and each bit of
/// the hash tells which of two neighbouring pixels of that frame is brighter.
pub proof fn lemma_frame_pixels(raw: Seq<u8>, k: nat, x: nat, y: nat)
    requires
        72 * k + 72 <= raw.len(),
        x < 8,
        y < 8,
    ensures
        k < frames_in(raw).len(),
        72 * frames_in(raw).len() <= raw.len() < 72 * frames_in(raw).len() + 72,
        (frames_in(raw)[k as int] >> ((8 * y + x) as u64)) & 1 == (if raw[(72 * k + 9 * y
            + x) as int] > raw[(72 * k + 9 * y + x + 1) as int] {
            1u64
        } else {
            0u64
        }),
{
    let frame = raw.subrange(72 * k as int, 72 * k as int + 72);
    assert(y * (9 - 1) + x == 8 * y + x);
    lemma_dhash_pixels(9, 8, frame, x, y);
    assert(y * 9 == 9 * y);
    assert(frame[(9 * y + x) as int] == raw[(72 * k + 9 * y + x) as int]);
    assert(frame[(9 * y + x + 1) as int] == raw[(72 * k + 9 * y + x + 1) as int]);
}

} // verus!
