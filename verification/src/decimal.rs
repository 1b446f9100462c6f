//! Decimal numerals of any length, rounded to binary numbers.

use crate::accuracy;
use crate::binary64;
use crate::binary64::{Binary64, MANT_HIGH, MANT_LOW};
use vstd::arithmetic::power::pow;
use vstd::arithmetic::power2::pow2;
use vstd::prelude::*;

verus! {

/// Every element is a decimal digit.
pub open spec fn all_digits(s: Seq<u8>) -> bool {
    forall|i: int| 0 <= i < s.len() ==> #[trigger] s[i] <= 9
}

/// The number that a sequence of decimal digits stands for.
pub open spec fn digits_value(s: Seq<u8>) -> nat
    decreases s.len(),
{
    if s.len() == 0 {
        0
    } else {
        digits_value(s.drop_last()) * 10 + s.last() as nat
    }
}

/// The power of ten with exponent `k`.
pub open spec fn ten(k: nat) -> nat {
    pow(10, k) as nat
}

proof fn lemma_ten(k: nat)
    ensures
        ten(0) == 1,
        ten(k + 1) == 10 * ten(k),
        ten(k) > 0,
{
    vstd::arithmetic::power::lemma_pow0(10);
    vstd::arithmetic::power::lemma_pow_adds(10, k, 1);
    vstd::arithmetic::power::lemma_pow1(10);
    vstd::arithmetic::power::lemma_pow_positive(10, k);
    vstd::arithmetic::power::lemma_pow_positive(10, k + 1);
}

proof fn lemma_ten_adds(a: nat, b: nat)
    ensures
        ten(a + b) == ten(a) * ten(b),
{
    vstd::arithmetic::power::lemma_pow_adds(10, a, b);
    vstd::arithmetic::power::lemma_pow_positive(10, a);
    vstd::arithmetic::power::lemma_pow_positive(10, b);
    vstd::arithmetic::power::lemma_pow_positive(10, a + b);
}

/// A digit in front counts as many times as there are numbers with the digits
/// behind it.
proof fn lemma_value_front(d: u8, s: Seq<u8>)
    ensures
        digits_value(seq![d] + s) == d * ten(s.len()) + digits_value(s),
    decreases s.len(),
{
    lemma_ten(0);
    let t = seq![d] + s;
    if s.len() == 0 {
        assert(t.drop_last() =~= Seq::<u8>::empty());
        assert(t.last() == d);
        assert(digits_value(t) == d) by {
            reveal_with_fuel(digits_value, 2);
        }
        let k = ten(0);
        assert(d * k == d) by (nonlinear_arith)
            requires
                k == 1,
        ;
        assert(s =~= Seq::<u8>::empty());
    } else {
        assert(t.drop_last() =~= seq![d] + s.drop_last());
        assert(t.last() == s.last());
        lemma_value_front(d, s.drop_last());
        lemma_ten((s.len() - 1) as nat);
        let p = ten((s.len() - 1) as nat);
        let v = digits_value(s.drop_last());
        let x = d as int;
        assert((x * p + v) * 10 == x * (10 * p) + v * 10) by (nonlinear_arith);
    }
}

/// Digits behind digits: the value of the whole from that of the two parts.
pub proof fn lemma_value_append(a: Seq<u8>, b: Seq<u8>)
    ensures
        digits_value(a + b) == digits_value(a) * ten(b.len()) + digits_value(b),
    decreases b.len(),
{
    lemma_ten(0);
    if b.len() == 0 {
        assert(a + b =~= a);
        let v = digits_value(a);
        let k = ten(0);
        assert(v * k == v) by (nonlinear_arith)
            requires
                k == 1,
        ;
    } else {
        assert((a + b).drop_last() =~= a + b.drop_last());
        assert((a + b).last() == b.last());
        lemma_value_append(a, b.drop_last());
        lemma_ten((b.len() - 1) as nat);
        let p = ten((b.len() - 1) as nat);
        let v = digits_value(b.drop_last());
        let x = digits_value(a);
        assert((x * p + v) * 10 == x * (10 * p) + v * 10) by (nonlinear_arith);
    }
}

/// Digits stand for less than the power of ten with their number.
proof fn lemma_value_bound(s: Seq<u8>)
    requires
        all_digits(s),
    ensures
        digits_value(s) < ten(s.len()),
    decreases s.len(),
{
    lemma_ten(0);
    if s.len() > 0 {
        assert forall|i: int| 0 <= i < s.drop_last().len() implies #[trigger] s.drop_last()[i] <= 9 by {
            assert(s.drop_last()[i] == s[i]);
        }
        assert(s.last() <= 9);
        lemma_value_bound(s.drop_last());
        lemma_ten((s.len() - 1) as nat);
    }
}

/// Doubles a fraction given by its digits; hands out the carry.
fn double_digits(f: &mut Vec<u8>) -> (carry: u8)
    requires
        all_digits(old(f)@),
    ensures
        carry <= 1,
        all_digits(final(f)@),
        final(f)@.len() == old(f)@.len(),
        2 * digits_value(old(f)@) == carry * ten(old(f)@.len()) + digits_value(final(f)@),
{
    let ghost orig = f@;
    let n = f.len();
    let mut i: usize = n;
    let mut carry: u8 = 0;
    proof {
        lemma_ten(0);
        assert(orig.skip(n as int) =~= Seq::<u8>::empty());
        assert(f@.skip(n as int) =~= Seq::<u8>::empty());
    }
    while i > 0
        invariant
            0 <= i <= n,
            n == orig.len(),
            f@.len() == n,
            all_digits(orig),
            all_digits(f@),
            carry <= 1,
            forall|j: int| 0 <= j < i ==> f@[j] == orig[j],
            2 * digits_value(orig.skip(i as int)) == carry * ten((n - i) as nat) + digits_value(
                f@.skip(i as int),
            ),
        decreases i,
    {
        i = i - 1;
        let d = f[i];
        assert(d == orig[i as int] && d <= 9);
        let t: u8 = 2 * d + carry;
        let ghost c0 = carry;
        let ghost rest = f@.skip(i + 1);
        let (digit, next): (u8, u8) = if t >= 10 {
            (t - 10, 1)
        } else {
            (t, 0)
        };
        f[i] = digit;
        carry = next;
        proof {
            assert(f@.skip(i as int) =~= seq![digit] + rest);
            assert(orig.skip(i as int) =~= seq![d] + orig.skip(i + 1));
            lemma_value_front(digit, rest);
            lemma_value_front(d, orig.skip(i + 1));
            let k = (n - i - 1) as nat;
            lemma_ten(k);
            let p = ten(k);
            let v = digits_value(orig.skip(i + 1));
            let w = digits_value(rest);
            assert(rest.len() == k);
            assert(2 * (d * p + v) == next * (10 * p) + (digit * p + w)) by (nonlinear_arith)
                requires
                    2 * v == c0 * p + w,
                    2 * d + c0 == 10 * next + digit,
            ;
        }
    }
    proof {
        assert(orig.skip(0) =~= orig);
        assert(f@.skip(0) =~= f@);
    }
    carry
}

/// Tells whether digits stand for zero.
fn is_zero(f: &Vec<u8>) -> (r: bool)
    requires
        all_digits(f@),
    ensures
        r == (digits_value(f@) == 0),
{
    let mut i: usize = 0;
    while i < f.len()
        invariant
            0 <= i <= f@.len(),
            digits_value(f@.take(i as int)) == 0,
        decreases f@.len() - i,
    {
        let ghost t = f@.take(i + 1);
        assert(t.drop_last() =~= f@.take(i as int));
        if f[i] != 0 {
            proof {
                assert(digits_value(t) > 0);
                assert(f@ =~= t + f@.skip(i + 1));
                lemma_value_append(t, f@.skip(i + 1));
                lemma_ten(f@.skip(i + 1).len());
                let p = ten(f@.skip(i + 1).len());
                let v = digits_value(t);
                assert(v * p > 0) by (nonlinear_arith)
                    requires
                        v > 0,
                        p > 0,
                ;
            }
            return false;
        }
        i = i + 1;
    }
    assert(f@.take(i as int) =~= f@);
    true
}

/// What a numeral is, seen from the numbers of 53 bits.
pub enum Rounded {
    /// It is at least `2^70`.
    Huge,
    /// It is not zero, but less than `2^-148`.
    Tiny,
    /// It rounds to this number.
    Number(Binary64),
}

/// What `r` says of the fraction `n / d`.
pub open spec fn rounds_to(r: Rounded, n: nat, d: nat) -> bool {
    match r {
        Rounded::Huge => n >= d * pow2(70),
        Rounded::Tiny => 0 < n && n * pow2(148) < d,
        Rounded::Number(x) => x@ == binary64::nearest(n, d) && x.moderate() && -200 <= x.exp <= 200,
    }
}

proof fn lemma_div_mod(n: nat, b: nat, q: nat, r: nat)
    requires
        n == q * b + r,
        r < b,
    ensures
        n / b == q,
        n % b == r,
{
    vstd::arithmetic::div_mod::lemma_fundamental_div_mod_converse(
        n as int,
        b as int,
        q as int,
        r as int,
    );
}

/// Rounds a numeral whose integer part has more than 53 bits.
fn round_large(acc: u128, frac: &Vec<u8>) -> (x: Binary64)
    requires
        MANT_HIGH <= acc < 0x40_0000_0000_0000_0000,
        all_digits(frac@),
    ensures
        x@ == binary64::nearest(
            (acc * ten(frac@.len()) + digits_value(frac@)) as nat,
            ten(frac@.len()),
        ),
        x@.normal(),
        -200 <= x.exp <= 200,
{
    let ghost t = ten(frac@.len());
    let ghost f = digits_value(frac@);
    let ghost n: nat = (acc * t + f) as nat;
    let high: u128 = MANT_HIGH as u128;
    let mut p: u128 = 1;
    let mut e: i32 = 0;
    proof {
        binary64::lemma_pow2_step(0);
        lemma_ten(frac@.len());
        lemma_value_bound(frac@);
    }
    while acc / p >= high
        invariant
            MANT_HIGH <= acc < 0x40_0000_0000_0000_0000,
            high == MANT_HIGH,
            0 <= e < 100,
            p == pow2(e as nat),
            1 <= p <= 0x8_0000,
            e == 0 ==> p == 1,
            e > 0 ==> p % 2 == 0 && acc / (p / 2) >= high,
            e <= p,
        decreases 0x8_0000 - p,
    {
        proof {
            binary64::lemma_pow2_step(e as nat);
            assert(p <= 0x2_0000) by (nonlinear_arith)
                requires
                    acc / p >= high,
                    high == 0x20_0000_0000_0000,
                    acc < 0x40_0000_0000_0000_0000,
                    p > 0,
            {
                assert(acc >= p * (acc / p));
                assert(p * (acc / p) >= p * high);
            }
            vstd::arithmetic::power2::lemma2_to64();
            if e >= 18 {
                if e > 18 {
                    vstd::arithmetic::power2::lemma_pow2_strictly_increases(18, e as nat);
                }
            }
        }
        p = p * 2;
        e = e + 1;
        assert(p / 2 * 2 == p);
    }
    let q: u128 = acc / p;
    let low: u128 = acc % p;
    proof {
        assert(e > 0) by {
            if e == 0 {
                assert(acc / 1 == acc);
            }
        }
    }
    let half: u128 = p / 2;
    proof {
        assert(acc == p * q + low && low < p) by (nonlinear_arith)
            requires
                q == acc / p,
                low == acc % p,
                p > 0,
        ;
        assert(q >= MANT_LOW) by (nonlinear_arith)
            requires
                acc / half >= 0x20_0000_0000_0000,
                p == 2 * half,
                half > 0,
                acc == p * q + low,
                low < p,
                MANT_LOW == 0x10_0000_0000_0000,
        {
            assert(acc >= half * (acc / half));
            assert(half * (acc / half) >= half * 0x20_0000_0000_0000);
            assert(acc < p * (q + 1));
        }
        let b: nat = (t * p) as nat;
        let r: nat = (low * t + f) as nat;
        assert(n == q * b + r) by (nonlinear_arith)
            requires
                n == acc * t + f,
                acc == p * q + low,
                b == t * p,
                r == low * t + f,
        ;
        assert(r < b) by (nonlinear_arith)
            requires
                r == low * t + f,
                b == t * p,
                f < t,
                low + 1 <= p,
        ;
        lemma_div_mod(n, b, q as nat, r);
        assert(MANT_LOW * b <= n && n < MANT_HIGH * b) by (nonlinear_arith)
            requires
                n == q * b + r,
                r < b,
                MANT_LOW <= q < MANT_HIGH,
        ;
        assert(binary64::in_binade(n, t, e as int));
        assert(n > 0) by (nonlinear_arith)
            requires
                n == acc * t + f,
                acc > 0,
                t > 0,
        ;
        binary64::lemma_nearest_in(n, t, e as int);
        assert(2 * r > b <==> low > half || (low == half && f > 0)) by (nonlinear_arith)
            requires
                r == low * t + f,
                b == t * p,
                p == 2 * half,
                0 <= f < t,
        {
            assert(2 * r == 2 * low * t + 2 * f);
            assert(b == 2 * half * t);
            if low > half {
                assert(low * t >= (half + 1) * t);
            } else if low < half {
                assert((low + 1) * t <= half * t);
            }
        }
        assert(2 * r == b <==> low == half && f == 0) by (nonlinear_arith)
            requires
                r == low * t + f,
                b == t * p,
                p == 2 * half,
                0 <= f < t,
        {
            assert(2 * r == 2 * low * t + 2 * f);
            assert(b == 2 * half * t);
            if low > half {
                assert(low * t >= (half + 1) * t);
            } else if low < half {
                assert((low + 1) * t <= half * t);
            }
        }
    }
    let zero = is_zero(frac);
    let m: u128 = if low > half || (low == half && (!zero || q % 2 == 1)) {
        q + 1
    } else {
        q
    };
    if m == high {
        Binary64 { mant: MANT_LOW, exp: e + 1 }
    } else {
        Binary64 { mant: m as u64, exp: e }
    }
}

/// Rounds a numeral, given by its digits before and after the point.
pub fn round_decimal(whole: &Vec<u8>, frac: &Vec<u8>) -> (r: Rounded)
    requires
        all_digits(whole@),
        all_digits(frac@),
    ensures
        rounds_to(r, digits_value(whole@ + frac@), ten(frac@.len())),
{
    let ghost t = ten(frac@.len());
    let ghost n = digits_value(whole@ + frac@);
    proof {
        lemma_ten(frac@.len());
        lemma_value_bound(frac@);
        vstd::arithmetic::power2::lemma2_to64();
        vstd::arithmetic::power2::lemma2_to64_rest();
        vstd::arithmetic::power2::lemma_pow2_adds(64, 6);
    }
    let mut acc: u128 = 0;
    let mut i: usize = 0;
    while i < whole.len()
        invariant
            0 <= i <= whole@.len(),
            all_digits(whole@),
            acc == digits_value(whole@.take(i as int)),
            acc < 0x40_0000_0000_0000_0000,
            pow2(70) == 0x40_0000_0000_0000_0000,
            t == ten(frac@.len()),
            n == digits_value(whole@ + frac@),
            t > 0,
        decreases whole@.len() - i,
    {
        let ghost w = whole@.take(i + 1);
        assert(w.drop_last() =~= whole@.take(i as int));
        acc = acc * 10 + whole[i] as u128;
        i = i + 1;
        if acc >= 0x40_0000_0000_0000_0000 {
            proof {
                let rest = whole@.skip(i as int);
                assert(whole@ + frac@ =~= w + (rest + frac@));
                lemma_value_append(w, rest + frac@);
                lemma_ten_adds(rest.len(), frac@.len());
                lemma_ten(rest.len());
                let u = ten(rest.len());
                let z = ten((rest + frac@).len());
                assert(z == u * t);
                assert(n >= t * 0x40_0000_0000_0000_0000) by (nonlinear_arith)
                    requires
                        n >= acc * z,
                        z == u * t,
                        u >= 1,
                        t > 0,
                        acc >= 0x40_0000_0000_0000_0000,
                {
                    assert(u * t >= t);
                    assert(acc * z >= acc * t);
                }
            }
            return Rounded::Huge;
        }
    }
    proof {
        assert(whole@.take(i as int) =~= whole@);
        lemma_value_append(whole@, frac@);
    }
    if acc >= MANT_HIGH as u128 {
        return Rounded::Number(round_large(acc, frac));
    }
    let mut f: Vec<u8> = frac.clone();
    assert(f@ =~= frac@);
    if acc == 0 && is_zero(&f) {
        assert(acc * t == 0) by (nonlinear_arith)
            requires
                acc == 0,
        ;
        return Rounded::Number(Binary64 { mant: 0, exp: 0 });
    }
    let low: u128 = MANT_LOW as u128;
    let mut s: i32 = 0;
    proof {
        binary64::lemma_pow2_step(0);
        assert(n * pow2(0) == n) by (nonlinear_arith)
            requires
                pow2(0) == 1,
        ;
        assert(n > 0) by (nonlinear_arith)
            requires
                n == acc * t + digits_value(frac@),
                acc > 0 || digits_value(frac@) > 0,
                t > 0,
        ;
    }
    while acc < low && s < 200
        invariant
            low == MANT_LOW,
            acc < MANT_HIGH,
            0 <= s <= 200,
            all_digits(f@),
            f@.len() == frac@.len(),
            t == ten(frac@.len()),
            n * pow2(s as nat) == acc * t + digits_value(f@),
        decreases 200 - s,
    {
        let ghost a0 = acc as nat;
        let ghost f0 = digits_value(f@);
        let c = double_digits(&mut f);
        acc = acc * 2 + c as u128;
        proof {
            binary64::lemma_pow2_step(s as nat);
            let k = pow2(s as nat);
            let f1 = digits_value(f@);
            assert(n * (2 * k) == (2 * a0 + c) * t + f1) by (nonlinear_arith)
                requires
                    n * k == a0 * t + f0,
                    2 * f0 == c * t + f1,
            ;
        }
        s = s + 1;
    }
    let ghost v = digits_value(f@);
    proof {
        lemma_value_bound(f@);
    }
    if acc < low {
        proof {
            vstd::arithmetic::power2::lemma_pow2_adds(148, 52);
            let k = pow2(148);
            assert(n * k < t) by (nonlinear_arith)
                requires
                    n * (k * low) == acc * t + v,
                    acc + 1 <= low,
                    v < t,
                    low > 0,
            {
                assert(acc * t + v < (acc + 1) * t);
                assert((acc + 1) * t <= low * t);
                assert((n * k) * low < t * low);
            }
        }
        return Rounded::Tiny;
    }
    proof {
        let big = (n * pow2(s as nat)) as nat;
        assert(MANT_LOW * t <= big && big < MANT_HIGH * t) by (nonlinear_arith)
            requires
                big == acc * t + v,
                v < t,
                MANT_LOW <= acc < MANT_HIGH,
        ;
        assert(binary64::over(n, s as int) == big);
        assert(binary64::in_binade(n, t, -(s as int)));
        binary64::lemma_nearest_in(n, t, -(s as int));
        lemma_div_mod(big, t, acc as nat, v);
    }
    let c = double_digits(&mut f);
    let zero = is_zero(&f);
    proof {
        lemma_value_bound(f@);
        let g = digits_value(f@);
        assert(c == 0 ==> c * t == 0) by (nonlinear_arith);
        assert(c == 1 ==> c * t == t) by (nonlinear_arith);
    }
    let m: u128 = if c == 1 && (!zero || acc % 2 == 1) {
        acc + 1
    } else {
        acc
    };
    if m == MANT_HIGH as u128 {
        Rounded::Number(Binary64 { mant: MANT_LOW, exp: 1 - s })
    } else {
        Rounded::Number(Binary64 { mant: m as u64, exp: -s })
    }
}

/// The fraction `n / d` times an integer: both factors and the product are
/// rounded to 53 bits, then the product is rounded to an integer.
pub open spec fn product(n: nat, d: nat, factor: nat) -> nat {
    binary64::float_round(
        binary64::float_mul(binary64::nearest(n, d), binary64::nearest(factor, 1)),
    )
}

/// What is huge stays huge when multiplied.
proof fn lemma_product_huge(n: nat, d: nat, factor: nat)
    requires
        d > 0,
        n >= d * pow2(70),
        1 <= factor < 0x1_0000_0000_0000,
    ensures
        product(n, d, factor) > 0x1_0000_0000_0000_0000,
{
    vstd::arithmetic::power2::lemma2_to64();
    vstd::arithmetic::power2::lemma2_to64_rest();
    vstd::arithmetic::power2::lemma_pow2_pos(70);
    let p70 = pow2(70);
    assert(n > 0) by (nonlinear_arith)
        requires
            n >= d * p70,
            d > 0,
            p70 > 0,
    ;
    binary64::lemma_outer(n, d);
    binary64::lemma_nearest_range(n, d, 70, n as int);
    binary64::lemma_nearest_range(factor, 1, 0, 48);
    let x = binary64::nearest(n, d);
    let y = binary64::nearest(factor, 1);
    lemma_mant_product(x.mant, y.mant);
    let z = binary64::float_mul(x, y);
    assert(z.exp >= 18 && z.mant >= MANT_LOW);
    binary64::lemma_whole(z);
    let a = z.above();
    assert((2 * a + 1) / 2 == a);
    if z.exp > 18 {
        vstd::arithmetic::power2::lemma_pow2_strictly_increases(18, z.exp as nat);
    }
    let p = pow2(z.exp as nat);
    let m = z.mant;
    assert(m * p > 0x1_0000_0000_0000_0000) by (nonlinear_arith)
        requires
            m >= 0x10_0000_0000_0000,
            p >= 0x4_0000,
    ;
}

/// Where the product of two integers of 53 bits lies when rounded.
proof fn lemma_mant_product(a: nat, b: nat)
    requires
        MANT_LOW <= a < MANT_HIGH,
        MANT_LOW <= b < MANT_HIGH,
    ensures
        52 <= binary64::nearest(a * b, 1).exp <= 54,
        MANT_LOW <= binary64::nearest(a * b, 1).mant < MANT_HIGH,
{
    let p = a * b;
    assert(p >= 0x100_0000_0000_0000_0000_0000_0000) by (nonlinear_arith)
        requires
            p == a * b,
            a >= 0x10_0000_0000_0000,
            b >= 0x10_0000_0000_0000,
    ;
    assert(p < 0x400_0000_0000_0000_0000_0000_0000) by (nonlinear_arith)
        requires
            p == a * b,
            a < 0x20_0000_0000_0000,
            b < 0x20_0000_0000_0000,
    ;
    vstd::arithmetic::power2::lemma2_to64();
    vstd::arithmetic::power2::lemma2_to64_rest();
    vstd::arithmetic::power2::lemma_pow2_adds(64, 40);
    vstd::arithmetic::power2::lemma_pow2_adds(64, 42);
    binary64::lemma_nearest_range(p, 1, 104, 106);
}

/// What is tiny becomes zero when multiplied and rounded.
proof fn lemma_product_tiny(n: nat, d: nat, factor: nat)
    requires
        n > 0,
        n * pow2(148) < d,
        1 <= factor < 0x1_0000_0000_0000,
    ensures
        product(n, d, factor) == 0,
{
    vstd::arithmetic::power2::lemma2_to64();
    vstd::arithmetic::power2::lemma2_to64_rest();
    binary64::lemma_outer(n, d);
    binary64::lemma_nearest_range(n, d, -(d as int), -148);
    binary64::lemma_nearest_range(factor, 1, 0, 48);
    let x = binary64::nearest(n, d);
    let y = binary64::nearest(factor, 1);
    lemma_mant_product(x.mant, y.mant);
    let z = binary64::float_mul(x, y);
    assert(z.exp <= -150);
    let k = (-z.exp) as nat;
    vstd::arithmetic::power2::lemma_pow2_strictly_increases(64, k);
    assert((2 * z.mant + pow2(k)) / (2 * pow2(k)) == 0) by {
        vstd::arithmetic::div_mod::lemma_basic_div((2 * z.mant + pow2(k)) as int, 2 * pow2(k) as int);
    }
}

/// A number exceeds `2^64` exactly when the integer nearest to it does.
proof fn lemma_round_limit(x: binary64::Float)
    requires
        x.normal(),
    ensures
        binary64::float_ge(binary64::Float { mant: MANT_LOW as nat, exp: 12 }, x) <==> (
        binary64::float_round(x) <= 0x1_0000_0000_0000_0000),
{
    let limit = binary64::Float { mant: MANT_LOW as nat, exp: 12 };
    binary64::lemma_compare(limit, x);
    vstd::arithmetic::power2::lemma2_to64();
    if x.exp >= 0 {
        binary64::lemma_whole(x);
        let a = x.above();
        assert((2 * a + 1) / 2 == a);
        let p = pow2(x.exp as nat);
        let m = x.mant;
        if x.exp < 12 {
            vstd::arithmetic::power2::lemma_pow2_strictly_increases(x.exp as nat, 12);
            vstd::arithmetic::power2::lemma_pow2_adds(11, 1);
            if x.exp < 11 {
                vstd::arithmetic::power2::lemma_pow2_strictly_increases(x.exp as nat, 11);
            }
            assert(m * p <= 0x1_0000_0000_0000_0000) by (nonlinear_arith)
                requires
                    m < 0x20_0000_0000_0000,
                    p <= 0x800,
            ;
        } else if x.exp == 12 {
            assert(m * p <= 0x1_0000_0000_0000_0000 <==> m <= 0x10_0000_0000_0000) by (nonlinear_arith)
                requires
                    p == 0x1000,
            ;
        } else {
            vstd::arithmetic::power2::lemma_pow2_strictly_increases(12, x.exp as nat);
            assert(m * p > 0x1_0000_0000_0000_0000) by (nonlinear_arith)
                requires
                    m >= 0x10_0000_0000_0000,
                    p > 0x1000,
            ;
        }
    } else {
        let k = (-x.exp) as nat;
        let p = pow2(k);
        let m = x.mant;
        vstd::arithmetic::power2::lemma_pow2_pos(k);
        let r = (2 * m + p) / (2 * p);
        assert(r <= m + 1) by (nonlinear_arith)
            requires
                r == (2 * m + p) / (2 * p),
                p > 0,
                m >= 0,
        ;
    }
}

/// Multiplies a rounded numeral by an integer; `None` where the result
/// exceeds `2^64`.
pub fn times(r: &Rounded, factor: u64) -> (v: Option<u64>)
    requires
        1 <= factor < 0x1_0000_0000_0000,
        exists|n: nat, d: nat| d > 0 && #[trigger] rounds_to(*r, n, d),
    ensures
        forall|n: nat, d: nat|
            d > 0 && #[trigger] rounds_to(*r, n, d) ==> match v {
                Some(b) => product(n, d, factor as nat) <= 0x1_0000_0000_0000_0000 && b
                    == binary64::clamp64(product(n, d, factor as nat)),
                None => product(n, d, factor as nat) > 0x1_0000_0000_0000_0000,
            },
{
    match r {
        Rounded::Huge => {
            proof {
                assert forall|n: nat, d: nat| d > 0 && #[trigger] rounds_to(*r, n, d) implies product(
                    n,
                    d,
                    factor as nat,
                ) > 0x1_0000_0000_0000_0000 by {
                    lemma_product_huge(n, d, factor as nat);
                }
            }
            None
        },
        Rounded::Tiny => {
            proof {
                assert forall|n: nat, d: nat| d > 0 && #[trigger] rounds_to(*r, n, d) implies product(
                    n,
                    d,
                    factor as nat,
                ) == 0 by {
                    lemma_product_tiny(n, d, factor as nat);
                }
            }
            Some(0)
        },
        Rounded::Number(x) => {
            let f = Binary64::from_u64(factor);
            let z = x.mul(f);
            let limit = Binary64 { mant: MANT_LOW, exp: 12 };
            proof {
                lemma_round_limit(z@);
            }
            if limit.at_least(z) {
                Some(z.round())
            } else {
                None
            }
        },
    }
}

/// `v` times ten to the power `e` as a fraction: what stands above the line.
pub open spec fn tens_over(v: nat, e: int) -> nat {
    if e > 0 {
        v * ten(e as nat)
    } else {
        v
    }
}

/// `v` times ten to the power `e` as a fraction: what stands below the line.
pub open spec fn tens_under(e: int) -> nat {
    if e < 0 {
        ten((-e) as nat)
    } else {
        1
    }
}

/// Zeros stand for nothing.
proof fn lemma_zeros(k: nat)
    ensures
        digits_value(Seq::new(k, |i: int| 0u8)) == 0,
    decreases k,
{
    let z = Seq::new(k, |i: int| 0u8);
    if k > 0 {
        lemma_zeros((k - 1) as nat);
        assert(z.drop_last() =~= Seq::new((k - 1) as nat, |i: int| 0u8));
    }
}

/// Larger exponents give larger powers of ten.
proof fn lemma_ten_grows(a: nat, b: nat)
    requires
        a <= b,
    ensures
        ten(a) <= ten(b),
{
    vstd::arithmetic::power::lemma_pow_increases(10, a, b);
    vstd::arithmetic::power::lemma_pow_positive(10, a);
    vstd::arithmetic::power::lemma_pow_positive(10, b);
}

/// Ten to the power 64 has more than 148 bits.
proof fn lemma_ten_64()
    ensures
        ten(64) > pow2(148),
        ten(64) > pow2(70),
{
    lemma_ten_adds(16, 16);
    lemma_ten_adds(32, 32);
    lemma_ten_adds(8, 8);
    lemma_ten_adds(4, 4);
    lemma_ten(0);
    lemma_ten(1);
    lemma_ten(2);
    lemma_ten(3);
    assert(ten(4) == 10_000);
    let a = ten(4);
    assert(a * a == 100_000_000) by (nonlinear_arith)
        requires
            a == 10_000,
    ;
    let b = ten(8);
    assert(b * b == 10_000_000_000_000_000) by (nonlinear_arith)
        requires
            b == 100_000_000,
    ;
    let c = ten(16);
    assert(c * c >= 0x4000_0000_0000_0000_0000_0000_00) by (nonlinear_arith)
        requires
            c == 10_000_000_000_000_000,
    ;
    let d = ten(32);
    vstd::arithmetic::power2::lemma2_to64();
    vstd::arithmetic::power2::lemma2_to64_rest();
    vstd::arithmetic::power2::lemma_pow2_adds(64, 38);
    vstd::arithmetic::power2::lemma_pow2_adds(102, 46);
    vstd::arithmetic::power2::lemma_pow2_adds(64, 6);
    let p = pow2(102);
    let q = pow2(46);
    assert(p == 0x4000_0000_0000_0000_0000_0000_00);
    assert(d * d > p * q) by (nonlinear_arith)
        requires
            d >= p,
            p > q,
            q > 0,
    ;
    vstd::arithmetic::power2::lemma_pow2_strictly_increases(70, 148);
}

/// `f` is as good as `e` for the exponent of a number with `len` digits: it is
/// the same, or both leave the number huge, or both leave it tiny.
pub open spec fn as_good(e: int, f: int, len: nat) -> bool {
    f == e || (64 <= e <= f) || (f <= e <= -65 - len)
}

/// Rounds a number given by its digits and a power of ten.
pub fn round_scaled(digits: &Vec<u8>, e: i128) -> (r: Rounded)
    requires
        all_digits(digits@),
    ensures
        forall|f: int|
            #[trigger] as_good(e as int, f, digits@.len()) ==> rounds_to(
                r,
                tens_over(digits_value(digits@), f),
                tens_under(f),
            ),
{
    let ghost v = digits_value(digits@);
    let ghost len = digits@.len();
    proof {
        lemma_ten(0);
        lemma_ten_64();
        lemma_value_bound(digits@);
        vstd::arithmetic::power2::lemma_pow2_pos(148);
    }
    let mut whole: Vec<u8> = Vec::new();
    let mut frac: Vec<u8> = Vec::new();
    if is_zero(digits) {
        assert forall|f: int| tens_over(v, f) == 0 by {
            if f > 0 {
                let k = ten(f as nat);
                assert(v * k == 0) by (nonlinear_arith)
                    requires
                        v == 0,
                ;
            }
        }
        return Rounded::Number(Binary64 { mant: 0, exp: 0 });
    }
    if e >= 64 {
        assert forall|f: int| #[trigger] as_good(e as int, f, len) implies rounds_to(
            Rounded::Huge,
            tens_over(v, f),
            tens_under(f),
        ) by {
            lemma_ten_grows(64, f as nat);
            let k = ten(f as nat);
            let p = pow2(70);
            assert(v * k >= 1 * p) by (nonlinear_arith)
                requires
                    v >= 1,
                    k >= p,
                    p >= 0,
            ;
        }
        return Rounded::Huge;
    }
    let n: usize = digits.len();
    if e < 0 && -(e + 1) >= n as i128 + 64 {
        assert forall|f: int| #[trigger] as_good(e as int, f, len) implies rounds_to(
            Rounded::Tiny,
            tens_over(v, f),
            tens_under(f),
        ) by {
            let k = (-f) as nat;
            lemma_ten_grows(len + 64, k);
            lemma_ten_adds(len, 64);
            let p = pow2(148);
            let t = ten(len);
            let u = ten(64);
            let w = ten(k);
            assert(v * p < w) by (nonlinear_arith)
                requires
                    v < t,
                    p < u,
                    p > 0,
                    t * u <= w,
            ;
        }
        return Rounded::Tiny;
    }
    let mut i: usize = 0;
    if e >= 0 {
        while i < n
            invariant
                n == digits@.len(),
                0 <= i <= n,
                whole@ == digits@.take(i as int),
            decreases n - i,
        {
            whole.push(digits[i]);
            i = i + 1;
            assert(digits@.take(i as int) =~= digits@.take(i - 1).push(digits@[i - 1]));
        }
        assert(digits@.take(i as int) =~= digits@);
        let mut k: i128 = 0;
        let ghost zeros = |j: int| Seq::new(j as nat, |i: int| 0u8);
        assert(whole@ =~= digits@ + zeros(0));
        while k < e
            invariant
                0 <= k <= e,
                whole@ == digits@ + zeros(k as int),
                zeros == (|j: int| Seq::new(j as nat, |i: int| 0u8)),
            decreases e - k,
        {
            whole.push(0);
            k = k + 1;
            assert(whole@ =~= digits@ + zeros(k as int));
        }
        proof {
            lemma_zeros(e as nat);
            lemma_value_append(digits@, zeros(e as int));
            assert(whole@ + frac@ =~= whole@);
            assert(all_digits(whole@));
            if e == 0 {
                let one = ten(0);
                assert(v * one == v) by (nonlinear_arith)
                    requires
                        one == 1,
                ;
            }
        }
        return round_decimal(&whole, &frac);
    }
    // The last `-e` digits are behind the point; where there are fewer, zeros
    // stand before them.
    let places: i128 = -e;
    let ghost lead: nat = if places > len { (places - len) as nat } else { 0 };
    let ghost zeros = Seq::new(lead, |i: int| 0u8);
    let mut k: i128 = places;
    assert(frac@ =~= zeros.take(0));
    while k > n as i128
        invariant
            n == digits@.len(),
            n <= k || k == places,
            k <= places,
            lead == if places > n { (places - n) as nat } else { 0 },
            zeros == Seq::new(lead, |i: int| 0u8),
            frac@ == zeros.take(places - k),
        decreases k,
    {
        frac.push(0);
        k = k - 1;
        assert(frac@ =~= zeros.take(places - k));
    }
    assert(frac@ =~= zeros);
    let split: usize = n - k as usize;
    while i < split
        invariant
            0 <= i <= split <= n,
            n == digits@.len(),
            whole@ == digits@.take(i as int),
        decreases split - i,
    {
        whole.push(digits[i]);
        i = i + 1;
        assert(digits@.take(i as int) =~= digits@.take(i - 1).push(digits@[i - 1]));
    }
    assert(frac@ =~= zeros + digits@.subrange(split as int, i as int));
    while i < n
        invariant
            0 <= split <= i <= n,
            n == digits@.len(),
            frac@ == zeros + digits@.subrange(split as int, i as int),
        decreases n - i,
    {
        frac.push(digits[i]);
        i = i + 1;
        assert(frac@ =~= zeros + digits@.subrange(split as int, i as int));
    }
    proof {
        lemma_zeros(lead);
        lemma_value_append(zeros, digits@);
        let t = ten(len);
        assert(0 * t == 0) by (nonlinear_arith);
        if lead > 0 {
            assert(whole@ + frac@ =~= zeros + digits@);
        } else {
            assert(zeros =~= Seq::<u8>::empty());
            assert(whole@ + frac@ =~= digits@);
        }
        assert(all_digits(whole@));
        assert(all_digits(frac@));
        assert(frac@.len() == places);
    }
    round_decimal(&whole, &frac)
}

/// Zero times anything is zero.
pub proof fn lemma_product_zero(d: nat, factor: nat)
    ensures
        product(0, d, factor) == 0,
{
    let y = binary64::nearest(factor, 1);
    let m = y.mant;
    assert(0 * m == 0);
    let z = binary64::float_mul(binary64::nearest(0, d), y);
    assert(z == binary64::float_zero());
    let a = z.above();
    let b = z.below();
    assert((2 * a + b) / (2 * b) == 0) by (nonlinear_arith)
        requires
            a == 0,
            b == 1,
    ;
}

/// An integer times an integer is exact as long as the product has at most 53
/// bits.
pub proof fn lemma_product_whole(n: nat, factor: nat)
    requires
        factor > 0,
        n * factor < binary64::MANT_HIGH,
    ensures
        product(n, 1, factor) == n * factor,
{
    if n == 0 {
        lemma_product_zero(1, factor);
        assert(0 * factor == 0);
    } else {
        let p = n * factor;
        assert(n <= p && factor <= p && p > 0) by (nonlinear_arith)
            requires
                n >= 1,
                factor >= 1,
                p == n * factor,
        ;
        accuracy::lemma_small(n, 52);
        accuracy::lemma_small(factor, 52);
        accuracy::lemma_small(p, 104);
        accuracy::lemma_small(p, 52);
        let x = binary64::nearest(n, 1);
        let y = binary64::nearest(factor, 1);
        let w = binary64::nearest(p, 1);
        vstd::arithmetic::power2::lemma_pow2_adds(52, 52);
        vstd::arithmetic::power2::lemma_pow2_pos(52);
        let k = pow2(52);
        assert((n * k) * (factor * k) == p * (k * k)) by (nonlinear_arith)
            requires
                p == n * factor,
        ;
        accuracy::lemma_mul_exact(x, y, w, 52, 52);
        let r = binary64::float_round(w);
        accuracy::lemma_round(w, 52, r);
        accuracy::lemma_round(w, 52, (r + 1) as nat);
        assert(r == p) by (nonlinear_arith)
            requires
                2 * r * k <= 2 * (p * k) + k,
                2 * (r + 1) * k > 2 * (p * k) + k,
                k > 0,
        {
            if r > p {
                assert(2 * r * k >= 2 * (p + 1) * k);
                assert(2 * (p + 1) * k == 2 * (p * k) + 2 * k);
            }
            if r < p {
                assert(2 * (r + 1) * k <= 2 * p * k);
            }
        }
    }
}

/// A fraction times an integer, as it is computed, differs from the exact
/// product by at most one half and the product's part in `2^51`.
pub proof fn lemma_product_near(n: nat, d: nat, factor: nat)
    requires
        d > 0,
        factor > 0,
    ensures
        0x8_0000_0000_0000 * (2 * (product(n, d, factor) * d) - 2 * (n * factor)) <= 2 * (n
            * factor) + 0x8_0000_0000_0000 * d,
        0x8_0000_0000_0000 * (2 * (n * factor) - 2 * (product(n, d, factor) * d)) <= 2 * (n
            * factor) + 0x8_0000_0000_0000 * d,
{
    if n == 0 {
        lemma_product_zero(d, factor);
        assert(0 * factor == 0 && 0 * d == 0);
    } else {
        let x = binary64::nearest(n, d);
        let y = binary64::nearest(factor, 1);
        binary64::lemma_outer(n, d);
        binary64::lemma_outer(factor, 1);
        binary64::lemma_nearest_range(n, d, -(d as int), n as int);
        binary64::lemma_nearest_range(factor, 1, -1, factor as int);
        let k: nat = if x.exp < 1 {
            (1 - x.exp) as nat
        } else {
            0
        };
        let l: nat = if y.exp < 1 {
            (1 - y.exp) as nat
        } else {
            0
        };
        accuracy::lemma_nearest(n, d, k);
        accuracy::lemma_nearest(factor, 1, l);
        accuracy::lemma_mul(x, y, k as int, l as int);
        let z = binary64::float_mul(x, y);
        let u = accuracy::units(x, k as int);
        let v = accuracy::units(y, l as int);
        let w = accuracy::units(z, k as int + l as int);
        accuracy::lemma_near_times(w, u * v, d);
        assert(d * (u * v) == (u * d) * v) by (nonlinear_arith);
        assert(v * 1 == v);
        accuracy::lemma_close_product(n * pow2(k), factor * pow2(l), u * d, v, d * w);
        vstd::arithmetic::power2::lemma_pow2_adds(k, l);
        vstd::arithmetic::power2::lemma_pow2_pos(k + l);
        let pk = pow2(k);
        let pl = pow2(l);
        let p = pow2(k + l);
        let exact = n * factor;
        assert((n * pk) * (factor * pl) == exact * p) by (nonlinear_arith)
            requires
                exact == n * factor,
                p == pk * pl,
        ;
        let r = binary64::float_round(z);
        accuracy::lemma_round(z, k + l, r);
        accuracy::lemma_round(z, k + l, (r + 1) as nat);
        lemma_round_bounds(r, w, p, d, exact);
    }
}

/// From units to the whole, with the rounding to an integer.
proof fn lemma_round_bounds(r: nat, w: nat, p: nat, d: nat, exact: nat)
    requires
        p > 0,
        d > 0,
        2 * r * p <= 2 * w + p,
        2 * (r + 1) * p > 2 * w + p,
        accuracy::close(d * w, exact * p),
    ensures
        0x8_0000_0000_0000 * (2 * (r * d) - 2 * exact) <= 2 * exact + 0x8_0000_0000_0000 * d,
        0x8_0000_0000_0000 * (2 * exact - 2 * (r * d)) <= 2 * exact + 0x8_0000_0000_0000 * d,
{
    let c: int = 0x8_0000_0000_0000;
    let dw = (d * w) as int;
    let ep = (exact * p) as int;
    let rd = (r * d) as int;
    let dp = (d * p) as int;
    assert(2 * (rd * p) <= 2 * dw + dp && 2 * (rd * p) >= 2 * dw - dp) by (nonlinear_arith)
        requires
            2 * r * p <= 2 * w + p,
            2 * (r + 1) * p > 2 * w + p,
            dw == d * w,
            rd == r * d,
            dp == d * p,
            d > 0,
    {
        assert((2 * r * p) * d <= (2 * w + p) * d);
        assert((2 * r * p) * d == 2 * (rd * p));
        assert((2 * w + p) * d == 2 * dw + dp);
        assert((2 * (r + 1) * p) * d >= (2 * w + p) * d);
        assert((2 * (r + 1) * p) * d == 2 * (rd * p) + 2 * dp);
    }
    assert(c * (2 * rd - 2 * exact) <= 2 * exact + c * d && c * (2 * exact - 2 * rd) <= 2 * exact
        + c * d) by (nonlinear_arith)
        requires
            2 * (rd * p) <= 2 * dw + dp,
            2 * (rd * p) >= 2 * dw - dp,
            c * (dw - ep) <= ep,
            c * (ep - dw) <= ep,
            ep == exact * p,
            dp == d * p,
            p > 0,
            c > 0,
    {
        assert((c * (2 * rd - 2 * exact)) * p == c * (2 * (rd * p)) - c * (2 * ep));
        assert(c * (2 * (rd * p)) <= c * (2 * dw + dp));
        assert(c * (2 * dw + dp) == 2 * (c * dw) + c * dp);
        assert(c * dw <= c * ep + ep);
        assert((2 * exact + c * d) * p == 2 * ep + c * dp);
        assert((c * (2 * exact - 2 * rd)) * p == c * (2 * ep) - c * (2 * (rd * p)));
        assert(c * (2 * (rd * p)) >= c * (2 * dw - dp));
        assert(c * (2 * dw - dp) == 2 * (c * dw) - c * dp);
        assert(c * dw >= c * ep - ep);
    }
}

} // verus!
