//! Binary floating-point numbers as integers.
//!
//! Sizes, durations and similarities are computed in double precision. A
//! number that is not negative is held here as an integer of at most 53 bits
//! and a power of two, and every operation rounds to the nearest such number,
//! ties to the even one. Exponents are not limited.

use crate::text;
use crate::text::push_decimal;
use vstd::arithmetic::power::pow;
use vstd::arithmetic::power2::pow2;
use vstd::prelude::*;

verus! {

/// The smallest integer of 53 bits.
pub const MANT_LOW: u64 = 0x10_0000_0000_0000;

/// The smallest integer of 54 bits.
pub const MANT_HIGH: u64 = 0x20_0000_0000_0000;

/// The number `mant * 2^exp`.
#[derive(Clone, Copy, Debug, PartialEq, Eq, Structural)]
pub struct Binary64 {
    pub mant: u64,
    pub exp: i32,
}

/// The number `mant * 2^exp`, over the integers.
pub struct Float {
    pub mant: nat,
    pub exp: int,
}

impl View for Binary64 {
    type V = Float;

    open spec fn view(&self) -> Float {
        Float { mant: self.mant as nat, exp: self.exp as int }
    }
}

/// The numbers in a list.
pub open spec fn floats(xs: Seq<Binary64>) -> Seq<Float> {
    xs.map_values(|x: Binary64| x@)
}

/// A number that may be missing.
pub open spec fn option_float(x: Option<Binary64>) -> Option<Float> {
    match x {
        Some(v) => Some(v@),
        None => None,
    }
}

/// Zero.
pub open spec fn float_zero() -> Float {
    Float { mant: 0, exp: 0 }
}

impl Float {
    /// A number is zero, written in one way, or its integer has 53 bits.
    pub open spec fn normal(self) -> bool {
        self == float_zero() || MANT_LOW <= self.mant < MANT_HIGH
    }

    /// The number times a power of two.
    pub open spec fn shifted(self, by: int) -> Float {
        if self.mant == 0 {
            self
        } else {
            Float { mant: self.mant, exp: self.exp + by }
        }
    }

    /// The number as a fraction: what stands above the line.
    pub open spec fn above(self) -> nat {
        over(self.mant, self.exp)
    }

    /// The number as a fraction: what stands below the line.
    pub open spec fn below(self) -> nat {
        under(1, self.exp)
    }
}

/// `n * 2^e` as a fraction: what stands above the line.
pub open spec fn over(n: nat, e: int) -> nat {
    if e > 0 {
        n * pow2(e as nat)
    } else {
        n
    }
}

/// `n / d * 2^e` as a fraction: what stands below the line.
pub open spec fn under(d: nat, e: int) -> nat {
    if e < 0 {
        d * pow2((-e) as nat)
    } else {
        d
    }
}

/// The integer nearest to `a / b`; of two that are equally near, the even one.
pub open spec fn nearest_int(a: nat, b: nat) -> nat {
    let q = a / b;
    let r = a % b;
    if 2 * r > b || (2 * r == b && q % 2 == 1) {
        q + 1
    } else {
        q
    }
}

/// `n / d` divided by `2^e` lies where integers have 53 bits.
pub open spec fn in_binade(n: nat, d: nat, e: int) -> bool {
    MANT_LOW * under(d, -e) <= over(n, -e) < MANT_HIGH * under(d, -e)
}

/// The number of 53 bits nearest to `n / d`, ties to even.
pub open spec fn nearest(n: nat, d: nat) -> Float {
    if n == 0 {
        float_zero()
    } else {
        let e = choose|e: int| in_binade(n, d, e);
        let m = nearest_int(over(n, -e), under(d, -e));
        if m == MANT_HIGH {
            Float { mant: MANT_LOW as nat, exp: e + 1 }
        } else {
            Float { mant: m, exp: e }
        }
    }
}

/// The product of two numbers, rounded.
pub open spec fn float_mul(x: Float, y: Float) -> Float {
    nearest(x.mant * y.mant, 1).shifted(x.exp + y.exp)
}

/// The quotient of two numbers, rounded.
pub open spec fn float_div(x: Float, y: Float) -> Float {
    nearest(x.mant, y.mant).shifted(x.exp - y.exp)
}

/// `x` is at least `y`.
pub open spec fn float_ge(x: Float, y: Float) -> bool {
    x.above() * y.below() >= y.above() * x.below()
}

/// The largest integer that does not exceed the number.
pub open spec fn float_floor(x: Float) -> nat {
    x.above() / x.below()
}

/// The integer nearest to the number; of two that are equally near, the
/// larger one.
pub open spec fn float_round(x: Float) -> nat {
    (2 * x.above() + x.below()) / (2 * x.below())
}

/// An integer kept within 64 bits: what is too large becomes the largest.
pub open spec fn clamp64(n: nat) -> u64 {
    if n > u64::MAX {
        u64::MAX
    } else {
        n as u64
    }
}

/// Powers of two double from one exponent to the next.
pub proof fn lemma_pow2_step(k: nat)
    ensures
        pow2(k + 1) == 2 * pow2(k),
        pow2(k) > 0,
        pow2(0) == 1,
{
    vstd::arithmetic::power2::lemma_pow2_unfold(k + 1);
    vstd::arithmetic::power2::lemma_pow2_pos(k);
    vstd::arithmetic::power2::lemma2_to64();
}

/// A number lies in one binade only.
proof fn lemma_binade_unique(n: nat, d: nat, e: int, f: int)
    requires
        d > 0,
        in_binade(n, d, e),
        in_binade(n, d, f),
    ensures
        e == f,
{
    if e < f {
        lemma_binade_order(n, d, e, f);
    } else if f < e {
        lemma_binade_order(n, d, f, e);
    }
}

proof fn lemma_binade_order(n: nat, d: nat, e: int, f: int)
    requires
        d > 0,
        in_binade(n, d, e),
        e < f,
    ensures
        !in_binade(n, d, f),
{
    let a1: nat = if e < 0 { (-e) as nat } else { 0 };
    let b1: nat = if e > 0 { e as nat } else { 0 };
    let a2: nat = if f < 0 { (-f) as nat } else { 0 };
    let b2: nat = if f > 0 { f as nat } else { 0 };
    lemma_pow2_step(0);
    assert(over(n, -e) == n * pow2(a1)) by (nonlinear_arith)
        requires
            over(n, -e) == (if -e > 0 { n * pow2(a1) } else { n }),
            -e <= 0 ==> pow2(a1) == 1,
    ;
    assert(under(d, -e) == d * pow2(b1)) by (nonlinear_arith)
        requires
            under(d, -e) == (if -e < 0 { d * pow2(b1) } else { d }),
            -e >= 0 ==> pow2(b1) == 1,
    ;
    assert(over(n, -f) == n * pow2(a2)) by (nonlinear_arith)
        requires
            over(n, -f) == (if -f > 0 { n * pow2(a2) } else { n }),
            -f <= 0 ==> pow2(a2) == 1,
    ;
    assert(under(d, -f) == d * pow2(b2)) by (nonlinear_arith)
        requires
            under(d, -f) == (if -f < 0 { d * pow2(b2) } else { d }),
            -f >= 0 ==> pow2(b2) == 1,
    ;
    let pa1 = pow2(a1);
    let pb1 = pow2(b1);
    let pa2 = pow2(a2);
    let pb2 = pow2(b2);
    vstd::arithmetic::power2::lemma_pow2_pos(a1);
    vstd::arithmetic::power2::lemma_pow2_pos(a2);
    vstd::arithmetic::power2::lemma_pow2_adds(b2, a1);
    vstd::arithmetic::power2::lemma_pow2_adds(b1, a2);
    lemma_pow2_step(b1 + a2);
    if b2 + a1 > b1 + a2 + 1 {
        vstd::arithmetic::power2::lemma_pow2_strictly_increases(b1 + a2 + 1, b2 + a1);
    }
    assert(pb2 * pa1 >= 2 * (pb1 * pa2));
    let low = MANT_LOW as int;
    assert(low * (d * pb2) > n * pa2) by (nonlinear_arith)
        requires
            n * pa1 < 2 * low * (d * pb1),
            pb2 * pa1 >= 2 * (pb1 * pa2),
            pa1 > 0,
            pa2 > 0,
            low > 0,
            d > 0,
    {
        assert((n * pa1) * pa2 < (2 * low * (d * pb1)) * pa2);
        assert((low * (d * pb2)) * pa1 == (low * d) * (pb2 * pa1));
        assert((2 * low * (d * pb1)) * pa2 == (low * d) * (2 * (pb1 * pa2)));
        assert((low * d) * (pb2 * pa1) >= (low * d) * (2 * (pb1 * pa2)));
        assert((n * pa1) * pa2 == (n * pa2) * pa1);
    }
}

/// What `nearest` is, once the binade is known.
pub proof fn lemma_nearest_in(n: nat, d: nat, e: int)
    requires
        n > 0,
        d > 0,
        in_binade(n, d, e),
    ensures
        nearest(n, d) == ({
            let m = nearest_int(over(n, -e), under(d, -e));
            if m == MANT_HIGH {
                Float { mant: MANT_LOW as nat, exp: e + 1 }
            } else {
                Float { mant: m, exp: e }
            }
        }),
{
    let f = choose|f: int| in_binade(n, d, f);
    lemma_binade_unique(n, d, e, f);
}

/// Rounds the fraction `n / d`.
fn round_ratio(n: u128, d: u128) -> (r: Binary64)
    requires
        n < 0x10_0000_0000_0000_0000_0000_0000_0000,
        0 < d < 0x1_0000_0000_0000_0000,
    ensures
        r@ == nearest(n as nat, d as nat),
        r@.normal(),
        n > 0 ==> r.mant > 0,
        -121 <= r.exp <= 121,
{
    if n == 0 {
        return Binary64 { mant: 0, exp: 0 };
    }
    let low: u128 = MANT_LOW as u128;
    let high: u128 = MANT_HIGH as u128;
    let mut num: u128 = n;
    let mut den: u128 = d;
    let mut e: i32 = 0;
    proof {
        lemma_pow2_step(0);
        assert(n * pow2(0) == n) by (nonlinear_arith)
            requires
                pow2(0) == 1,
        ;
        assert(low * d < 0x10_0000_0000_0000_0000_0000_0000_0000) by (nonlinear_arith)
            requires
                low == 0x10_0000_0000_0000,
                d < 0x1_0000_0000_0000_0000,
        ;
    }
    let limit: u128 = low * d;
    while num < limit
        invariant
            low == MANT_LOW,
            0 < n,
            0 < d < 0x1_0000_0000_0000_0000,
            den == d,
            num >= n,
            -120 <= e <= 0,
            num == n * pow2((-e) as nat),
            num < 2 * limit || e == 0,
            e < 0 ==> num < 0x40_0000_0000_0000_0000_0000_0000_0000,
            pow2((-e) as nat) <= num,
            high == 2 * low,
            limit == low * den,
            limit < 0x10_0000_0000_0000_0000_0000_0000_0000,
        decreases 2 * limit - num,
    {
        proof {
            lemma_pow2_step((-e) as nat);
            let k = (-e) as nat;
            assert(2 * (n * pow2(k)) == n * (2 * pow2(k))) by (nonlinear_arith);
            assert(k < 117) by {
                if k >= 117 {
                    if k > 117 {
                        vstd::arithmetic::power2::lemma_pow2_strictly_increases(117, k);
                    }
                    vstd::arithmetic::power2::lemma_pow2_adds(64, 53);
                    vstd::arithmetic::power2::lemma2_to64();
                    vstd::arithmetic::power2::lemma2_to64_rest();
                }
            }
        }
        num = num * 2;
        e = e - 1;
    }
    proof {
        assert(limit == low * den && 2 * limit == high * den) by (nonlinear_arith)
            requires
                limit == low * d,
                den == d,
                high == 2 * low,
        ;
    }
    while num >= high * den
        invariant
            low == MANT_LOW,
            high == MANT_HIGH,
            0 < n < 0x10_0000_0000_0000_0000_0000_0000_0000,
            0 < d < 0x1_0000_0000_0000_0000,
            num >= low * den,
            -120 <= e <= 120,
            e <= 0 ==> num == n * pow2((-e) as nat) && den == d,
            e > 0 ==> num == n && den == d * pow2(e as nat),
            e < 0 ==> num < high * den,
            den > 0,
            e >= 0 ==> pow2(e as nat) <= den,
            num < 0x40_0000_0000_0000_0000_0000_0000_0000,
            pow2(0) == 1,
        decreases num - den,
    {
        proof {
            lemma_pow2_step(e as nat);
            let k = e as nat;
            assert(2 * (d * pow2(k)) == d * (2 * pow2(k))) by (nonlinear_arith);
            assert(d * pow2(0) == d) by (nonlinear_arith)
                requires
                    pow2(0) == 1,
            ;
            assert(n * pow2(0) == n) by (nonlinear_arith)
                requires
                    pow2(0) == 1,
            ;
            assert(high * den == low * (den * 2)) by (nonlinear_arith)
                requires
                    high == 2 * low,
            ;
            assert(den <= num) by (nonlinear_arith)
                requires
                    num >= high * den,
                    high >= 2,
            ;
            assert(k < 119) by {
                if k >= 119 {
                    if k > 119 {
                        vstd::arithmetic::power2::lemma_pow2_strictly_increases(119, k);
                    }
                    vstd::arithmetic::power2::lemma_pow2_adds(64, 55);
                    vstd::arithmetic::power2::lemma2_to64();
                    vstd::arithmetic::power2::lemma2_to64_rest();
                }
            }
        }
        den = den * 2;
        e = e + 1;
    }
    let q: u128 = num / den;
    let r: u128 = num % den;
    proof {
        assert(num == den * q + r && r < den) by (nonlinear_arith)
            requires
                q == num / den,
                r == num % den,
                den > 0,
        ;
        assert(low <= q < high) by (nonlinear_arith)
            requires
                num == den * q + r,
                r < den,
                low * den <= num < high * den,
                den > 0,
        ;
        assert(in_binade(n as nat, d as nat, e as int));
        lemma_nearest_in(n as nat, d as nat, e as int);
    }
    let m: u128 = if 2 * r > den || (2 * r == den && q % 2 == 1) {
        q + 1
    } else {
        q
    };
    if m == high {
        Binary64 { mant: MANT_LOW, exp: e + 1 }
    } else {
        Binary64 { mant: m as u64, exp: e }
    }
}

/// The power of two with exponent `k`.
fn two_to(k: u32) -> (r: u128)
    requires
        k <= 120,
    ensures
        r == pow2(k as nat),
        r > 0,
        r <= 0x100_0000_0000_0000_0000_0000_0000_0000,
{
    let mut r: u128 = 1;
    let mut i: u32 = 0;
    proof {
        lemma_pow2_step(0);
    }
    while i < k
        invariant
            0 <= i <= k <= 120,
            r == pow2(i as nat),
            r > 0,
        decreases k - i,
    {
        proof {
            lemma_pow2_step(i as nat);
            lemma_pow2_bound(i as nat);
        }
        r = r * 2;
        i = i + 1;
    }
    proof {
        lemma_pow2_bound(k as nat);
    }
    r
}

proof fn lemma_pow2_bound(k: nat)
    ensures
        k <= 120 ==> pow2(k) <= 0x100_0000_0000_0000_0000_0000_0000_0000,
        k >= 120 ==> pow2(k) >= 0x100_0000_0000_0000_0000_0000_0000_0000,
        k > 0 ==> pow2(k) >= 2,
{
    vstd::arithmetic::power2::lemma2_to64();
    vstd::arithmetic::power2::lemma2_to64_rest();
    vstd::arithmetic::power2::lemma_pow2_adds(64, 56);
    if k < 120 {
        vstd::arithmetic::power2::lemma_pow2_strictly_increases(k, 120);
    } else if k > 120 {
        vstd::arithmetic::power2::lemma_pow2_strictly_increases(120, k);
    }
    if k > 1 {
        vstd::arithmetic::power2::lemma_pow2_strictly_increases(1, k);
    }
}

/// The power of ten with exponent `k`.
fn ten_to(k: u32) -> (r: u128)
    requires
        k <= 6,
    ensures
        r == pow(10, k as nat),
        0 < r <= 1_000_000,
{
    let mut r: u128 = 1;
    let mut i: u32 = 0;
    proof {
        vstd::arithmetic::power::lemma_pow0(10);
    }
    while i < k
        invariant
            0 <= i <= k <= 6,
            r == pow(10, i as nat),
            0 < r,
            i == 0 ==> r == 1,
            i == 1 ==> r == 10,
            i == 2 ==> r == 100,
            i == 3 ==> r == 1_000,
            i == 4 ==> r == 10_000,
            i == 5 ==> r == 100_000,
            i == 6 ==> r == 1_000_000,
        decreases k - i,
    {
        proof {
            vstd::arithmetic::power::lemma_pow_adds(10, i as nat, 1);
            vstd::arithmetic::power::lemma_pow1(10);
        }
        r = r * 10;
        i = i + 1;
    }
    r
}

/// The last `width` digits of a number.
pub open spec fn padded(n: nat, width: nat) -> Seq<char>
    decreases width,
{
    if width == 0 {
        Seq::empty()
    } else {
        padded(n / 10, (width - 1) as nat).push(text::digit_char((n % 10) as int))
    }
}

fn push_padded(out: &mut String, n: u128, width: u32)
    ensures
        final(out)@ == old(out)@ + padded(n as nat, width as nat),
    decreases width,
{
    if width > 0 {
        push_padded(out, n / 10, width - 1);
        let d: u8 = (n % 10) as u8;
        out.push((48 + d) as char);
    }
    assert(out@ =~= old(out)@ + padded(n as nat, width as nat));
}

/// The number in decimal with `places` digits after the point, rounded to the
/// nearest, ties to even.
pub open spec fn fixed_text(x: Float, places: nat) -> Seq<char> {
    let ten = pow(10, places) as nat;
    let n = nearest_int(x.above() * ten, x.below());
    text::decimal(n / ten) + seq!['.'] + padded(n % ten, places)
}

impl Binary64 {
    /// The number one.
    pub fn one() -> (r: Binary64)
        ensures
            r@ == float_one(),
            r@.normal(),
            r.moderate(),
    {
        Binary64 { mant: MANT_LOW, exp: -52 }
    }

    /// The number lies far within what the exponent can hold.
    pub open spec fn moderate(self) -> bool {
        self@.normal() && -100_000 <= self.exp <= 100_000
    }

    /// The number nearest to an integer.
    pub fn from_u64(n: u64) -> (r: Binary64)
        ensures
            r@ == nearest(n as nat, 1),
            r@.normal(),
            n > 0 ==> r.mant > 0,
            -52 <= r.exp <= 12,
    {
        proof {
            vstd::arithmetic::power2::lemma2_to64();
            vstd::arithmetic::power2::lemma2_to64_rest();
            if n > 0 {
                lemma_nearest_range(n as nat, 1, 0, 64);
            }
        }
        round_ratio(n as u128, 1)
    }

    /// The number nearest to a fraction.
    pub fn ratio(n: u64, d: u64) -> (r: Binary64)
        requires
            d > 0,
        ensures
            r@ == nearest(n as nat, d as nat),
            r@.normal(),
            n > 0 ==> r.mant > 0,
            -121 <= r.exp <= 121,
    {
        round_ratio(n as u128, d as u128)
    }

    /// The product, rounded.
    pub fn mul(self, other: Binary64) -> (r: Binary64)
        requires
            self.moderate(),
            other.moderate(),
        ensures
            r@ == float_mul(self@, other@),
            r@.normal(),
            r.mant == 0 || self.exp + other.exp + 52 <= r.exp <= self.exp + other.exp + 54,
            r.mant == 0 <==> self.mant == 0 || other.mant == 0,
    {
        proof {
            assert((self.mant as u128) * (other.mant as u128)
                < 0x10_0000_0000_0000_0000_0000_0000_0000) by (nonlinear_arith)
                requires
                    self.mant < 0x20_0000_0000_0000,
                    other.mant < 0x20_0000_0000_0000,
            ;
            if self.mant > 0 && other.mant > 0 {
                let p = self.mant * other.mant;
                assert(p >= 0x100_0000_0000_0000_0000_0000_0000) by (nonlinear_arith)
                    requires
                        p == self.mant * other.mant,
                        self.mant >= 0x10_0000_0000_0000,
                        other.mant >= 0x10_0000_0000_0000,
                ;
                assert(p < 0x400_0000_0000_0000_0000_0000_0000) by (nonlinear_arith)
                    requires
                        p == self.mant * other.mant,
                        self.mant < 0x20_0000_0000_0000,
                        other.mant < 0x20_0000_0000_0000,
                ;
                vstd::arithmetic::power2::lemma2_to64();
                vstd::arithmetic::power2::lemma2_to64_rest();
                vstd::arithmetic::power2::lemma_pow2_adds(64, 40);
                vstd::arithmetic::power2::lemma_pow2_adds(64, 42);
                lemma_nearest_range(p as nat, 1, 104, 106);
            } else {
                assert(self.mant * other.mant == 0) by (nonlinear_arith)
                    requires
                        self.mant == 0 || other.mant == 0,
                ;
            }
        }
        let x = round_ratio(self.mant as u128 * other.mant as u128, 1);
        if x.mant == 0 {
            x
        } else {
            Binary64 { mant: x.mant, exp: x.exp + self.exp + other.exp }
        }
    }

    /// The quotient, rounded.
    pub fn div(self, other: Binary64) -> (r: Binary64)
        requires
            self.moderate(),
            other.moderate(),
            other.mant > 0,
        ensures
            r@ == float_div(self@, other@),
            r@.normal(),
            r.mant == 0 || self.exp - other.exp - 53 <= r.exp <= self.exp - other.exp - 51,
            r.mant == 0 <==> self.mant == 0,
    {
        proof {
            vstd::arithmetic::power2::lemma2_to64();
            if self.mant > 0 {
                let m = self.mant as nat;
                let two = pow2(1);
                assert(over(m, 1) == m * two);
                assert(m * two == 2 * m) by (nonlinear_arith)
                    requires
                        two == 2,
                ;
                lemma_nearest_range(self.mant as nat, other.mant as nat, -1, 1);
            }
        }
        let x = round_ratio(self.mant as u128, other.mant as u128);
        if x.mant == 0 {
            x
        } else {
            Binary64 { mant: x.mant, exp: x.exp + (self.exp - other.exp) }
        }
    }

    /// Tells whether the number is at least another.
    pub fn at_least(self, other: Binary64) -> (r: bool)
        requires
            self@.normal(),
            other@.normal(),
        ensures
            r == float_ge(self@, other@),
    {
        proof {
            lemma_compare(self@, other@);
        }
        if other.mant == 0 {
            true
        } else if self.mant == 0 {
            false
        } else if self.exp != other.exp {
            self.exp > other.exp
        } else {
            self.mant >= other.mant
        }
    }

    /// The number without its fraction, kept within 64 bits.
    pub fn floor(self) -> (r: u64)
        requires
            self@.normal(),
        ensures
            r == clamp64(float_floor(self@)),
    {
        if self.exp >= 0 {
            return self.whole();
        }
        let ghost k = (-self.exp) as nat;
        proof {
            lemma_pow2_bound(k);
        }
        if self.exp < -120 {
            assert(float_floor(self@) == 0) by {
                assert(self.mant as nat / pow2(k) == 0) by {
                    vstd::arithmetic::div_mod::lemma_basic_div(self.mant as int, pow2(k) as int);
                }
            }
            return 0;
        }
        let den = two_to((-self.exp) as u32);
        let r = self.mant as u128 / den;
        assert(r <= self.mant) by (nonlinear_arith)
            requires
                r == self.mant as u128 / den,
                den > 0,
        ;
        r as u64
    }

    /// The nearest integer, halves rounded up, kept within 64 bits.
    pub fn round(self) -> (r: u64)
        requires
            self@.normal(),
        ensures
            r == clamp64(float_round(self@)),
    {
        if self.exp >= 0 {
            proof {
                let a = self@.above();
                assert((2 * a + 1) / 2 == a);
                assert(a / 1 == a);
            }
            return self.whole();
        }
        let ghost k = (-self.exp) as nat;
        proof {
            lemma_pow2_bound(k);
        }
        if self.exp < -120 {
            assert((2 * (self.mant as nat) + pow2(k)) / (2 * pow2(k)) == 0) by {
                vstd::arithmetic::div_mod::lemma_basic_div(
                    2 * self.mant + pow2(k),
                    2 * pow2(k) as int,
                );
            }
            return 0;
        }
        let den = two_to((-self.exp) as u32);
        let r = (2 * (self.mant as u128) + den) / (2 * den);
        assert(r <= self.mant + 1) by (nonlinear_arith)
            requires
                r == (2 * (self.mant as u128) + den) / (2 * den),
                den > 0,
        ;
        r as u64
    }

    /// The number where it has no fraction.
    fn whole(self) -> (r: u64)
        requires
            self@.normal(),
            self.exp >= 0,
        ensures
            r == clamp64(self@.above()),
            self@.below() == 1,
            r == clamp64(float_floor(self@)),
    {
        proof {
            lemma_pow2_step(0);
            lemma_whole(self@);
            assert(self@.above() / 1 == self@.above());
            vstd::arithmetic::power2::lemma2_to64();
        }
        if self.mant == 0 {
            return 0;
        }
        if self.exp >= 12 {
            proof {
                if self.exp > 12 {
                    vstd::arithmetic::power2::lemma_pow2_strictly_increases(12, self.exp as nat);
                }
                assert(self.mant * pow2(self.exp as nat) > u64::MAX) by (nonlinear_arith)
                    requires
                        self.mant >= 0x10_0000_0000_0000,
                        pow2(self.exp as nat) >= 0x1000,
                ;
            }
            return u64::MAX;
        }
        let p = two_to(self.exp as u32);
        proof {
            if self.exp < 11 {
                vstd::arithmetic::power2::lemma_pow2_strictly_increases(self.exp as nat, 11);
            }
            assert(self.mant * p <= u64::MAX) by (nonlinear_arith)
                requires
                    self.mant < 0x20_0000_0000_0000,
                    p <= 0x800,
            ;
        }
        (self.mant as u128 * p) as u64
    }

    /// Writes the number in decimal with a fixed number of digits after the
    /// point.
    pub fn fixed(self, places: u32) -> (out: String)
        requires
            self@.normal(),
            self.exp <= 40,
            places <= 6,
        ensures
            out@ == fixed_text(self@, places as nat),
    {
        let ten = ten_to(places);
        let ghost a = self@.above() * ten;
        let ghost b = self@.below();
        proof {
            lemma_pow2_step(0);
            assert(self.mant as u128 * ten < 0x1000_0000_0000_0000_0000) by (nonlinear_arith)
                requires
                    self.mant < 0x20_0000_0000_0000,
                    ten <= 1_000_000,
            ;
        }
        let scaled: u128 = self.mant as u128 * ten;
        let n: u128 = if self.exp >= 0 {
            let p = two_to(self.exp as u32);
            proof {
                lemma_pow2_step(40);
                vstd::arithmetic::power2::lemma2_to64_rest();
                if self.exp < 40 {
                    vstd::arithmetic::power2::lemma_pow2_strictly_increases(self.exp as nat, 40);
                }
                assert(scaled * p < 0x1_0000_0000_0000_0000_0000_0000_0000_0000) by (nonlinear_arith)
                    requires
                        scaled < 0x1000_0000_0000_0000_0000,
                        p <= 0x100_0000_0000,
                ;
                lemma_whole(self@);
                let m = self.mant as int;
                assert(a == scaled * p) by (nonlinear_arith)
                    requires
                        a == (m * p) * ten,
                        scaled == m * ten,
                ;
                assert(a / 1 == a && a % 1 == 0);
            }
            scaled * p
        } else {
            let ghost k = (-self.exp) as nat;
            proof {
                lemma_pow2_bound(k);
                assert(b == pow2(k));
                assert(a == scaled);
            }
            if self.exp < -120 {
                proof {
                    vstd::arithmetic::div_mod::lemma_basic_div(a as int, b as int);
                    vstd::arithmetic::div_mod::lemma_small_mod(a as nat, b);
                }
                0
            } else {
                let den = two_to((-self.exp) as u32);
                let q: u128 = scaled / den;
                let r: u128 = scaled % den;
                proof {
                    assert(q <= scaled && r < den) by (nonlinear_arith)
                        requires
                            q == scaled / den,
                            r == scaled % den,
                            den > 0,
                    ;
                }
                if 2 * r > den || (2 * r == den && q % 2 == 1) {
                    q + 1
                } else {
                    q
                }
            }
        };
        assert(n == nearest_int(a as nat, b));
        let mut out = String::new();
        push_decimal(&mut out, n / ten);
        out.push('.');
        push_padded(&mut out, n % ten, places);
        assert(out@ =~= fixed_text(self@, places as nat));
        out
    }
}

/// A number whose exponent is not negative is an integer.
pub proof fn lemma_whole(x: Float)
    requires
        x.exp >= 0,
    ensures
        x.above() == x.mant * pow2(x.exp as nat),
        x.below() == 1,
{
    lemma_pow2_step(0);
    if x.exp == 0 {
        let m = x.mant as int;
        let p = pow2(0);
        assert(m * p == m) by (nonlinear_arith)
            requires
                p == 1,
        ;
    }
}

/// Two normal numbers compare by exponent, then by integer.
pub proof fn lemma_compare(x: Float, y: Float)
    requires
        x.normal(),
        y.normal(),
    ensures
        float_ge(x, y) == (y.mant == 0 || (x.mant != 0 && (x.exp > y.exp || (x.exp == y.exp
            && x.mant >= y.mant)))),
{
    if y.mant == 0 {
        assert(y.above() == 0);
        assert(float_ge(x, y)) by (nonlinear_arith)
            requires
                y.above() == 0,
                float_ge(x, y) == (x.above() * y.below() >= y.above() * x.below()),
                x.above() >= 0,
                y.below() >= 0,
        ;
    } else {
        let ax: nat = if x.exp > 0 { x.exp as nat } else { 0 };
        let bx: nat = if x.exp < 0 { (-x.exp) as nat } else { 0 };
        let ay: nat = if y.exp > 0 { y.exp as nat } else { 0 };
        let by: nat = if y.exp < 0 { (-y.exp) as nat } else { 0 };
        lemma_pow2_step(0);
        let pax = pow2(ax);
        let pbx = pow2(bx);
        let pay = pow2(ay);
        let pby = pow2(by);
        assert(x.above() == x.mant * pax) by (nonlinear_arith)
            requires
                x.above() == (if x.exp > 0 { x.mant * pax } else { x.mant }),
                x.exp <= 0 ==> pax == 1,
        ;
        assert(y.above() == y.mant * pay) by (nonlinear_arith)
            requires
                y.above() == (if y.exp > 0 { y.mant * pay } else { y.mant }),
                y.exp <= 0 ==> pay == 1,
        ;
        assert(x.below() == pbx) by (nonlinear_arith)
            requires
                x.below() == (if x.exp < 0 { 1 * pbx } else { 1 }),
                x.exp >= 0 ==> pbx == 1,
        ;
        assert(y.below() == pby) by (nonlinear_arith)
            requires
                y.below() == (if y.exp < 0 { 1 * pby } else { 1 }),
                y.exp >= 0 ==> pby == 1,
        ;
        vstd::arithmetic::power2::lemma_pow2_adds(ax, by);
        vstd::arithmetic::power2::lemma_pow2_adds(ay, bx);
        let l = pow2(ax + by);
        let r = pow2(ay + bx);
        vstd::arithmetic::power2::lemma_pow2_pos(ax + by);
        vstd::arithmetic::power2::lemma_pow2_pos(ay + bx);
        assert(x.above() * y.below() == x.mant * l) by (nonlinear_arith)
            requires
                x.above() == x.mant * pax,
                y.below() == pby,
                l == pax * pby,
        ;
        assert(y.above() * x.below() == y.mant * r) by (nonlinear_arith)
            requires
                y.above() == y.mant * pay,
                x.below() == pbx,
                r == pay * pbx,
        ;
        if x.mant == 0 {
            assert(x.mant * l < y.mant * r) by (nonlinear_arith)
                requires
                    x.mant == 0,
                    y.mant > 0,
                    r > 0,
            ;
        } else if x.exp == y.exp {
            assert(l == r);
            assert(x.mant * l >= y.mant * r <==> x.mant >= y.mant) by (nonlinear_arith)
                requires
                    l == r,
                    l > 0,
            ;
        } else if x.exp > y.exp {
            lemma_pow2_step(ay + bx);
            if ax + by > ay + bx + 1 {
                vstd::arithmetic::power2::lemma_pow2_strictly_increases(ay + bx + 1, ax + by);
            }
            assert(x.mant * l >= y.mant * r) by (nonlinear_arith)
                requires
                    l >= 2 * r,
                    r > 0,
                    2 * x.mant >= y.mant,
            ;
        } else {
            lemma_pow2_step(ax + by);
            if ay + bx > ax + by + 1 {
                vstd::arithmetic::power2::lemma_pow2_strictly_increases(ax + by + 1, ay + bx);
            }
            assert(x.mant * l < y.mant * r) by (nonlinear_arith)
                requires
                    r >= 2 * l,
                    l > 0,
                    2 * y.mant > x.mant,
            ;
        }
    }
}

/// The positive part of an exponent.
pub open spec fn pos(e: int) -> nat {
    if e > 0 {
        e as nat
    } else {
        0
    }
}

/// Powers of two in a fraction, each on its side of the line.
pub proof fn lemma_frac(n: nat, d: nat, e: int)
    ensures
        over(n, -e) == n * pow2(pos(-e)),
        under(d, -e) == d * pow2(pos(e)),
        pow2(pos(e)) > 0,
        pow2(pos(-e)) > 0,
{
    lemma_pow2_step(0);
    vstd::arithmetic::power2::lemma_pow2_pos(pos(e));
    vstd::arithmetic::power2::lemma_pow2_pos(pos(-e));
    let one = pow2(0);
    assert(n * one == n && d * one == d) by (nonlinear_arith)
        requires
            one == 1,
    ;
}

/// `n / d` is at least `2^j`.
pub open spec fn at_least_pow2(n: nat, d: nat, j: int) -> bool {
    over(n, -j) >= under(d, -j)
}

/// A number that is at least `2^j` is at least every smaller power of two
/// too.
proof fn lemma_pow2_chain(n: nat, d: nat, j: int, k: int)
    requires
        d > 0,
        k <= j,
        at_least_pow2(n, d, j),
    ensures
        at_least_pow2(n, d, k),
{
    lemma_frac(n, d, j);
    lemma_frac(n, d, k);
    let aj = pow2(pos(-j));
    let bj = pow2(pos(j));
    let ak = pow2(pos(-k));
    let bk = pow2(pos(k));
    vstd::arithmetic::power2::lemma_pow2_adds(pos(j), pos(-k));
    vstd::arithmetic::power2::lemma_pow2_adds(pos(k), pos(-j));
    if pos(k) + pos(-j) < pos(j) + pos(-k) {
        vstd::arithmetic::power2::lemma_pow2_strictly_increases(
            pos(k) + pos(-j),
            pos(j) + pos(-k),
        );
    }
    assert(bj * ak >= bk * aj);
    assert(n * ak >= d * bk) by (nonlinear_arith)
        requires
            n * aj >= d * bj,
            bj * ak >= bk * aj,
            aj > 0,
            ak > 0,
            d > 0,
    {
        assert((n * aj) * ak >= (d * bj) * ak);
        assert((d * bj) * ak == d * (bj * ak));
        assert(d * (bj * ak) >= d * (bk * aj));
        assert((n * aj) * ak == (n * ak) * aj);
        assert(d * (bk * aj) == (d * bk) * aj);
    }
}

/// Being in a binade, said with powers of two.
proof fn lemma_binade_pow2(n: nat, d: nat, e: int)
    requires
        d > 0,
    ensures
        in_binade(n, d, e) <==> at_least_pow2(n, d, e + 52) && !at_least_pow2(n, d, e + 53),
{
    lemma_frac(n, d, e);
    lemma_frac(n, d, e + 52);
    lemma_frac(n, d, e + 53);
    lemma_shift_pow2(n, d, e, 52);
    lemma_shift_pow2(n, d, e, 53);
    vstd::arithmetic::power2::lemma2_to64();
    vstd::arithmetic::power2::lemma2_to64_rest();
}

proof fn lemma_shift_pow2(n: nat, d: nat, e: int, c: nat)
    requires
        d > 0,
    ensures
        n * pow2(pos(-e)) >= pow2(c) * (d * pow2(pos(e))) <==> n * pow2(pos(-(e + c))) >= d * pow2(
            pos(e + c),
        ),
{
    let a = pow2(pos(-e));
    let b = pow2(pos(e));
    let a2 = pow2(pos(-(e + c)));
    let b2 = pow2(pos(e + c));
    let p = pow2(c);
    vstd::arithmetic::power2::lemma_pow2_pos(pos(-e));
    vstd::arithmetic::power2::lemma_pow2_pos(pos(-(e + c)));
    vstd::arithmetic::power2::lemma_pow2_adds(c, pos(e));
    vstd::arithmetic::power2::lemma_pow2_adds(c + pos(e), pos(-(e + c)));
    vstd::arithmetic::power2::lemma_pow2_adds(pos(e + c), pos(-e));
    assert(c + pos(e) + pos(-(e + c)) == pos(e + c) + pos(-e));
    assert((p * b) * a2 == b2 * a);
    assert(n * a >= p * (d * b) <==> n * a2 >= d * b2) by (nonlinear_arith)
        requires
            (p * b) * a2 == b2 * a,
            a > 0,
            a2 > 0,
    {
        let l = n * a;
        let r = p * (d * b);
        let l2 = n * a2;
        let r2 = d * b2;
        assert(l * a2 == l2 * a);
        assert(r * a2 == d * ((p * b) * a2));
        assert(r2 * a == d * (b2 * a));
        assert(r * a2 == r2 * a);
        assert(l >= r <==> l * a2 >= r * a2);
        assert(l2 >= r2 <==> l2 * a >= r2 * a);
    }
}

/// Every positive fraction lies in some binade.
pub proof fn lemma_binade_exists(n: nat, d: nat)
    requires
        n > 0,
        d > 0,
    ensures
        exists|e: int| in_binade(n, d, e),
{
    lemma_outer(n, d);
    let e = lemma_find_binade(n, d, -(d as int), n as int);
    lemma_binade_pow2(n, d, e - 52);
    assert(in_binade(n, d, e - 52));
}

/// A positive fraction is at least `2^-d` and less than `2^n`.
pub proof fn lemma_outer(n: nat, d: nat)
    requires
        n > 0,
        d > 0,
    ensures
        at_least_pow2(n, d, -(d as int)),
        !at_least_pow2(n, d, n as int),
{
    lemma_frac(n, d, -(d as int));
    lemma_frac(n, d, n as int);
    lemma_pow2_exceeds(d);
    lemma_pow2_exceeds(n);
    lemma_pow2_step(0);
    let pd = pow2(d);
    let pn = pow2(n);
    assert(n * pd >= d * 1) by (nonlinear_arith)
        requires
            n >= 1,
            pd > d,
    ;
    assert(n * 1 < d * pn) by (nonlinear_arith)
        requires
            d >= 1,
            pn > n,
    ;
}

proof fn lemma_pow2_exceeds(k: nat)
    ensures
        pow2(k) > k,
    decreases k,
{
    lemma_pow2_step(0);
    if k > 0 {
        lemma_pow2_exceeds((k - 1) as nat);
        lemma_pow2_step((k - 1) as nat);
    }
}

proof fn lemma_find_binade(n: nat, d: nat, lo: int, hi: int) -> (e: int)
    requires
        d > 0,
        lo < hi,
        at_least_pow2(n, d, lo),
        !at_least_pow2(n, d, hi),
    ensures
        at_least_pow2(n, d, e),
        !at_least_pow2(n, d, e + 1),
    decreases hi - lo,
{
    if at_least_pow2(n, d, lo + 1) {
        lemma_find_binade(n, d, lo + 1, hi)
    } else {
        lo
    }
}

/// Where the rounding of a positive fraction lies.
pub proof fn lemma_nearest_range(n: nat, d: nat, lo: int, hi: int)
    requires
        n > 0,
        d > 0,
        at_least_pow2(n, d, lo),
        !at_least_pow2(n, d, hi),
    ensures
        MANT_LOW <= nearest(n, d).mant < MANT_HIGH,
        lo - 52 <= nearest(n, d).exp <= hi - 52,
        nearest(n, d).exp == hi - 52 ==> nearest(n, d).mant == MANT_LOW,
{
    lemma_binade_exists(n, d);
    let e = choose|e: int| in_binade(n, d, e);
    lemma_binade_pow2(n, d, e);
    if lo > e + 52 {
        lemma_pow2_chain(n, d, lo, e + 53);
    }
    if hi <= e + 52 {
        lemma_pow2_chain(n, d, e + 52, hi);
    }
    let a = over(n, -e);
    let b = under(d, -e);
    lemma_frac(n, d, e);
    let pb = pow2(pos(e));
    assert(b > 0) by (nonlinear_arith)
        requires
            b == d * pb,
            d > 0,
            pb > 0,
    ;
    assert(MANT_LOW <= a / b < MANT_HIGH) by (nonlinear_arith)
        requires
            MANT_LOW * b <= a < MANT_HIGH * b,
            b > 0,
    {
        assert(a == b * (a / b) + a % b);
        assert(0 <= a % b < b);
    }
}

/// One.
pub open spec fn float_one() -> Float {
    Float { mant: MANT_LOW as nat, exp: -52 }
}

/// Rounding does not depend on how a fraction is written.
pub proof fn lemma_nearest_scaled(n: nat, d: nat, k: nat)
    requires
        n > 0,
        d > 0,
        k > 0,
    ensures
        nearest(k * n, k * d) == nearest(n, d),
{
    lemma_binade_exists(n, d);
    let e = choose|e: int| in_binade(n, d, e);
    lemma_frac(n, d, e);
    let kn = k * n;
    let kd = k * d;
    assert(kn > 0 && kd > 0) by (nonlinear_arith)
        requires
            kn == k * n,
            kd == k * d,
            n > 0,
            d > 0,
            k > 0,
    ;
    lemma_frac(kn, kd, e);
    let a = over(n, -e);
    let b = under(d, -e);
    let pa = pow2(pos(-e));
    let pb = pow2(pos(e));
    assert(over(kn, -e) == k * a) by (nonlinear_arith)
        requires
            over(kn, -e) == kn * pa,
            a == n * pa,
            kn == k * n,
    ;
    assert(under(kd, -e) == k * b && b > 0) by (nonlinear_arith)
        requires
            under(kd, -e) == kd * pb,
            b == d * pb,
            kd == k * d,
            d > 0,
            pb > 0,
    ;
    assert(MANT_LOW * (k * b) <= k * a < MANT_HIGH * (k * b)) by (nonlinear_arith)
        requires
            MANT_LOW * b <= a < MANT_HIGH * b,
            k > 0,
    ;
    assert(in_binade(kn, kd, e));
    lemma_nearest_in(n, d, e);
    lemma_nearest_in(kn, kd, e);
    lemma_nearest_int_scaled(a, b, k);
}

proof fn lemma_nearest_int_scaled(a: nat, b: nat, k: nat)
    requires
        b > 0,
        k > 0,
    ensures
        nearest_int(k * a, k * b) == nearest_int(a, b),
{
    let q = a / b;
    let r = a % b;
    vstd::arithmetic::div_mod::lemma_fundamental_div_mod(a as int, b as int);
    assert(k * a == q * (k * b) + k * r && 0 <= k * r < k * b) by (nonlinear_arith)
        requires
            a == b * q + r,
            0 <= r < b,
            k > 0,
    ;
    vstd::arithmetic::div_mod::lemma_fundamental_div_mod_converse(
        (k * a) as int,
        (k * b) as int,
        q as int,
        (k * r) as int,
    );
    assert(2 * (k * r) > k * b <==> 2 * r > b) by (nonlinear_arith)
        requires
            k > 0,
    ;
    assert(2 * (k * r) == k * b <==> 2 * r == b) by (nonlinear_arith)
        requires
            k > 0,
    ;
}

/// Twice a fraction, divided by twice a power of two, is what it was.
proof fn lemma_doubled_fraction(n: nat, d: nat, e: int)
    ensures
        e >= 0 ==> over(2 * n, -(e + 1)) == 2 * over(n, -e) && under(d, -(e + 1)) == 2 * under(
            d,
            -e,
        ),
        e < 0 ==> over(2 * n, -(e + 1)) == over(n, -e) && under(d, -(e + 1)) == under(d, -e),
{
    lemma_frac(n, d, e);
    lemma_frac(2 * n, d, e + 1);
    let p = pow2(pos(e));
    let q = pow2(pos(-e));
    let p2 = pow2(pos(e + 1));
    let q2 = pow2(pos(-(e + 1)));
    lemma_pow2_step(pos(e));
    lemma_pow2_step(pos(-(e + 1)));
    if e >= 0 {
        assert(p2 == 2 * p && q2 == q);
        assert((2 * n) * q2 == 2 * (n * q)) by (nonlinear_arith)
            requires
                q2 == q,
        ;
        assert(d * p2 == 2 * (d * p)) by (nonlinear_arith)
            requires
                p2 == 2 * p,
        ;
    } else {
        assert(p2 == p && q == 2 * q2);
        assert((2 * n) * q2 == n * q) by (nonlinear_arith)
            requires
                q == 2 * q2,
        ;
    }
}

/// Rounding a fraction that is twice as large gives twice the number.
proof fn lemma_nearest_doubled(n: nat, d: nat)
    requires
        n > 0,
        d > 0,
    ensures
        nearest(2 * n, d) == nearest(n, d).shifted(1),
{
    lemma_binade_exists(n, d);
    let e = choose|e: int| in_binade(n, d, e);
    lemma_doubled_fraction(n, d, e);
    let a = over(n, -e);
    let b = under(d, -e);
    lemma_frac(n, d, e);
    let p = pow2(pos(e));
    assert(b > 0) by (nonlinear_arith)
        requires
            b == d * p,
            d > 0,
            p > 0,
    ;
    assert(in_binade(2 * n, d, e + 1)) by {
        if e >= 0 {
            assert(MANT_LOW * (2 * b) <= 2 * a < MANT_HIGH * (2 * b)) by (nonlinear_arith)
                requires
                    MANT_LOW * b <= a < MANT_HIGH * b,
            ;
        }
    }
    lemma_nearest_in(n, d, e);
    lemma_nearest_in(2 * n, d, e + 1);
    lemma_nearest_int_scaled(a, b, 2);
    lemma_outer(n, d);
    lemma_nearest_range(n, d, -(d as int), n as int);
}

/// A positive number divided by itself is one.
pub proof fn lemma_div_self(x: Float)
    requires
        x.mant > 0,
    ensures
        float_div(x, x) == float_one(),
{
    lemma_nearest_scaled(1, 1, x.mant);
    assert(x.mant * 1 == x.mant);
    lemma_one();
}

/// One is what the fraction of one and one rounds to.
pub proof fn lemma_one()
    ensures
        nearest(1, 1) == float_one(),
{
    vstd::arithmetic::power2::lemma2_to64_rest();
    vstd::arithmetic::power2::lemma2_to64();
    lemma_pow2_step(0);
    assert(in_binade(1, 1, -52));
    lemma_nearest_in(1, 1, -52);
}

proof fn lemma_nearest_int_grows(a: nat, c: nat, b: nat)
    requires
        a <= c,
        b > 0,
    ensures
        nearest_int(a, b) <= nearest_int(c, b),
{
    vstd::arithmetic::div_mod::lemma_fundamental_div_mod(a as int, b as int);
    vstd::arithmetic::div_mod::lemma_fundamental_div_mod(c as int, b as int);
    let q = a / b;
    let r = a % b;
    let q2 = c / b;
    let r2 = c % b;
    assert(q < q2 || (q == q2 && r <= r2)) by (nonlinear_arith)
        requires
            a == b * q + r,
            c == b * q2 + r2,
            a <= c,
            0 <= r < b,
            0 <= r2 < b,
    ;
}

/// Rounding keeps the order of fractions.
pub proof fn lemma_nearest_grows(n: nat, m: nat, d: nat)
    requires
        n <= m,
        d > 0,
    ensures
        float_ge(nearest(m, d), nearest(n, d)),
{
    if n == 0 {
        lemma_any_ge_zero(nearest(m, d));
    } else {
        let x = nearest(n, d);
        let y = nearest(m, d);
        lemma_outer(n, d);
        lemma_outer(m, d);
        lemma_nearest_range(n, d, -(d as int), n as int);
        lemma_nearest_range(m, d, -(d as int), m as int);
        lemma_binade_exists(n, d);
        lemma_binade_exists(m, d);
        let e = choose|e: int| in_binade(n, d, e);
        let f = choose|f: int| in_binade(m, d, f);
        lemma_nearest_in(n, d, e);
        lemma_nearest_in(m, d, f);
        lemma_binade_pow2(n, d, e);
        lemma_binade_pow2(m, d, f);
        if f < e {
            assert(at_least_pow2(m, d, e + 52)) by {
                lemma_frac(n, d, e + 52);
                lemma_frac(m, d, e + 52);
                let p = pow2(pos(-(e + 52)));
                assert(m * p >= n * p) by (nonlinear_arith)
                    requires
                        m >= n,
                ;
            }
            lemma_pow2_chain(m, d, e + 52, f + 53);
        }
        if e == f {
            lemma_frac(n, d, e);
            lemma_frac(m, d, e);
            let p = pow2(pos(-e));
            let pb = pow2(pos(e));
            assert(m * p >= n * p) by (nonlinear_arith)
                requires
                    m >= n,
            ;
            assert(d * pb > 0) by (nonlinear_arith)
                requires
                    d > 0,
                    pb > 0,
            ;
            lemma_nearest_int_grows(n * p, m * p, d * pb);
        }
        lemma_compare(y, x);
    }
}

proof fn lemma_any_ge_zero(x: Float)
    ensures
        float_ge(x, float_zero()),
{
    let b = x.below();
    assert(float_zero().above() * b == 0) by (nonlinear_arith)
        requires
            float_zero().above() == 0,
    ;
    let a = x.above();
    let z = float_zero().below();
    assert(a * z >= 0) by (nonlinear_arith);
}

/// A number divided by one that is at least as large is at most one.
pub proof fn lemma_div_at_most_one(x: Float, y: Float)
    requires
        x.normal(),
        y.normal(),
        y.mant > 0,
        float_ge(y, x),
    ensures
        float_ge(float_one(), float_div(x, y)),
{
    lemma_one();
    if x.mant == 0 {
        lemma_any_ge_zero(float_one());
    } else {
        lemma_compare(y, x);
        let r = nearest(x.mant, y.mant);
        vstd::arithmetic::power2::lemma2_to64();
        lemma_pow2_step(0);
        let hi: int = if x.mant <= y.mant { 0 } else { 1 };
        if x.mant == y.mant {
            lemma_div_self(x);
            lemma_nearest_scaled(1, 1, x.mant);
            assert(x.mant * 1 == x.mant);
        } else {
            let two = pow2(1);
            assert(under(y.mant, -1) == y.mant * two);
            assert(y.mant * two == 2 * y.mant) by (nonlinear_arith)
                requires
                    two == 2,
            ;
            assert(over(x.mant, 1) == x.mant * two);
            assert(x.mant * two == 2 * x.mant) by (nonlinear_arith)
                requires
                    two == 2,
            ;
            lemma_nearest_range(x.mant, y.mant, -1, hi);
        }
        lemma_compare(float_one(), float_div(x, y));
    }
}

/// Division keeps the order of the numbers that are divided.
pub proof fn lemma_div_grows(x: Float, z: Float, y: Float)
    requires
        x.normal(),
        z.normal(),
        y.mant > 0,
        float_ge(z, x),
    ensures
        float_ge(float_div(z, y), float_div(x, y)),
{
    if x.mant == 0 {
        lemma_any_ge_zero(float_div(z, y));
    } else {
        lemma_compare(z, x);
        let d = y.mant;
        let a = nearest(x.mant, d);
        let b = nearest(z.mant, d);
        lemma_outer(x.mant, d);
        lemma_nearest_range(x.mant, d, -(d as int), x.mant as int);
        lemma_outer(z.mant, d);
        lemma_nearest_range(z.mant, d, -(d as int), z.mant as int);
        if z.exp == x.exp {
            lemma_nearest_grows(x.mant, z.mant, d);
            lemma_compare(b, a);
        } else {
            lemma_nearest_grows(x.mant, 2 * z.mant, d);
            lemma_nearest_doubled(z.mant, d);
            lemma_compare(b.shifted(1), a);
        }
        lemma_compare(float_div(z, y), float_div(x, y));
    }
}

} // verus!
