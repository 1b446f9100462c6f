//! How near rounded numbers are to exact ones.
//!
//! A number is measured here in units of a power of two that is small enough
//! for it to be an integer, so that exact and rounded values can be compared
//! over the integers.

use crate::binary64;
use crate::binary64::{Float, MANT_HIGH, MANT_LOW};
use crate::decimal;
use crate::numeral;
use crate::text;
use vstd::arithmetic::power::pow;
use vstd::arithmetic::power2::pow2;
use vstd::prelude::*;

verus! {

/// The number in units of `2^-k`, where these are fine enough for it.
pub open spec fn units(x: Float, k: int) -> nat {
    x.mant * pow2((x.exp + k) as nat)
}

/// `a` differs from `b` by at most its part in `2^53`.
pub open spec fn near(a: nat, b: nat) -> bool {
    &&& MANT_HIGH * (a - b) <= b
    &&& MANT_HIGH * (b - a) <= b
}

/// How the fraction that a number is written as goes with its units.
pub proof fn lemma_units_fraction(x: Float, k: nat)
    requires
        x.exp + k >= 0,
    ensures
        units(x, k as int) * x.below() == x.above() * pow2(k),
        x.below() > 0,
        pow2(k) > 0,
{
    let e = x.exp;
    binary64::lemma_frac(1, x.mant, e);
    binary64::lemma_frac(x.mant, 1, -e);
    let p = pow2(binary64::pos(-e));
    let q = pow2(binary64::pos(e));
    let s = pow2((e + k) as nat);
    let kk = pow2(k);
    vstd::arithmetic::power2::lemma_pow2_pos(k);
    vstd::arithmetic::power2::lemma_pow2_adds((e + k) as nat, binary64::pos(-e));
    vstd::arithmetic::power2::lemma_pow2_adds(binary64::pos(e), k);
    assert(s * p == q * kk);
    let m = x.mant;
    assert((m * s) * (1 * p) == (m * q) * kk) by (nonlinear_arith)
        requires
            s * p == q * kk,
    ;
}

/// An integer is at most the floor of a number exactly where it is at most the
/// number.
pub proof fn lemma_floor(x: Float, k: nat, q: nat)
    requires
        x.exp + k >= 0,
    ensures
        q <= binary64::float_floor(x) <==> q * pow2(k) <= units(x, k as int),
{
    lemma_units_fraction(x, k);
    let a = x.above();
    let b = x.below();
    let u = units(x, k as int);
    let kk = pow2(k);
    assert(q <= a / b <==> q * b <= a) by (nonlinear_arith)
        requires
            b > 0,
    {
        assert(a == b * (a / b) + a % b);
        assert(0 <= a % b < b);
        if q <= a / b {
            assert(q * b <= (a / b) * b);
        } else {
            assert(q >= a / b + 1);
            assert(q * b >= (a / b + 1) * b);
        }
    }
    assert(q * b <= a <==> q * kk <= u) by (nonlinear_arith)
        requires
            u * b == a * kk,
            b > 0,
            kk > 0,
    {
        assert((q * b) * kk == (q * kk) * b);
        assert(q * b <= a <==> (q * b) * kk <= a * kk);
        assert(q * kk <= u <==> (q * kk) * b <= u * b);
    }
}

/// An integer is at most the rounding of a number exactly where it is at most
/// the number and a half.
pub proof fn lemma_round(x: Float, k: nat, q: nat)
    requires
        x.exp + k >= 0,
    ensures
        q <= binary64::float_round(x) <==> 2 * q * pow2(k) <= 2 * units(x, k as int) + pow2(k),
{
    lemma_units_fraction(x, k);
    let a = x.above();
    let b = x.below();
    let u = units(x, k as int);
    let kk = pow2(k);
    let c = 2 * a + b;
    let d = 2 * b;
    assert(q <= c / d <==> q * d <= c) by (nonlinear_arith)
        requires
            d > 0,
    {
        assert(c == d * (c / d) + c % d);
        assert(0 <= c % d < d);
        if q <= c / d {
            assert(q * d <= (c / d) * d);
        } else {
            assert(q >= c / d + 1);
            assert(q * d >= (c / d + 1) * d);
        }
    }
    assert(q * (2 * b) <= 2 * a + b <==> 2 * q * kk <= 2 * u + kk) by (nonlinear_arith)
        requires
            u * b == a * kk,
            b > 0,
            kk > 0,
    {
        assert((q * (2 * b)) * kk == (2 * q * kk) * b);
        assert((2 * a + b) * kk == (2 * u + kk) * b);
        assert(q * (2 * b) <= 2 * a + b <==> (q * (2 * b)) * kk <= (2 * a + b) * kk);
        assert(2 * q * kk <= 2 * u + kk <==> (2 * q * kk) * b <= (2 * u + kk) * b);
    }
}

/// Numbers compare as their units do.
pub proof fn lemma_ge(x: Float, y: Float, k: nat)
    requires
        x.exp + k >= 0,
        y.exp + k >= 0,
    ensures
        binary64::float_ge(x, y) <==> units(x, k as int) >= units(y, k as int),
{
    lemma_units_fraction(x, k);
    lemma_units_fraction(y, k);
    let a = x.above();
    let b = x.below();
    let c = y.above();
    let d = y.below();
    let u = units(x, k as int);
    let v = units(y, k as int);
    let kk = pow2(k);
    assert(a * d >= c * b <==> u >= v) by (nonlinear_arith)
        requires
            u * b == a * kk,
            v * d == c * kk,
            b > 0,
            d > 0,
            kk > 0,
    {
        assert((a * d) * kk == (u * b) * d);
        assert((c * b) * kk == (v * d) * b);
        assert(a * d >= c * b <==> (a * d) * kk >= (c * b) * kk);
        assert((u * b) * d == u * (b * d));
        assert((v * d) * b == v * (b * d));
        assert(b * d > 0);
        assert(u >= v <==> u * (b * d) >= v * (b * d));
    }
}

/// The nearest integer to `a / b` differs from it by at most a half.
proof fn lemma_nearest_int(a: nat, b: nat)
    requires
        b > 0,
    ensures
        2 * (binary64::nearest_int(a, b) * b - a) <= b,
        2 * (a - binary64::nearest_int(a, b) * b) <= b,
{
    let q = a / b;
    let r = a % b;
    assert(a == b * q + r && 0 <= r < b) by (nonlinear_arith)
        requires
            b > 0,
            q == a / b,
            r == a % b,
    ;
    assert((q + 1) * b == b * q + b && q * b == b * q) by (nonlinear_arith);
}

/// A fraction, rounded, differs from it by at most its part in `2^53`.
pub proof fn lemma_nearest(n: nat, d: nat, k: nat)
    requires
        n > 0,
        d > 0,
        binary64::nearest(n, d).exp + k >= 1,
    ensures
        near(units(binary64::nearest(n, d), k as int) * d, n * pow2(k)),
{
    binary64::lemma_binade_exists(n, d);
    let e = choose|e: int| binary64::in_binade(n, d, e);
    binary64::lemma_nearest_in(n, d, e);
    binary64::lemma_frac(n, d, e);
    let x = binary64::nearest(n, d);
    let p = pow2(binary64::pos(-e));
    let q = pow2(binary64::pos(e));
    let a = n * p;
    let b = d * q;
    let m = binary64::nearest_int(a, b);
    assert(b > 0) by (nonlinear_arith)
        requires
            b == d * q,
            d > 0,
            q > 0,
    ;
    lemma_nearest_int(a, b);
    let s = pow2((e + k) as nat);
    let kk = pow2(k);
    vstd::arithmetic::power2::lemma_pow2_adds((e + k) as nat, binary64::pos(-e));
    vstd::arithmetic::power2::lemma_pow2_adds(binary64::pos(e), k);
    vstd::arithmetic::power2::lemma_pow2_pos(k);
    assert(s * p == q * kk);
    let u = units(x, k as int);
    assert(u == m * s) by {
        if m == MANT_HIGH {
            binary64::lemma_pow2_step((e + k) as nat);
            assert(MANT_LOW * (2 * s) == MANT_HIGH * s) by (nonlinear_arith);
        }
    }
    let h = MANT_HIGH as int;
    let mb = m * b;
    let low = MANT_LOW as int;
    assert(h * (mb - a) <= a && h * (a - mb) <= a) by (nonlinear_arith)
        requires
            2 * (mb - a) <= b,
            2 * (a - mb) <= b,
            low * b <= a,
            h == 2 * low,
            low > 0,
    ;
    let ud = u * d;
    let nk = n * kk;
    assert(ud * p == mb * kk && nk * p == a * kk) by (nonlinear_arith)
        requires
            ud == (m * s) * d,
            nk == n * kk,
            mb == m * (d * q),
            a == n * p,
            s * p == q * kk,
    ;
    assert(h * (ud - nk) <= nk && h * (nk - ud) <= nk) by (nonlinear_arith)
        requires
            h * (mb - a) <= a,
            h * (a - mb) <= a,
            ud * p == mb * kk,
            nk * p == a * kk,
            p > 0,
            kk > 0,
    {
        assert((h * (ud - nk)) * p == (h * (mb - a)) * kk);
        assert((h * (nk - ud)) * p == (h * (a - mb)) * kk);
        assert((h * (mb - a)) * kk <= a * kk);
        assert((h * (a - mb)) * kk <= a * kk);
    }
}

/// A fraction that is a number of 53 bits is rounded to itself.
pub proof fn lemma_exact(n: nat, d: nat, x: Float, k: nat)
    requires
        d > 0,
        MANT_LOW <= x.mant < MANT_HIGH,
        x.exp + k >= 0,
        units(x, k as int) * d == n * pow2(k),
    ensures
        binary64::nearest(n, d) == x,
        n > 0,
{
    let e = x.exp;
    binary64::lemma_frac(n, d, e);
    let p = pow2(binary64::pos(-e));
    let q = pow2(binary64::pos(e));
    let s = pow2((e + k) as nat);
    let kk = pow2(k);
    let m = x.mant;
    vstd::arithmetic::power2::lemma_pow2_adds((e + k) as nat, binary64::pos(-e));
    vstd::arithmetic::power2::lemma_pow2_adds(binary64::pos(e), k);
    vstd::arithmetic::power2::lemma_pow2_pos(k);
    vstd::arithmetic::power2::lemma_pow2_pos((e + k) as nat);
    assert(s * p == q * kk);
    let a = n * p;
    let b = d * q;
    assert(a == m * b) by (nonlinear_arith)
        requires
            (m * s) * d == n * kk,
            s * p == q * kk,
            a == n * p,
            b == d * q,
            kk > 0,
    {
        assert(((m * s) * d) * p == (m * d) * (s * p));
        assert((n * kk) * p == a * kk);
        assert((m * d) * (q * kk) == (m * b) * kk);
    }
    assert(b > 0) by (nonlinear_arith)
        requires
            b == d * q,
            d > 0,
            q > 0,
    ;
    assert(n > 0) by (nonlinear_arith)
        requires
            (m * s) * d == n * kk,
            m > 0,
            s > 0,
            d > 0,
    ;
    assert(MANT_LOW * b <= a < MANT_HIGH * b) by (nonlinear_arith)
        requires
            a == m * b,
            MANT_LOW <= m < MANT_HIGH,
            b > 0,
    ;
    assert(binary64::in_binade(n, d, e));
    binary64::lemma_nearest_in(n, d, e);
    vstd::arithmetic::div_mod::lemma_fundamental_div_mod_converse(a as int, b as int, m as int, 0);
}

/// An integer of at most 53 bits is rounded to itself.
pub proof fn lemma_small(n: nat, k: nat)
    requires
        0 < n < MANT_HIGH,
        k >= 52,
    ensures
        MANT_LOW <= binary64::nearest(n, 1).mant < MANT_HIGH,
        -52 <= binary64::nearest(n, 1).exp <= 0,
        units(binary64::nearest(n, 1), k as int) == n * pow2(k),
{
    binary64::lemma_binade_exists(n, 1);
    let e = choose|e: int| binary64::in_binade(n, 1, e);
    binary64::lemma_nearest_in(n, 1, e);
    binary64::lemma_frac(n, 1, e);
    vstd::arithmetic::power2::lemma2_to64();
    let p = pow2(binary64::pos(-e));
    let q = pow2(binary64::pos(e));
    if e > 0 {
        binary64::lemma_pow2_step((e - 1) as nat);
        vstd::arithmetic::power2::lemma_pow2_pos((e - 1) as nat);
        assert(MANT_LOW * (1 * q) >= MANT_HIGH) by (nonlinear_arith)
            requires
                q >= 2,
        ;
        assert(n * p == n) by (nonlinear_arith)
            requires
                p == 1,
        ;
        assert(false);
    }
    let a = n * p;
    assert(q == 1);
    assert(binary64::nearest_int(a, 1) == a);
    if e < -52 {
        if -e > 53 {
            vstd::arithmetic::power2::lemma_pow2_strictly_increases(53, (-e) as nat);
        }
        vstd::arithmetic::power2::lemma2_to64_rest();
        assert(n * p >= MANT_HIGH) by (nonlinear_arith)
            requires
                n >= 1,
                p >= MANT_HIGH,
        ;
        assert(false);
    }
    vstd::arithmetic::power2::lemma_pow2_adds((-e) as nat, (e + k) as nat);
    let s = pow2((e + k) as nat);
    let kk = pow2(k);
    assert((n * p) * s == n * kk) by (nonlinear_arith)
        requires
            p * s == kk,
    ;
}

/// A power of two in the unit is a power of two in the count.
pub proof fn lemma_units_scale(x: Float, k: int, j: nat)
    requires
        x.exp + k >= 0,
    ensures
        units(x, k + j) == units(x, k) * pow2(j),
{
    vstd::arithmetic::power2::lemma_pow2_adds((x.exp + k) as nat, j);
    let m = x.mant;
    let s = pow2((x.exp + k) as nat);
    let t = pow2(j);
    assert(m * (s * t) == (m * s) * t) by (nonlinear_arith);
}

/// Where the product of two integers of 53 bits lies, rounded.
proof fn lemma_mant_product(a: nat, b: nat)
    requires
        MANT_LOW <= a < MANT_HIGH,
        MANT_LOW <= b < MANT_HIGH,
    ensures
        a * b > 0,
        MANT_LOW <= binary64::nearest(a * b, 1).mant < MANT_HIGH,
        52 <= binary64::nearest(a * b, 1).exp <= 54,
{
    vstd::arithmetic::power2::lemma2_to64();
    vstd::arithmetic::power2::lemma2_to64_rest();
    vstd::arithmetic::power2::lemma_pow2_adds(52, 52);
    vstd::arithmetic::power2::lemma_pow2_adds(53, 53);
    binary64::lemma_frac(a * b, 1, 104);
    binary64::lemma_frac(a * b, 1, 106);
    assert(MANT_LOW * MANT_LOW <= a * b < MANT_HIGH * MANT_HIGH) by (nonlinear_arith)
        requires
            MANT_LOW <= a < MANT_HIGH,
            MANT_LOW <= b < MANT_HIGH,
    ;
    let n = a * b;
    let one = pow2(0);
    assert(n * one == n) by (nonlinear_arith)
        requires
            one == 1,
    ;
    binary64::lemma_nearest_range(a * b, 1, 104, 106);
}

/// A product, rounded, differs from the exact one by at most its part in
/// `2^53`.
pub proof fn lemma_mul(x: Float, y: Float, k: int, l: int)
    requires
        MANT_LOW <= x.mant < MANT_HIGH,
        MANT_LOW <= y.mant < MANT_HIGH,
        x.exp + k >= 0,
        y.exp + l >= 0,
    ensures
        near(units(binary64::float_mul(x, y), k + l), units(x, k) * units(y, l)),
        MANT_LOW <= binary64::float_mul(x, y).mant < MANT_HIGH,
        x.exp + y.exp + 52 <= binary64::float_mul(x, y).exp <= x.exp + y.exp + 54,
{
    lemma_mant_product(x.mant, y.mant);
    let n = x.mant * y.mant;
    let r = binary64::nearest(n, 1);
    let z = binary64::float_mul(x, y);
    lemma_nearest(n, 1, 0);
    vstd::arithmetic::power2::lemma2_to64();
    let sx = pow2((x.exp + k) as nat);
    let sy = pow2((y.exp + l) as nat);
    let s = (x.exp + k + y.exp + l) as nat;
    vstd::arithmetic::power2::lemma_pow2_adds((x.exp + k) as nat, (y.exp + l) as nat);
    vstd::arithmetic::power2::lemma_pow2_pos(s);
    lemma_units_scale(r, 0, s);
    let u = units(r, 0);
    let t = pow2(s);
    assert(units(z, k + l) == u * t);
    let a = x.mant;
    let b = y.mant;
    let h = MANT_HIGH as int;
    let one = pow2(0);
    assert(h * (u * t - (a * sx) * (b * sy)) <= (a * sx) * (b * sy) && h * ((a * sx) * (b * sy) - u
        * t) <= (a * sx) * (b * sy)) by (nonlinear_arith)
        requires
            n == a * b,
            t == sx * sy,
            t > 0,
            one == 1,
            h * (u * 1 - n * one) <= n * one,
            h * (n * one - u * 1) <= n * one,
    {
        assert((a * sx) * (b * sy) == n * t);
        assert((h * (u - n)) * t <= n * t);
        assert((h * (n - u)) * t <= n * t);
        assert((h * (u - n)) * t == h * (u * t - n * t));
        assert((h * (n - u)) * t == h * (n * t - u * t));
    }
}

/// A product that is a number of 53 bits is exact.
pub proof fn lemma_mul_exact(x: Float, y: Float, w: Float, k: int, l: int)
    requires
        MANT_LOW <= x.mant < MANT_HIGH,
        MANT_LOW <= y.mant < MANT_HIGH,
        MANT_LOW <= w.mant < MANT_HIGH,
        x.exp + k >= 0,
        y.exp + l >= 0,
        w.exp + k + l >= 0,
        units(x, k) * units(y, l) == units(w, k + l),
    ensures
        binary64::float_mul(x, y) == w,
{
    let n = x.mant * y.mant;
    let s = (x.exp + k + y.exp + l) as nat;
    let v = Float { mant: w.mant, exp: w.exp - x.exp - y.exp };
    vstd::arithmetic::power2::lemma_pow2_adds((x.exp + k) as nat, (y.exp + l) as nat);
    let sx = pow2((x.exp + k) as nat);
    let sy = pow2((y.exp + l) as nat);
    let a = x.mant;
    let b = y.mant;
    assert((a * sx) * (b * sy) == n * (sx * sy)) by (nonlinear_arith)
        requires
            n == a * b,
    ;
    assert(v.exp + s == w.exp + k + l);
    assert(units(v, s as int) == units(w, k + l));
    let u = units(v, s as int);
    assert(u * 1 == u);
    lemma_exact(n, 1, v, s);
    assert(binary64::nearest(n, 1) == v);
}

/// A quotient, rounded, differs from the exact one by at most its part in
/// `2^53`.
pub proof fn lemma_div(x: Float, y: Float, k: int, l: int)
    requires
        MANT_LOW <= x.mant < MANT_HIGH,
        MANT_LOW <= y.mant < MANT_HIGH,
        x.exp - y.exp + k >= 54,
        y.exp + l >= 0,
    ensures
        near(units(binary64::float_div(x, y), k) * units(y, l), units(x, k + l)),
        MANT_LOW <= binary64::float_div(x, y).mant < MANT_HIGH,
        x.exp - y.exp - 53 <= binary64::float_div(x, y).exp <= x.exp - y.exp - 51,
{
    let a = x.mant;
    let b = y.mant;
    vstd::arithmetic::power2::lemma2_to64();
    binary64::lemma_frac(a, b, -1);
    binary64::lemma_frac(a, b, 1);
    assert(a * 2 >= b * 1 && a * 1 < b * 2);
    binary64::lemma_nearest_range(a, b, -1, 1);
    let r = binary64::nearest(a, b);
    let z = binary64::float_div(x, y);
    lemma_nearest(a, b, 54);
    let t = (x.exp - y.exp + k - 54) as nat;
    let u = units(r, 54);
    lemma_units_scale(r, 54, t);
    let pt = pow2(t);
    let pl = pow2((y.exp + l) as nat);
    let p54 = pow2(54);
    assert(units(z, k) == u * pt);
    vstd::arithmetic::power2::lemma_pow2_adds(54, t);
    vstd::arithmetic::power2::lemma_pow2_adds(54 + t, (y.exp + l) as nat);
    vstd::arithmetic::power2::lemma_pow2_pos(t);
    vstd::arithmetic::power2::lemma_pow2_pos((y.exp + l) as nat);
    assert(units(x, k + l) == a * ((p54 * pt) * pl));
    let h = MANT_HIGH as int;
    let left = (u * pt) * (b * pl);
    let right = a * ((p54 * pt) * pl);
    assert(h * (left - right) <= right && h * (right - left) <= right) by (nonlinear_arith)
        requires
            left == (u * pt) * (b * pl),
            right == a * ((p54 * pt) * pl),
            h * (u * b - a * p54) <= a * p54,
            h * (a * p54 - u * b) <= a * p54,
            pt > 0,
            pl > 0,
    {
        let c = pt * pl;
        assert(c > 0);
        assert(left == (u * b) * c);
        assert(right == (a * p54) * c);
        assert((h * (u * b - a * p54)) * c <= (a * p54) * c);
        assert((h * (a * p54 - u * b)) * c <= (a * p54) * c);
        assert((h * (u * b - a * p54)) * c == h * ((u * b) * c - (a * p54) * c));
        assert((h * (a * p54 - u * b)) * c == h * ((a * p54) * c - (u * b) * c));
    }
}

/// `a` differs from `b` by at most its part in `2^51`.
pub open spec fn close(a: nat, b: nat) -> bool {
    &&& 0x8_0000_0000_0000 * (a - b) <= b
    &&& 0x8_0000_0000_0000 * (b - a) <= b
}

/// What is near stays near when both sides are multiplied.
pub proof fn lemma_near_times(a: nat, b: nat, c: nat)
    requires
        near(a, b),
    ensures
        near(c * a, c * b),
{
    let h = MANT_HIGH as int;
    assert(h * (c * a - c * b) <= c * b && h * (c * b - c * a) <= c * b) by (nonlinear_arith)
        requires
            h * (a - b) <= b,
            h * (b - a) <= b,
            c >= 0,
    {
        assert((h * (a - b)) * c <= b * c);
        assert((h * (b - a)) * c <= b * c);
        assert((h * (a - b)) * c == h * (c * a - c * b));
        assert((h * (b - a)) * c == h * (c * b - c * a));
    }
}

/// Two factors, rounded, and their product, rounded again, are close to the
/// exact product.
pub proof fn lemma_close_product(a: nat, b: nat, x: nat, y: nat, v: nat)
    requires
        near(x, a),
        near(y, b),
        near(v, x * y),
    ensures
        close(v, a * b),
{
    let h = MANT_HIGH as int;
    let c: int = 0x8_0000_0000_0000;
    let xy = (x * y) as int;
    let ab = (a * b) as int;
    let hi = h + 1;
    let lo = h - 1;
    let hx = h * x;
    let hy = h * y;
    assert(hx <= hi * a && hx >= lo * a) by (nonlinear_arith)
        requires
            h * (x - a) <= a,
            h * (a - x) <= a,
            hx == h * x,
            hi == h + 1,
            lo == h - 1,
    ;
    assert(hy <= hi * b && hy >= lo * b) by (nonlinear_arith)
        requires
            h * (y - b) <= b,
            h * (b - y) <= b,
            hy == h * y,
            hi == h + 1,
            lo == h - 1,
    ;
    let ha = hi * a;
    let hb = hi * b;
    let la = lo * a;
    let lb = lo * b;
    assert(0 <= la && 0 <= lb) by (nonlinear_arith)
        requires
            la == lo * a,
            lb == lo * b,
            lo > 0,
    ;
    assert(hx * hy <= ha * hb && hx * hy >= la * lb) by {
        vstd::arithmetic::mul::lemma_mul_upper_bound(hx, ha, hy, hb);
        vstd::arithmetic::mul::lemma_mul_upper_bound(la, hx, lb, hy);
    }
    assert(hx * hy == h * h * xy) by (nonlinear_arith)
        requires
            hx == h * x,
            hy == h * y,
            xy == x * y,
    ;
    assert(ha * hb == hi * hi * ab) by (nonlinear_arith)
        requires
            ha == hi * a,
            hb == hi * b,
            ab == a * b,
    ;
    assert(la * lb == lo * lo * ab) by (nonlinear_arith)
        requires
            la == lo * a,
            lb == lo * b,
            ab == a * b,
    ;
    assert(ab >= 0) by (nonlinear_arith)
        requires
            ab == a * b,
    ;
    let h3 = h * h * h;
    assert(h3 * v <= (hi * hi * hi) * ab && h3 * v >= (lo * lo * lo) * ab) by (nonlinear_arith)
        requires
            h * (v - xy) <= xy,
            h * (xy - v) <= xy,
            h * h * xy <= hi * hi * ab,
            h * h * xy >= lo * lo * ab,
            hi == h + 1,
            lo == h - 1,
            h > 1,
            h3 == h * h * h,
    {
        assert(h * v <= hi * xy && h * v >= lo * xy);
        assert((h * v) * (h * h) <= (hi * xy) * (h * h));
        assert((h * v) * (h * h) >= (lo * xy) * (h * h));
        assert((hi * xy) * (h * h) == hi * (h * h * xy));
        assert((lo * xy) * (h * h) == lo * (h * h * xy));
        assert(hi * (h * h * xy) <= hi * (hi * hi * ab));
        assert(lo * (h * h * xy) >= lo * (lo * lo * ab));
        assert(hi * (hi * hi * ab) == (hi * hi * hi) * ab);
        assert(lo * (lo * lo * ab) == (lo * lo * lo) * ab);
    }
    assert((hi * hi * hi) * c <= h3 * (c + 1) && (lo * lo * lo) * c >= h3 * (c - 1) && h3 > 0)
        by (nonlinear_arith)
        requires
            h == 0x20_0000_0000_0000,
            hi == h + 1,
            lo == h - 1,
            h3 == h * h * h,
            c == 0x8_0000_0000_0000,
    ;
    assert(c * (v - ab) <= ab && c * (ab - v) <= ab) by (nonlinear_arith)
        requires
            h3 * v <= (hi * hi * hi) * ab,
            h3 * v >= (lo * lo * lo) * ab,
            (hi * hi * hi) * c <= h3 * (c + 1),
            (lo * lo * lo) * c >= h3 * (c - 1),
            h3 > 0,
            c > 1,
            ab >= 0,
    {
        assert((h3 * v) * c <= ((hi * hi * hi) * ab) * c);
        assert(((hi * hi * hi) * ab) * c == ((hi * hi * hi) * c) * ab);
        assert(((hi * hi * hi) * c) * ab <= (h3 * (c + 1)) * ab);
        assert((h3 * v) * c == h3 * (c * v));
        assert((h3 * (c + 1)) * ab == h3 * ((c + 1) * ab));
        assert(c * v <= (c + 1) * ab);
        assert((h3 * v) * c >= ((lo * lo * lo) * ab) * c);
        assert(((lo * lo * lo) * ab) * c == ((lo * lo * lo) * c) * ab);
        assert(((lo * lo * lo) * c) * ab >= (h3 * (c - 1)) * ab);
        assert((h3 * (c - 1)) * ab == h3 * ((c - 1) * ab));
        assert(c * v >= (c - 1) * ab);
    }
}

/// A rounded quotient of rounded numbers is close to the exact one: where `c *
/// x` is near `a`, `y` is near `b` and `q * y` is near `x`.
pub proof fn lemma_close_quotient(a: nat, b: nat, c: nat, x: nat, y: nat, q: nat)
    requires
        near(c * x, a),
        near(y, b),
        near(q * y, x),
    ensures
        close(c * q * b, a),
{
    let h = MANT_HIGH as int;
    let hi = h + 1;
    let lo = h - 1;
    let k: int = 0x8_0000_0000_0000;
    lemma_near_times(q * y, x, c);
    let cqy = (c * (q * y)) as int;
    let cx = (c * x) as int;
    let cq = (c * q) as int;
    let v = cq * b;
    assert(cqy == cq * y) by (nonlinear_arith)
        requires
            cqy == c * (q * y),
            cq == c * q,
    ;
    assert(cq >= 0) by (nonlinear_arith)
        requires
            cq == c * q,
    ;
    assert(h * h * cqy <= hi * hi * a && h * h * cqy >= lo * lo * a) by (nonlinear_arith)
        requires
            h * (cqy - cx) <= cx,
            h * (cx - cqy) <= cx,
            h * (cx - a) <= a,
            h * (a - cx) <= a,
            hi == h + 1,
            lo == h - 1,
            h > 1,
    {
        assert(h * cqy <= hi * cx && h * cqy >= lo * cx);
        assert(h * cx <= hi * a && h * cx >= lo * a);
        assert((h * cqy) * h <= (hi * cx) * h);
        assert((hi * cx) * h == hi * (h * cx));
        assert(hi * (h * cx) <= hi * (hi * a));
        assert((h * cqy) * h >= (lo * cx) * h);
        assert((lo * cx) * h == lo * (h * cx));
        assert(lo * (h * cx) >= lo * (lo * a));
    }
    assert(lo * v <= h * cqy && h * cqy <= hi * v) by (nonlinear_arith)
        requires
            h * (y - b) <= b,
            h * (b - y) <= b,
            hi == h + 1,
            lo == h - 1,
            cqy == cq * y,
            v == cq * b,
            cq >= 0,
    {
        assert(lo * b <= h * y && h * y <= hi * b);
        assert(cq * (lo * b) <= cq * (h * y));
        assert(cq * (h * y) <= cq * (hi * b));
        assert(cq * (h * y) == h * cqy);
        assert(cq * (lo * b) == lo * v);
        assert(cq * (hi * b) == hi * v);
    }
    assert(hi * hi * k <= h * lo * (k + 1) && lo * lo * k >= h * hi * (k - 1)) by (nonlinear_arith)
        requires
            h == 0x20_0000_0000_0000,
            hi == h + 1,
            lo == h - 1,
            k == 0x8_0000_0000_0000,
    ;
    assert(k * v <= (k + 1) * a) by (nonlinear_arith)
        requires
            h * h * cqy <= hi * hi * a,
            lo * v <= h * cqy,
            hi * hi * k <= h * lo * (k + 1),
            h > 1,
            lo == h - 1,
            a >= 0,
            k > 0,
    {
        assert((lo * v) * h <= (h * cqy) * h);
        assert((h * cqy) * h == h * h * cqy);
        assert((h * lo) * v <= hi * hi * a);
        assert(((h * lo) * v) * k <= (hi * hi * a) * k);
        assert((hi * hi * a) * k == (hi * hi * k) * a);
        assert((hi * hi * k) * a <= (h * lo * (k + 1)) * a);
        assert((h * lo * (k + 1)) * a == (h * lo) * ((k + 1) * a));
        assert(((h * lo) * v) * k == (h * lo) * (k * v));
        assert(h * lo > 0);
    }
    assert(k * v >= (k - 1) * a) by (nonlinear_arith)
        requires
            h * h * cqy >= lo * lo * a,
            h * cqy <= hi * v,
            lo * lo * k >= h * hi * (k - 1),
            h > 1,
            hi == h + 1,
            a >= 0,
            k > 1,
    {
        assert((h * cqy) * h <= (hi * v) * h);
        assert((h * cqy) * h == h * h * cqy);
        assert((h * hi) * v >= lo * lo * a);
        assert(((h * hi) * v) * k >= (lo * lo * a) * k);
        assert((lo * lo * a) * k == (lo * lo * k) * a);
        assert((lo * lo * k) * a >= (h * hi * (k - 1)) * a);
        assert((h * hi * (k - 1)) * a == (h * hi) * ((k - 1) * a));
        assert(((h * hi) * v) * k == (h * hi) * (k * v));
        assert(h * hi > 0);
    }
    assert(c * q * b == v);
    assert(k * (v - a) <= a && k * (a - v) <= a) by (nonlinear_arith)
        requires
            k * v <= (k + 1) * a,
            k * v >= (k - 1) * a,
    ;
}

/// What is close in multiples is close itself.
pub proof fn lemma_close_divide(a: nat, b: nat, c: nat)
    requires
        c > 0,
        close(a * c, b * c),
    ensures
        close(a, b),
{
    let k: int = 0x8_0000_0000_0000;
    assert(k * (a - b) <= b && k * (b - a) <= b) by (nonlinear_arith)
        requires
            k * (a * c - b * c) <= b * c,
            k * (b * c - a * c) <= b * c,
            c > 0,
    {
        assert((k * (a - b)) * c == k * (a * c - b * c));
        assert((k * (b - a)) * c == k * (b * c - a * c));
    }
}

/// What is close keeps close when both sides are multiplied.
pub proof fn lemma_close_times(a: nat, b: nat, c: nat)
    requires
        close(a, b),
    ensures
        close(a * c, b * c),
{
    let k: int = 0x8_0000_0000_0000;
    assert(k * (a * c - b * c) <= b * c && k * (b * c - a * c) <= b * c) by (nonlinear_arith)
        requires
            k * (a - b) <= b,
            k * (b - a) <= b,
            c >= 0,
    {
        assert((k * (a - b)) * c <= b * c);
        assert((k * (b - a)) * c <= b * c);
        assert((k * (a - b)) * c == k * (a * c - b * c));
        assert((k * (b - a)) * c == k * (b * c - a * c));
    }
}

/// From units to the fraction that a number is written as.
pub proof fn lemma_close_fraction(x: Float, k: nat, c: nat, t: nat)
    requires
        x.exp + k >= 0,
        close(c * units(x, k as int), t * pow2(k)),
    ensures
        close(c * x.above(), t * x.below()),
{
    lemma_units_fraction(x, k);
    let u = units(x, k as int);
    let a = x.above();
    let b = x.below();
    let p = pow2(k);
    lemma_close_times(c * u, t * p, b);
    assert((c * u) * b == (c * a) * p && (t * p) * b == (t * b) * p) by (nonlinear_arith)
        requires
            u * b == a * p,
    ;
    lemma_close_divide(c * a, t * b, p);
}

/// Digits that are padded to a width stand for what the number leaves when
/// divided by that power of ten.
proof fn lemma_padded(n: nat, width: nat)
    ensures
        numeral::digits_only(binary64::padded(n, width)),
        binary64::padded(n, width).len() == width,
        decimal::digits_value(numeral::digit_values(binary64::padded(n, width))) == n % (pow(
            10,
            width,
        ) as nat),
    decreases width,
{
    let s = binary64::padded(n, width);
    let d = numeral::digit_values(s);
    vstd::arithmetic::power::lemma_pow_positive(10, width);
    if width == 0 {
        vstd::arithmetic::power::lemma_pow0(10);
        assert(d =~= Seq::<u8>::empty());
        assert(decimal::digits_value(d) == 0);
        assert(n % 1 == 0);
    } else {
        let front = binary64::padded(n / 10, (width - 1) as nat);
        lemma_padded(n / 10, (width - 1) as nat);
        let p = pow(10, (width - 1) as nat);
        vstd::arithmetic::power::lemma_pow1(10);
        vstd::arithmetic::power::lemma_pow_adds(10, 1, (width - 1) as nat);
        vstd::arithmetic::power::lemma_pow_positive(10, (width - 1) as nat);
        assert(s.drop_last() =~= front);
        assert(d.drop_last() =~= numeral::digit_values(front));
        assert forall|i: int| 0 <= i < s.len() implies numeral::is_digit(#[trigger] s[i]) by {
            if i < front.len() {
                assert(s[i] == front[i]);
            }
        }
        assert(d.last() == n % 10);
        lemma_last_digit(n, p as nat);
    }
}

proof fn lemma_last_digit(n: nat, p: nat)
    requires
        p > 0,
    ensures
        ((n / 10) % p) * 10 + n % 10 == n % (10 * p),
{
    let q = n / 10;
    let r = n % 10;
    let a = q / p;
    let b = q % p;
    vstd::arithmetic::div_mod::lemma_fundamental_div_mod(q as int, p as int);
    vstd::arithmetic::div_mod::lemma_mod_bound(q as int, p as int);
    let d = (10 * p) as int;
    let e = (10 * b + r) as int;
    assert(n == a * d + e) by (nonlinear_arith)
        requires
            n == 10 * q + r,
            q == p * a + b,
            d == 10 * p,
            e == 10 * b + r,
    ;
    assert(0 <= e < d);
    vstd::arithmetic::div_mod::lemma_fundamental_div_mod_converse(n as int, d, a as int, e);
}

/// A number as text is digits, a point and as many digits as asked for, and
/// what the digits stand for is off by half of the last place at most.
pub proof fn lemma_fixed_text(x: Float, places: nat) -> (parts: (Seq<char>, Seq<char>))
    ensures
        binary64::fixed_text(x, places) == parts.0 + seq!['.'] + parts.1,
        numeral::digits_only(parts.0),
        parts.0.len() > 0,
        numeral::digits_only(parts.1),
        parts.1.len() == places,
        ({
            let v = decimal::digits_value(
                numeral::digit_values(parts.0) + numeral::digit_values(parts.1),
            );
            &&& 2 * (v * x.below() - x.above() * pow(10, places)) <= x.below()
            &&& 2 * (x.above() * pow(10, places) - v * x.below()) <= x.below()
        }),
{
    let ten = pow(10, places) as nat;
    vstd::arithmetic::power::lemma_pow_positive(10, places);
    binary64::lemma_frac(1, 1, -x.exp);
    binary64::lemma_frac(1, 1, x.exp);
    assert(x.below() > 0);
    let n = binary64::nearest_int(x.above() * ten, x.below());
    lemma_nearest_int(x.above() * ten, x.below());
    let whole = text::decimal(n / ten);
    let frac = binary64::padded(n % ten, places);
    numeral::lemma_decimal_value(n / ten);
    lemma_padded(n % ten, places);
    vstd::arithmetic::div_mod::lemma_fundamental_div_mod(n as int, ten as int);
    vstd::arithmetic::div_mod::lemma_mod_bound(n as int, ten as int);
    vstd::arithmetic::div_mod::lemma_small_mod(n % ten, ten);
    let w = numeral::digit_values(whole);
    let f = numeral::digit_values(frac);
    decimal::lemma_value_append(w, f);
    assert((n / ten) * ten + n % ten == n) by (nonlinear_arith)
        requires
            n == ten * (n / ten) + n % ten,
    ;
    (whole, frac)
}

/// What is near is close.
pub proof fn lemma_near_close(a: nat, b: nat)
    requires
        near(a, b),
    ensures
        close(a, b),
{
}

/// What is near in multiples is near itself.
pub proof fn lemma_near_divide(a: nat, b: nat, c: nat)
    requires
        c > 0,
        near(a * c, b * c),
    ensures
        near(a, b),
{
    let h = MANT_HIGH as int;
    assert(h * (a - b) <= b && h * (b - a) <= b) by (nonlinear_arith)
        requires
            h * (a * c - b * c) <= b * c,
            h * (b * c - a * c) <= b * c,
            c > 0,
    {
        assert((h * (a - b)) * c == h * (a * c - b * c));
        assert((h * (b - a)) * c == h * (b * c - a * c));
    }
}

/// Three roundings in a row stay close.
pub proof fn lemma_close_chain(z: nat, v: nat, w: nat, a: nat)
    requires
        near(z, v),
        near(v, w),
        near(w, a),
    ensures
        close(z, a),
{
    let h = MANT_HIGH as int;
    let hi = h + 1;
    let lo = h - 1;
    let k: int = 0x8_0000_0000_0000;
    assert(h * z <= hi * v && h * z >= lo * v) by (nonlinear_arith)
        requires
            h * (z - v) <= v,
            h * (v - z) <= v,
            hi == h + 1,
            lo == h - 1,
    ;
    assert(h * v <= hi * w && h * v >= lo * w) by (nonlinear_arith)
        requires
            h * (v - w) <= w,
            h * (w - v) <= w,
            hi == h + 1,
            lo == h - 1,
    ;
    assert(h * w <= hi * a && h * w >= lo * a) by (nonlinear_arith)
        requires
            h * (w - a) <= a,
            h * (a - w) <= a,
            hi == h + 1,
            lo == h - 1,
    ;
    let h3 = h * h * h;
    assert(h3 * z <= (hi * hi * hi) * a) by (nonlinear_arith)
        requires
            h * z <= hi * v,
            h * v <= hi * w,
            h * w <= hi * a,
            h3 == h * h * h,
            h > 1,
            hi == h + 1,
    {
        assert((h * z) * (h * h) <= (hi * v) * (h * h));
        assert((hi * v) * (h * h) == (hi * h) * (h * v));
        assert((hi * h) * (h * v) <= (hi * h) * (hi * w));
        assert((hi * h) * (hi * w) == (hi * hi) * (h * w));
        assert((hi * hi) * (h * w) <= (hi * hi) * (hi * a));
    }
    assert(h3 * z >= (lo * lo * lo) * a) by (nonlinear_arith)
        requires
            h * z >= lo * v,
            h * v >= lo * w,
            h * w >= lo * a,
            h3 == h * h * h,
            h > 1,
            lo == h - 1,
    {
        assert((h * z) * (h * h) >= (lo * v) * (h * h));
        assert((lo * v) * (h * h) == (lo * h) * (h * v));
        assert((lo * h) * (h * v) >= (lo * h) * (lo * w));
        assert((lo * h) * (lo * w) == (lo * lo) * (h * w));
        assert((lo * lo) * (h * w) >= (lo * lo) * (lo * a));
    }
    assert((hi * hi * hi) * k <= h3 * (k + 1) && (lo * lo * lo) * k >= h3 * (k - 1) && h3 > 0)
        by (nonlinear_arith)
        requires
            h == 0x20_0000_0000_0000,
            hi == h + 1,
            lo == h - 1,
            h3 == h * h * h,
            k == 0x8_0000_0000_0000,
    ;
    assert(k * (z - a) <= a && k * (a - z) <= a) by (nonlinear_arith)
        requires
            h3 * z <= (hi * hi * hi) * a,
            h3 * z >= (lo * lo * lo) * a,
            (hi * hi * hi) * k <= h3 * (k + 1),
            (lo * lo * lo) * k >= h3 * (k - 1),
            h3 > 0,
            k > 1,
            a >= 0,
    {
        assert((h3 * z) * k <= ((hi * hi * hi) * a) * k);
        assert(((hi * hi * hi) * a) * k == ((hi * hi * hi) * k) * a);
        assert(((hi * hi * hi) * k) * a <= (h3 * (k + 1)) * a);
        assert((h3 * z) * k == h3 * (k * z));
        assert((h3 * (k + 1)) * a == h3 * ((k + 1) * a));
        assert(k * z <= (k + 1) * a);
        assert((h3 * z) * k >= ((lo * lo * lo) * a) * k);
        assert(((lo * lo * lo) * a) * k == ((lo * lo * lo) * k) * a);
        assert(((lo * lo * lo) * k) * a >= (h3 * (k - 1)) * a);
        assert((h3 * (k - 1)) * a == h3 * ((k - 1) * a));
        assert(k * z >= (k - 1) * a);
    }
}

/// A quotient of two integers of at most 53 bits.
pub proof fn lemma_ratio_of_small(n: nat, d: nat)
    requires
        0 < n < MANT_HIGH,
        0 < d < MANT_HIGH,
    ensures
        ({
            let q = binary64::float_div(binary64::nearest(n, 1), binary64::nearest(d, 1));
            &&& MANT_LOW <= q.mant < MANT_HIGH
            &&& -105 <= q.exp <= 1
            &&& near(d * units(q, 106), n * pow2(106))
        }),
{
    let x = binary64::nearest(n, 1);
    let y = binary64::nearest(d, 1);
    lemma_small(n, 158);
    lemma_small(d, 52);
    lemma_div(x, y, 106, 52);
    let q = binary64::float_div(x, y);
    vstd::arithmetic::power2::lemma_pow2_adds(106, 52);
    vstd::arithmetic::power2::lemma_pow2_pos(52);
    let u = units(q, 106);
    let p = pow2(52);
    let p106 = pow2(106);
    assert(u * (d * p) == (d * u) * p && n * (p106 * p) == (n * p106) * p) by (nonlinear_arith);
    lemma_near_divide(d * u, n * p106, p);
}

/// A quotient that is a number of 53 bits is exact.
pub proof fn lemma_div_exact(x: Float, y: Float, q: Float, k: int, l: int)
    requires
        MANT_LOW <= x.mant < MANT_HIGH,
        MANT_LOW <= y.mant < MANT_HIGH,
        MANT_LOW <= q.mant < MANT_HIGH,
        q.exp + k >= 0,
        y.exp + l >= 0,
        x.exp + k + l >= 0,
        units(q, k) * units(y, l) == units(x, k + l),
    ensures
        binary64::float_div(x, y) == q,
{
    let v = Float { mant: q.mant, exp: q.exp - x.exp + y.exp };
    let j = (x.exp + k + l) as nat;
    vstd::arithmetic::power2::lemma_pow2_adds((q.exp + k) as nat, (y.exp + l) as nat);
    let a = q.mant;
    let b = y.mant;
    let sq = pow2((q.exp + k) as nat);
    let sy = pow2((y.exp + l) as nat);
    assert((a * sq) * (b * sy) == (a * (sq * sy)) * b) by (nonlinear_arith);
    assert(units(v, j as int) == a * (sq * sy));
    lemma_exact(x.mant, y.mant, v, j);
}

/// `a` differs from `b` by at most `m` parts in `2^52`.
pub open spec fn within(a: nat, b: nat, m: nat) -> bool {
    &&& MANT_LOW * (a - b) <= m * b
    &&& MANT_LOW * (b - a) <= m * b
}

/// One more rounding adds one part.
pub proof fn lemma_within_near(z: nat, v: nat, b: nat, m: nat)
    requires
        near(z, v),
        within(v, b, m),
        m <= 8,
    ensures
        within(z, b, m + 1),
{
    let mb = m * b;
    assert(mb <= 8 * b) by (nonlinear_arith)
        requires
            mb == m * b,
            m <= 8,
    ;
    assert((m + 1) * b == mb + b) by (nonlinear_arith)
        requires
            mb == m * b,
    ;
}

/// No integer is nearer to `a / b` than the nearest one, and of two that are
/// equally near it is the even one.
pub proof fn lemma_nearest_int_best(a: nat, b: nat, m: int)
    requires
        b > 0,
    ensures
        ({
            let r = binary64::nearest_int(a, b);
            let mine = if r * b >= a {
                r * b - a
            } else {
                a - r * b
            };
            let other = if m * b >= a {
                m * b - a
            } else {
                a - m * b
            };
            &&& mine <= other
            &&& mine == other && m != r ==> r % 2 == 0
        }),
{
    let q = (a / b) as int;
    let s = (a % b) as int;
    vstd::arithmetic::div_mod::lemma_fundamental_div_mod(a as int, b as int);
    vstd::arithmetic::div_mod::lemma_mod_bound(a as int, b as int);
    let r = binary64::nearest_int(a, b) as int;
    let qb = q * b;
    assert(a == qb + s && 0 <= s < b) by (nonlinear_arith)
        requires
            a == b * q + s,
            0 <= s < b,
            qb == q * b,
    ;
    let mb = m * b;
    let rb = r * b;
    assert((q + 1) * b == qb + b) by (nonlinear_arith)
        requires
            qb == q * b,
    ;
    assert(rb == qb || rb == qb + b);
    if m <= q - 1 {
        assert(mb <= qb - b) by (nonlinear_arith)
            requires
                m <= q - 1,
                mb == m * b,
                qb == q * b,
                b > 0,
        ;
    } else if m >= q + 2 {
        assert(mb >= qb + 2 * b) by (nonlinear_arith)
            requires
                m >= q + 2,
                mb == m * b,
                qb == q * b,
                b > 0,
        ;
    } else if m == q {
        assert(mb == qb);
    } else {
        assert(m == q + 1);
        assert(mb == qb + b);
    }
}

/// No number of 53 bits is nearer to a fraction than the one that it is rounded
/// to.
pub proof fn lemma_nearest_best(n: nat, d: nat, y: Float, k: nat)
    requires
        n > 0,
        d > 0,
        MANT_LOW <= y.mant < MANT_HIGH,
        y.exp + k >= 0,
        binary64::nearest(n, d).exp + k >= 1,
    ensures
        ({
            let exact = (n * pow2(k)) as int;
            let x = (units(binary64::nearest(n, d), k as int) * d) as int;
            let z = (units(y, k as int) * d) as int;
            let mine = if x >= exact {
                x - exact
            } else {
                exact - x
            };
            let other = if z >= exact {
                z - exact
            } else {
                exact - z
            };
            mine <= other
        }),
{
    binary64::lemma_binade_exists(n, d);
    let e = choose|e: int| binary64::in_binade(n, d, e);
    binary64::lemma_nearest_in(n, d, e);
    binary64::lemma_frac(n, d, e);
    let x = binary64::nearest(n, d);
    let p = pow2(binary64::pos(-e));
    let q = pow2(binary64::pos(e));
    let a = n * p;
    let b = d * q;
    let m = binary64::nearest_int(a, b);
    assert(b > 0) by (nonlinear_arith)
        requires
            b == d * q,
            d > 0,
            q > 0,
    ;
    let s = pow2((e + k) as nat);
    let kk = pow2(k);
    vstd::arithmetic::power2::lemma_pow2_adds((e + k) as nat, binary64::pos(-e));
    vstd::arithmetic::power2::lemma_pow2_adds(binary64::pos(e), k);
    vstd::arithmetic::power2::lemma_pow2_pos(k);
    vstd::arithmetic::power2::lemma_pow2_pos((e + k) as nat);
    assert(s * p == q * kk);
    let u = units(x, k as int);
    assert(u == m * s) by {
        if m == MANT_HIGH {
            binary64::lemma_pow2_step((e + k) as nat);
            assert(MANT_LOW * (2 * s) == MANT_HIGH * s) by (nonlinear_arith);
        }
    }
    if y.exp >= e {
        let t = pow2((y.exp - e) as nat);
        vstd::arithmetic::power2::lemma_pow2_adds((y.exp - e) as nat, (e + k) as nat);
        let w = (y.mant * t) as int;
        let ym = y.mant;
        assert(ym * (t * s) == (ym * t) * s) by (nonlinear_arith);
        lemma_nearest_int_best(a, b, w);
        lemma_distance(m as int, w, s, p, q, kk, n, d);
    } else {
        lemma_nearest_int_best(a, b, MANT_LOW as int);
        lemma_distance(m as int, MANT_LOW as int, s, p, q, kk, n, d);
        let f = (e - 1 - y.exp) as nat;
        let sy = pow2((y.exp + k) as nat);
        vstd::arithmetic::power2::lemma_pow2_adds((y.exp + k) as nat, f);
        vstd::arithmetic::power2::lemma_pow2_pos(f);
        vstd::arithmetic::power2::lemma_pow2_pos((y.exp + k) as nat);
        binary64::lemma_pow2_step((e - 1 + k) as nat);
        let half = pow2((e - 1 + k) as nat);
        let pf = pow2(f);
        let ym = y.mant;
        assert(sy <= half) by (nonlinear_arith)
            requires
                half == sy * pf,
                pf >= 1,
        ;
        assert(ym * sy <= MANT_LOW * s) by (nonlinear_arith)
            requires
                ym < MANT_HIGH,
                sy <= half,
                s == 2 * half,
                MANT_HIGH == 2 * MANT_LOW,
        ;
        let z = (units(y, k as int) * d) as int;
        let low = (MANT_LOW * s * d) as int;
        assert(z <= low) by (nonlinear_arith)
            requires
                z == (ym * sy) * d,
                low == MANT_LOW * s * d,
                ym * sy <= MANT_LOW * s,
        ;
        let exact = (n * kk) as int;
        assert(low <= exact) by (nonlinear_arith)
            requires
                MANT_LOW * b <= a,
                a == n * p,
                b == d * q,
                s * p == q * kk,
                low == MANT_LOW * s * d,
                exact == n * kk,
                p > 0,
                kk > 0,
        {
            assert(low * p == (MANT_LOW * d) * (s * p));
            assert((MANT_LOW * d) * (q * kk) == (MANT_LOW * b) * kk);
            assert((MANT_LOW * b) * kk <= a * kk);
            assert(a * kk == exact * p);
        }
    }
}

/// Distances in one scale and in another.
proof fn lemma_distance(m: int, w: int, s: nat, p: nat, q: nat, kk: nat, n: nat, d: nat)
    requires
        s * p == q * kk,
        p > 0,
        kk > 0,
        ({
            let a = (n * p) as int;
            let b = (d * q) as int;
            let mine = if m * b >= a {
                m * b - a
            } else {
                a - m * b
            };
            let other = if w * b >= a {
                w * b - a
            } else {
                a - w * b
            };
            mine <= other
        }),
    ensures
        ({
            let exact = (n * kk) as int;
            let x = m * s * d;
            let z = w * s * d;
            let mine = if x >= exact {
                x - exact
            } else {
                exact - x
            };
            let other = if z >= exact {
                z - exact
            } else {
                exact - z
            };
            mine <= other
        }),
{
    let a = (n * p) as int;
    let b = (d * q) as int;
    let exact = (n * kk) as int;
    let x = m * s * d;
    let z = w * s * d;
    let mb = m * b;
    let wb = w * b;
    assert(x * p == mb * kk && z * p == wb * kk && exact * p == a * kk) by (nonlinear_arith)
        requires
            s * p == q * kk,
            a == n * p,
            b == d * q,
            exact == n * kk,
            x == m * s * d,
            z == w * s * d,
            mb == m * b,
            wb == w * b,
    {
        assert(x * p == (m * d) * (s * p));
        assert((m * d) * (q * kk) == mb * kk);
        assert(z * p == (w * d) * (s * p));
        assert((w * d) * (q * kk) == wb * kk);
    }
    lemma_scaled_sign(x - exact, mb - a, p as int, kk as int);
    lemma_scaled_sign(z - exact, wb - a, p as int, kk as int);
    assert((x - exact) * p == (mb - a) * kk && (z - exact) * p == (wb - a) * kk)
        by (nonlinear_arith)
        requires
            x * p == mb * kk,
            z * p == wb * kk,
            exact * p == a * kk,
    ;
    let dx = if x >= exact {
        x - exact
    } else {
        exact - x
    };
    let dz = if z >= exact {
        z - exact
    } else {
        exact - z
    };
    let da = if mb >= a {
        mb - a
    } else {
        a - mb
    };
    let dw = if wb >= a {
        wb - a
    } else {
        a - wb
    };
    assert(dx * p == da * kk && dz * p == dw * kk) by (nonlinear_arith)
        requires
            (x - exact) * p == (mb - a) * kk,
            (z - exact) * p == (wb - a) * kk,
            x >= exact <==> mb >= a,
            z >= exact <==> wb >= a,
            dx == (if x >= exact {
                x - exact
            } else {
                exact - x
            }),
            dz == (if z >= exact {
                z - exact
            } else {
                exact - z
            }),
            da == (if mb >= a {
                mb - a
            } else {
                a - mb
            }),
            dw == (if wb >= a {
                wb - a
            } else {
                a - wb
            }),
    ;
    assert(dx <= dz) by (nonlinear_arith)
        requires
            dx * p == da * kk,
            dz * p == dw * kk,
            da <= dw,
            p > 0,
            kk > 0,
    {
        assert(da * kk <= dw * kk);
    }
}

proof fn lemma_scaled_sign(x: int, y: int, p: int, k: int)
    requires
        p > 0,
        k > 0,
    ensures
        x * p == y * k ==> (x >= 0 <==> y >= 0),
{
    assert(x * p == y * k ==> (x >= 0 <==> y >= 0)) by (nonlinear_arith)
        requires
            p > 0,
            k > 0,
    ;
}

/// What fits in 64 bits is kept, and what does not becomes the largest number
/// that does.
pub proof fn lemma_clamp(n: nat)
    ensures
        n <= 0xffff_ffff_ffff_ffff ==> binary64::clamp64(n) == n,
        n > 0xffff_ffff_ffff_ffff ==> binary64::clamp64(n) == 0xffff_ffff_ffff_ffff,
{
}

} // verus!
