use dedupe::binary64::Binary64;

/// The number in hardware double precision.
fn double(x: Binary64) -> f64 {
    x.mant as f64 * 2f64.powi(x.exp)
}

/// A hardware double that is a normal number or zero.
fn of_double(x: f64) -> Binary64 {
    if x == 0.0 {
        return Binary64 { mant: 0, exp: 0 };
    }
    let bits = x.to_bits();
    Binary64 {
        mant: (bits & 0xf_ffff_ffff_ffff) | 0x10_0000_0000_0000,
        exp: ((bits >> 52) & 0x7ff) as i32 - 1075,
    }
}

/// Some numbers that are spread over 64 bits.
fn samples() -> Vec<u64> {
    let mut out = vec![0, 1, 2, 3, 9007199254740991, 9007199254740993, u64::MAX, u64::MAX - 1];
    let mut n: u64 = 0x9e37_79b9_7f4a_7c15;
    for i in 0..150u32 {
        n ^= n << 13;
        n ^= n >> 7;
        n ^= n << 17;
        out.push(n >> (i % 64));
    }
    out
}

#[test]
fn integers_and_fractions_round_like_hardware() {
    for a in samples() {
        assert_eq!(double(Binary64::from_u64(a)), a as f64, "{a}");
        assert_eq!(Binary64::from_u64(a), of_double(a as f64), "{a}");
        for b in [1u64, 3, 7, 64, 1000, 9007199254740991] {
            let (x, y) = (a % 9007199254740992, b);
            assert_eq!(double(Binary64::ratio(x, y)), x as f64 / y as f64, "{x}/{y}");
        }
    }
}

#[test]
fn products_and_quotients_round_like_hardware() {
    for a in samples() {
        for b in [1u64, 3, 5, 100, 1000, 123_456_789, u64::MAX] {
            let (x, y) = (Binary64::from_u64(a), Binary64::from_u64(b));
            assert_eq!(double(x.mul(y)), a as f64 * b as f64, "{a}*{b}");
            assert_eq!(double(x.div(y)), a as f64 / b as f64, "{a}/{b}");
            assert_eq!(x.at_least(y), a as f64 >= b as f64);
            assert_eq!(y.at_least(x), b as f64 >= a as f64);
        }
    }
}

#[test]
fn integers_are_taken_like_hardware() {
    for a in samples() {
        for d in [1u64, 2, 3, 4, 7, 1000, 4294967296] {
            let x = Binary64::from_u64(a).div(Binary64::from_u64(d));
            let f = a as f64 / d as f64;
            assert_eq!(x.floor(), f as u64, "{a}/{d}");
            assert_eq!(x.round(), f.round() as u64, "{a}/{d}");
        }
    }
}

#[test]
fn decimals_are_written_like_hardware() {
    for a in samples() {
        for d in [1u64, 3, 8, 64, 1000] {
            let x = Binary64::from_u64(a % 1_000_000_000).div(Binary64::from_u64(d));
            let f = (a % 1_000_000_000) as f64 / d as f64;
            assert_eq!(x.fixed(1), format!("{f:.1}"));
            assert_eq!(x.fixed(2), format!("{f:.2}"));
            assert_eq!(x.fixed(6), format!("{f:.6}"));
        }
    }
}
