use dedupe::util::{format_duration_ms, human_bytes, parse_size, SizeError};

fn message(raw: &str) -> String {
    parse_size(raw).unwrap_err().message(raw)
}

/// What the same size gives in double precision.
fn reference(raw: &str) -> Option<u64> {
    let s = raw.trim();
    let split = s
        .find(|c: char| !(c.is_ascii_digit() || c == '.'))
        .unwrap_or(s.len());
    let (number, suffix) = s.split_at(split);
    let value: f64 = number.parse().ok()?;
    let factor: f64 = match suffix.trim().to_ascii_uppercase().as_str() {
        "" | "B" => 1.0,
        "KB" => 1e3,
        "MB" => 1e6,
        "GB" => 1e9,
        "TB" => 1e12,
        "K" | "KIB" | "KI" => 1024.0,
        "M" | "MIB" | "MI" => 1024.0 * 1024.0,
        "G" | "GIB" | "GI" => 1024.0 * 1024.0 * 1024.0,
        "T" | "TIB" | "TI" => 1024.0 * 1024.0 * 1024.0 * 1024.0,
        _ => return None,
    };
    let bytes = (value * factor).round();
    if bytes < 0.0 || bytes > u64::MAX as f64 {
        return None;
    }
    Some(bytes as u64)
}

#[test]
fn human_bytes_scales() {
    assert_eq!(human_bytes(0), "0 B");
    assert_eq!(human_bytes(999), "999 B");
    assert_eq!(human_bytes(1_500), "1.50 KB");
    assert_eq!(human_bytes(2_621_440), "2.62 MB");
}

#[test]
fn parse_size_variants() {
    assert_eq!(parse_size("512").unwrap(), 512);
    assert_eq!(parse_size("1.5KB").unwrap(), 1_500);
    assert_eq!(parse_size("2 MB").unwrap(), 2_000_000);
    assert_eq!(parse_size("3GiB").unwrap(), 3 * 1024 * 1024 * 1024);
    assert_eq!(parse_size("4G").unwrap(), 4 * 1024 * 1024 * 1024);
    assert_eq!(parse_size("0").unwrap(), 0);
    assert!(parse_size("abc").is_err());
    assert!(parse_size("1XB").is_err());
}

#[test]
fn format_duration() {
    assert_eq!(format_duration_ms(65_000), "1:05");
    assert_eq!(format_duration_ms(3_661_000), "1:01:01");
}

#[test]
fn durations_drop_milliseconds_and_pad() {
    assert_eq!(format_duration_ms(0), "0:00");
    assert_eq!(format_duration_ms(999), "0:00");
    assert_eq!(format_duration_ms(59_999), "0:59");
    assert_eq!(format_duration_ms(3_600_000), "1:00:00");
    assert_eq!(format_duration_ms(360_000_000), "100:00:00");
    assert_eq!(format_duration_ms(u64::MAX), "5124095576030:25:51");
}

#[test]
fn byte_counts_round_like_double_precision() {
    assert_eq!(human_bytes(1_000), "1.00 KB");
    assert_eq!(human_bytes(999_999), "1000.00 KB");
    assert_eq!(human_bytes(1_000_000), "1.00 MB");
    assert_eq!(human_bytes(5_000_000_000), "5.00 GB");
    assert_eq!(human_bytes(1_234_567_890_123), "1.23 TB");
    assert_eq!(human_bytes(u64::MAX), "18446744.07 TB");
    let mut n: u64 = 1;
    for step in 0..400u64 {
        let mut value = n as f64;
        let mut unit = 0;
        let units = ["B", "KB", "MB", "GB", "TB"];
        while value >= 1000.0 && unit < 4 {
            value /= 1000.0;
            unit += 1;
        }
        let expected = if unit == 0 {
            format!("{n} B")
        } else {
            format!("{value:.2} {}", units[unit])
        };
        assert_eq!(human_bytes(n), expected, "{n}");
        n = n.wrapping_mul(6364136223846793005).wrapping_add(1442695040888963407 + step);
        n >>= step % 60;
    }
}

#[test]
fn sizes_agree_with_double_precision() {
    for raw in [
        "0.1", "0.5", "1.5", "2.5", "1.4999999999999999", "1.", ".5", "  7 B ", "9007199254740993",
        "18446744073709551615", "18446744073709551616", "0.3KB", "1.1MB", "2.675TB", "1.0005K",
        "3.3KiB", "7 kib", "8mi", "1.7 g", "0.000000001TB", "16777216T", "99999999999999999999999",
        "000000000000000000000000000001", "123456789.987654321MB",
        "0.1000000000000000055511151231257827021181583404541015625TB",
    ] {
        assert_eq!(parse_size(raw).ok(), reference(raw), "{raw}");
    }
}

#[test]
fn refused_sizes_say_why() {
    assert!(matches!(parse_size("   "), Err(SizeError::Empty)));
    assert!(matches!(parse_size("abc"), Err(SizeError::Invalid)));
    assert!(matches!(parse_size("1.2.3"), Err(SizeError::Invalid)));
    assert!(matches!(parse_size("."), Err(SizeError::Invalid)));
    assert!(matches!(parse_size("-1"), Err(SizeError::Invalid)));
    assert!(matches!(parse_size("1XB"), Err(SizeError::UnknownSuffix(_))));
    assert!(matches!(parse_size("99999999TB"), Err(SizeError::OutOfRange)));
    assert_eq!(message(""), "empty size");
    assert_eq!(message("abc"), "invalid size: 'abc'");
    assert_eq!(message(" 1 xb"), "unknown size suffix 'XB' in ' 1 xb'");
    assert_eq!(message("99999999TB"), "size out of range: '99999999TB'");
}

#[test]
fn durations_have_one_text_for_each_second() {
    let read = |t: &str| t.split(':').fold(0u64, |n, f| n * 60 + f.parse::<u64>().unwrap());
    for ms in [0u64, 999, 1_000, 59_999, 60_000, 3_599_999, 3_600_000, 86_399_999, u64::MAX] {
        let text = format_duration_ms(ms);
        assert_eq!(read(&text), ms / 1000, "{text}");
        for other in [0u64, 999, 1_500, 59_000, 60_001, 3_599_000, 3_600_999, u64::MAX - 1] {
            assert_eq!(text == format_duration_ms(other), ms / 1000 == other / 1000);
        }
    }
}
