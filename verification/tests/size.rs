use fast_nix_gc::size::{format_size, scale_size, split_size};

fn parse_size(s: &str) -> Option<u64> {
    let parts = split_size(s);
    let n: f64 = parts.number.parse().ok()?;
    scale_size(n.to_bits(), parts.exponent)
}

#[test]
fn format_size_units() {
    assert_eq!(format_size(0), "0 bytes");
    assert_eq!(format_size(1023), "1023 bytes");
    assert_eq!(format_size(1024), "1.00 KiB");
    assert_eq!(format_size(1536), "1.50 KiB");
    assert_eq!(format_size(1024 * 1024), "1.00 MiB");
    assert_eq!(format_size(5 * 1024 * 1024 + 512 * 1024), "5.50 MiB");
    assert_eq!(format_size(1024 * 1024 * 1024), "1.00 GiB");
    assert_eq!(format_size(3 * 1024 * 1024 * 1024 / 2), "1.50 GiB");
}

fn by_floats(bytes: u64) -> String {
    let b = bytes as f64;
    if b >= 1073741824.0 {
        format!("{:.2} GiB", b / 1073741824.0)
    } else if b >= 1048576.0 {
        format!("{:.2} MiB", b / 1048576.0)
    } else if b >= 1024.0 {
        format!("{:.2} KiB", b / 1024.0)
    } else {
        format!("{bytes} bytes")
    }
}

#[test]
fn format_size_rounds_like_floats() {
    // 1.125 is a tie and goes to the even neighbour.
    assert_eq!(format_size(1152), "1.12 KiB");
    assert_eq!(format_size(1408), "1.38 KiB");
    for bytes in [
        1152,
        1408,
        1_048_575,
        1_073_741_823,
        1_073_741_824,
        u64::MAX,
        u64::MAX - 1,
        (1 << 53) + 1,
        (1 << 53) + 3,
        (1 << 60) + 12345,
        9_007_199_254_740_993,
    ] {
        assert_eq!(format_size(bytes), by_floats(bytes), "{bytes}");
    }
    let mut x: u64 = 0x9e3779b97f4a7c15;
    for i in 0..20000u32 {
        x = x.wrapping_mul(6364136223846793005).wrapping_add(1442695040888963407);
        let bytes = x >> (i % 64);
        assert_eq!(format_size(bytes), by_floats(bytes), "{bytes}");
    }
}

#[test]
fn parse_size_units() {
    assert_eq!(parse_size("0").unwrap(), 0);
    assert_eq!(parse_size("123").unwrap(), 123);
    assert_eq!(parse_size("1K").unwrap(), 1024);
    assert_eq!(parse_size("2k").unwrap(), 2048);
    assert_eq!(parse_size("1M").unwrap(), 1024 * 1024);
    assert_eq!(parse_size("3m").unwrap(), 3 * 1024 * 1024);
    assert_eq!(parse_size("1G").unwrap(), 1024 * 1024 * 1024);
    assert_eq!(parse_size("2g").unwrap(), 2 * 1024 * 1024 * 1024);
    assert_eq!(parse_size("1T").unwrap(), 1024u64.pow(4));
    assert_eq!(parse_size("1.5K").unwrap(), 1536);
    assert_eq!(parse_size(" 4M ").unwrap(), 4 * 1024 * 1024);
    assert!(parse_size("abc").is_none());
    assert!(parse_size("-5G").is_none());
    assert!(parse_size("inf").is_none());
    assert!(parse_size("NaN").is_none());
    assert!(parse_size("99999999999999999999G").is_none());
}

#[test]
fn parse_size_matches_float_arithmetic() {
    let by_floats = |s: &str, mult: u64| -> Option<u64> {
        let n: f64 = s.parse().ok()?;
        if !n.is_finite() || n < 0.0 || n * mult as f64 > u64::MAX as f64 {
            return None;
        }
        Some((n * mult as f64) as u64)
    };
    for s in [
        "0", "-0", "0.1", "0.3", "1e3", "1e-3", "12345.678", "1e19", "18446744073709551615",
        "18446744073709551616", "1e20", "5e-324", "1e308", "4.9", "0.999999999999999999",
        "-0.0001", "17179869183.999999",
    ] {
        for (unit, mult) in [
            ("", 1u64),
            ("K", 1 << 10),
            ("M", 1 << 20),
            ("G", 1 << 30),
            ("T", 1 << 40),
        ] {
            let spec = format!("{s}{unit}");
            assert_eq!(parse_size(&spec), by_floats(s, mult), "{spec}");
        }
    }
}
