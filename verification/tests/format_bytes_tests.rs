use tailscale_top::units::format_bytes;

fn float_format(bytes: u64) -> String {
    const KB: u64 = 1024;
    const MB: u64 = 1024 * KB;
    const GB: u64 = 1024 * MB;
    if bytes >= GB {
        format!("{:.1} GB", bytes as f64 / GB as f64)
    } else if bytes >= MB {
        format!("{:.1} MB", bytes as f64 / MB as f64)
    } else if bytes >= KB {
        format!("{:.1} KB", bytes as f64 / KB as f64)
    } else {
        format!("{bytes} B")
    }
}

#[test]
fn format_bytes_small_counts() {
    assert_eq!(format_bytes(0), "0 B");
    assert_eq!(format_bytes(1), "1 B");
    assert_eq!(format_bytes(512), "512 B");
    assert_eq!(format_bytes(1023), "1023 B");
}

#[test]
fn format_bytes_units() {
    assert_eq!(format_bytes(1024), "1.0 KB");
    assert_eq!(format_bytes(1536), "1.5 KB");
    assert_eq!(format_bytes(1024 * 1024), "1.0 MB");
    assert_eq!(format_bytes(1024 * 1024 * 1024), "1.0 GB");
    assert_eq!(format_bytes(5 * 1024 * 1024 * 1024 / 2), "2.5 GB");
    assert_eq!(format_bytes(1024 * 1024 - 1), "1024.0 KB");
}

#[test]
fn format_bytes_rounding_ties() {
    // 1280 B is exactly 1.25 KB: a tie at one decimal place
    assert_eq!(format_bytes(1280), float_format(1280));
    assert_eq!(format_bytes(1280 + 1024), float_format(1280 + 1024));
    assert_eq!(format_bytes(3 * 1024 * 1024 / 4 * 5 / 3), float_format(3 * 1024 * 1024 / 4 * 5 / 3));
}

#[test]
fn format_bytes_largest_values() {
    assert_eq!(format_bytes(u64::MAX), float_format(u64::MAX));
    assert_eq!(format_bytes(u64::MAX), "17179869184.0 GB");
    for b in [
        1u64 << 53,
        (1u64 << 53) + 1,
        (1u64 << 53) + 3,
        (1u64 << 60) + 12345,
        (1u64 << 63) - 1,
        9_007_199_254_740_993,
        u64::MAX - 1024,
    ] {
        assert_eq!(format_bytes(b), float_format(b), "bytes = {b}");
    }
}

#[test]
fn format_bytes_matches_float_formatting() {
    for b in 0u64..5000 {
        assert_eq!(format_bytes(b), float_format(b), "bytes = {b}");
    }
    let mut b: u64 = 1;
    while b < u64::MAX / 3 {
        for d in [0u64, 1, 7, 51, 102, 512, 1023] {
            let v = b.saturating_add(d);
            assert_eq!(format_bytes(v), float_format(v), "bytes = {v}");
        }
        b = b * 3 + 1;
    }
    let mut x: u64 = 0x9E37_79B9_7F4A_7C15;
    for _ in 0..20000 {
        x ^= x << 13;
        x ^= x >> 7;
        x ^= x << 17;
        let v = x >> (x % 64);
        assert_eq!(format_bytes(v), float_format(v), "bytes = {v}");
    }
}
