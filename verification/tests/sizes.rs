use shardscape::config::Config;
use shardscape::disk::{format_bytes, parse_size, DiskGuard, GuardTrip, SizeError};

#[test]
fn sizes_have_their_units() {
    let units: [(&str, u64); 19] = [
        ("", 1),
        ("b", 1),
        ("K", 1000),
        ("kb", 1000),
        ("Ki", 1 << 10),
        ("KIB", 1 << 10),
        ("m", 1_000_000),
        ("MB", 1_000_000),
        ("Mi", 1 << 20),
        ("mib", 1 << 20),
        ("g", 1_000_000_000),
        ("GB", 1_000_000_000),
        ("Gi", 1 << 30),
        ("GiB", 1 << 30),
        ("t", 1_000_000_000_000),
        ("TB", 1_000_000_000_000),
        ("Ti", 1 << 40),
        ("tib", 1 << 40),
        (" Gi", 1 << 30),
    ];
    // Numerator and denominator of each number.
    let nums: [(&str, u128, u128); 14] = [
        ("0", 0, 1),
        ("1", 1, 1),
        ("10", 10, 1),
        ("5.", 5, 1),
        (".5", 1, 2),
        ("0.1", 1, 10),
        ("1.001", 1001, 1000),
        ("2.675", 2675, 1000),
        ("123456789.987654321", 123456789987654321, 1_000_000_000),
        ("9007199254740993", 9007199254740993, 1),
        ("18446744073709551615", u64::MAX as u128, 1),
        ("99999999999999999999999", 99999999999999999999999, 1),
        ("0.000000000000000000001", 1, 1_000_000_000_000_000_000_000),
        ("00012.500", 125, 10),
    ];
    for (unit, factor) in units {
        for (num, over, under) in nums {
            let size = format!("{num}{unit}");
            let want = (over * factor as u128 / under).min(u64::MAX as u128) as u64;
            assert_eq!(parse_size(&size).unwrap(), want, "{size}");
        }
    }
}

#[test]
fn sizes_are_taken_exactly() {
    assert_eq!(parse_size("9007199254740993").unwrap(), 9007199254740993);
    assert_eq!(parse_size("18446744073709551615").unwrap(), u64::MAX);
    assert_eq!(parse_size("18446744073709551616").unwrap(), u64::MAX);
    assert_eq!(parse_size("1.001K").unwrap(), 1001);
    assert_eq!(parse_size("0.9999").unwrap(), 0);
    assert_eq!(parse_size("  1.5 Gi  ").unwrap(), 1610612736);
    assert_eq!(parse_size(&format!("0.{}Ti", "9".repeat(400))).unwrap(), (1 << 40) - 1);
    assert_eq!(parse_size(&"9".repeat(400)).unwrap(), u64::MAX);
}

#[test]
fn bad_sizes_say_why() {
    let why = |s: &str| parse_size(s).err().unwrap().message();
    assert!(matches!(parse_size("   "), Err(SizeError::Empty)));
    assert_eq!(why("  "), "empty size");
    assert_eq!(why("abc"), "invalid number in size 'abc'");
    assert_eq!(why("."), "invalid number in size '.'");
    assert_eq!(why(" 1.2.3Gi "), "invalid number in size '1.2.3Gi'");
    assert_eq!(why("-5"), "invalid number in size '-5'");
    assert_eq!(why("10Xy"), "unknown size unit 'xy' in '10Xy'");
    assert_eq!(why("1e5"), "unknown size unit 'e5' in '1e5'");
    assert!(matches!(parse_size("x"), Err(SizeError::InvalidNumber(_))));
    assert!(matches!(parse_size("1x"), Err(SizeError::UnknownUnit(_, _))));
}

/// The text of a byte count, by floating-point arithmetic.
fn expected_text(bytes: u64) -> String {
    let units = ["B", "Ki", "Mi", "Gi", "Ti"];
    let mut v = bytes as f64;
    let mut u = 0;
    while v >= 1024.0 && u < units.len() - 1 {
        v /= 1024.0;
        u += 1;
    }
    if u == 0 {
        format!("{bytes}{}", units[0])
    } else {
        format!("{v:.1}{}", units[u])
    }
}

#[test]
fn byte_counts_read_as_floating_point_gives() {
    let mut samples = vec![0, 1, 1023, 1024, 1025, 1075, 1076, 1126, 1127, 1536, u64::MAX];
    for shift in 0..64 {
        let base = 1u64 << shift;
        for d in [0u64, 1, 51, 52, 1023] {
            samples.push(base.saturating_add(d));
            samples.push(base.saturating_sub(d));
            samples.push(base.saturating_add(base / 20 * d.min(19)));
        }
    }
    let mut x: u64 = 88172645463325252;
    for _ in 0..2000 {
        x ^= x << 13;
        x ^= x >> 7;
        x ^= x << 17;
        samples.push(x >> (x % 60));
    }
    for n in samples {
        assert_eq!(format_bytes(n), expected_text(n), "{n}");
    }
}

#[test]
fn byte_counts_exactly() {
    assert_eq!(format_bytes(1536), "1.5Ki");
    // Half-way cases go to the even digit: 1.25 and 1.75.
    assert_eq!(format_bytes(1280), "1.2Ki");
    assert_eq!(format_bytes(1792), "1.8Ki");
    assert_eq!(format_bytes(1048575), "1024.0Ki");
    assert_eq!(format_bytes(u64::MAX), "16777216.0Ti");
}

#[test]
fn guard_follows_the_configuration() {
    let mut config = Config::default();
    let g = DiskGuard::from_config(&config);
    assert_eq!(g.min_free_bytes(), 10 * 1024 * 1024 * 1024);
    assert!(g.free_space_enabled() && !g.quota_enabled());
    assert_eq!(g.free_bytes(), u64::MAX);

    config.storage.min_free_bytes = Some("rubbish".to_string());
    config.storage.max_bytes = Some("1Ki".to_string());
    let mut g = DiskGuard::from_config(&config);
    // A size that cannot be read disables its limit.
    assert_eq!(g.min_free_bytes(), 0);
    assert_eq!(g.max_bytes(), 1024);
    g.set_local_usage(1023);
    assert_eq!(g.check(), None);
    g.set_local_usage(1024);
    assert_eq!(g.check(), Some(GuardTrip::OverQuota));

    config.storage.max_bytes = Some(String::new());
    assert!(!DiskGuard::from_config(&config).enabled());
}

#[test]
fn guard_readings_without_a_reserve_are_not_taken() {
    let mut g = DiskGuard::disabled();
    g.refresh(Some(5));
    assert_eq!(g.free_bytes(), u64::MAX);
    // A failed reading keeps the last one.
    let mut g = DiskGuard { min_free_bytes: 10, free: 7, max_bytes: 0, local_usage: 0 };
    g.refresh(None);
    assert_eq!(g.free_bytes(), 7);
    g.refresh(Some(10));
    assert_eq!(g.check(), None);
    g.refresh(Some(9));
    assert_eq!(g.check(), Some(GuardTrip::LowFreeSpace));
}

#[test]
fn guard_speaks_of_its_limits() {
    let g = DiskGuard { min_free_bytes: 2048, free: 4096, max_bytes: 1024, local_usage: 512 };
    assert_eq!(g.banner(), "reserve 2.0Ki, cap 1.0Ki (512B used now), 4.0Ki free now");
    assert_eq!(g.state(), "OK, reserve 2.0Ki, cap 1.0Ki");
    let g = DiskGuard { min_free_bytes: 2048, free: 4096, max_bytes: 0, local_usage: 512 };
    assert_eq!(g.banner(), "reserve 2.0Ki, 4.0Ki free now");
    assert_eq!(g.state(), "OK, reserve 2.0Ki");
    let g = DiskGuard { min_free_bytes: 2048, free: 1, max_bytes: 0, local_usage: 0 };
    assert_eq!(g.state(), "TRIPPED — writes refused (reserve 2.0Ki)");
    let g = DiskGuard { min_free_bytes: 0, free: 1, max_bytes: 1024, local_usage: 5000 };
    assert_eq!(g.state(), "TRIPPED — writes refused (cap 1.0Ki)");
    assert_eq!(DiskGuard::disabled().state(), "off");
}
