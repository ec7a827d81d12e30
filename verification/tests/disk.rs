use shardscape::disk::{format_bytes, parse_size, DiskGuard, GuardTrip};

#[test]
fn parse_size_units() {
    assert_eq!(parse_size("0").unwrap(), 0);
    assert_eq!(parse_size("1024").unwrap(), 1024);
    assert_eq!(parse_size("1B").unwrap(), 1);
    assert_eq!(parse_size("10Gi").unwrap(), 10 * 1024 * 1024 * 1024);
    assert_eq!(parse_size("500Mi").unwrap(), 500 * 1024 * 1024);
    assert_eq!(parse_size("1Ti").unwrap(), 1024u64.pow(4));
    assert_eq!(parse_size("2GB").unwrap(), 2_000_000_000);
    assert_eq!(parse_size("1.5Gi").unwrap(), (1.5 * 1024.0 * 1024.0 * 1024.0) as u64);
    assert!(parse_size("").is_err());
    assert!(parse_size("10Xy").is_err());
    assert!(parse_size("abc").is_err());
}

#[test]
fn format_bytes_is_human() {
    assert_eq!(format_bytes(512), "512B");
    assert_eq!(format_bytes(1024), "1.0Ki");
    assert_eq!(format_bytes(10 * 1024 * 1024 * 1024), "10.0Gi");
}

#[test]
fn disabled_guard_always_allows() {
    let g = DiskGuard::disabled();
    assert!(!g.enabled());
    assert!(g.writes_allowed());
    assert_eq!(g.check(), None);
}

#[test]
fn guard_trips_below_reserve() {
    let mut g = DiskGuard {
        min_free_bytes: 1u64 << 60,
        free: 0,
        max_bytes: 0,
        local_usage: 0,
    };
    g.refresh(Some(1u64 << 40));
    assert!(g.enabled());
    assert!(!g.writes_allowed(), "guard should trip when free < reserve");
    assert_eq!(g.check(), Some(GuardTrip::LowFreeSpace));

    g.refresh(Some(u64::MAX));
    assert!(g.writes_allowed());
}

#[test]
fn guard_trips_over_quota() {
    let mut g = DiskGuard::over_quota();
    assert!(g.enabled());
    assert!(!g.writes_allowed());
    assert_eq!(g.check(), Some(GuardTrip::OverQuota));

    g.set_local_usage(50);
    assert!(g.writes_allowed());
    assert_eq!(g.check(), None);
}

#[test]
fn guard_free_space_checked_first() {
    let g = DiskGuard {
        min_free_bytes: 1u64 << 60,
        free: 0,
        max_bytes: 100,
        local_usage: 200,
    };
    assert_eq!(g.check(), Some(GuardTrip::LowFreeSpace));
}
