use shardscape::clock::{micros_of, wall_millis_of, BeforeEpoch, ClusterClock};
use std::time::{SystemTime, UNIX_EPOCH};

#[test]
fn zero_offset_returns_approx_unix_micros() {
    let clock = ClusterClock::new(0);
    let before = SystemTime::now()
        .duration_since(UNIX_EPOCH)
        .unwrap()
        .as_micros() as i64;
    let t = clock.now_micros();
    let after = SystemTime::now()
        .duration_since(UNIX_EPOCH)
        .unwrap()
        .as_micros() as i64;
    assert!(t >= before, "clock went backwards vs before");
    assert!(t <= after, "clock jumped ahead of after");
}

#[test]
fn positive_offset_shifts_time_forward() {
    let clock = ClusterClock::new(1000); // +1 second
    let now_raw = SystemTime::now()
        .duration_since(UNIX_EPOCH)
        .unwrap()
        .as_micros() as i64;
    let t = clock.now_micros();
    // Should be roughly now + 1_000_000 µs; allow 100 ms slop.
    assert!(t >= now_raw + 900_000);
    assert!(t <= now_raw + 1_100_000);
}

#[test]
fn negative_offset_shifts_time_backward() {
    let clock = ClusterClock::new(-1000); // -1 second
    let now_raw = SystemTime::now()
        .duration_since(UNIX_EPOCH)
        .unwrap()
        .as_micros() as i64;
    let t = clock.now_micros();
    assert!(t >= now_raw - 1_100_000);
    assert!(t <= now_raw - 900_000);
}

#[test]
fn set_offset_updates_immediately() {
    let mut clock = ClusterClock::new(0);
    assert_eq!(clock.get_offset(), 0);
    clock.set_offset(500);
    assert_eq!(clock.get_offset(), 500);
    clock.set_offset(-200);
    assert_eq!(clock.get_offset(), -200);
}

#[test]
fn now_micros_is_monotone_under_zero_offset() {
    // Without artificial delays, two sequential calls should be non-decreasing.
    let clock = ClusterClock::new(0);
    let t1 = clock.now_micros();
    let t2 = clock.now_micros();
    assert!(t2 >= t1);
}

#[test]
fn large_positive_offset() {
    // 86_400_000 ms = 1 day; make sure arithmetic doesn't overflow.
    let clock = ClusterClock::new(86_400_000);
    let t = clock.now_micros();
    assert!(t > 0);
}

#[test]
fn now_micros_reflects_updated_offset() {
    let mut clock = ClusterClock::new(0);
    let t0 = clock.now_micros();
    clock.set_offset(10_000); // +10 seconds
    let t1 = clock.now_micros();
    // t1 should be at least 9.9 s ahead of t0.
    assert!(t1 - t0 >= 9_900_000, "offset change not reflected: t1={t1}, t0={t0}");
}

#[test]
fn wall_time_counts_from_the_epoch() {
    let epoch = std::time::UNIX_EPOCH;
    let second = std::time::Duration::from_micros(1_234_567);
    assert_eq!(wall_millis_of(&(epoch + second)), Ok(1234));
    assert_eq!(wall_millis_of(&epoch), Ok(0));
    assert_eq!(wall_millis_of(&(epoch - second)), Err(BeforeEpoch));
    assert_eq!(micros_of(&(epoch + second)), 1_234_567);
    // Before the epoch the distance counts.
    assert_eq!(micros_of(&(epoch - second)), 1_234_567);
}
