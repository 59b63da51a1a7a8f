use std::time::{Duration, UNIX_EPOCH};

use cuda_lbm::clock::{epoch_ns, time_ns, timespec_ns, wall_ns};

#[test]
fn the_wall_clock_is_past_the_year_2020() {
    let first = wall_ns();
    assert!(first > 1_577_836_800_000_000_000);
    assert!(wall_ns() - first < 60_000_000_000);
}

#[test]
fn times_before_the_epoch_count_as_the_epoch() {
    assert_eq!(epoch_ns(None), 0);
    assert_eq!(epoch_ns(Some(1_700_000_000_000_000_123)), 1_700_000_000_000_000_123);
    assert_eq!(epoch_ns(Some((1u128 << 64) + 5)), 5);
}

#[test]
fn timespecs_are_nanoseconds() {
    assert_eq!(timespec_ns(3, 7), 3_000_000_007);
    assert_eq!(timespec_ns(0, 0), 0);
}

#[test]
fn points_in_time_are_counted_from_the_epoch() {
    assert_eq!(time_ns(UNIX_EPOCH), 0);
    assert_eq!(time_ns(UNIX_EPOCH + Duration::new(1_700_000_000, 123)), 1_700_000_000_000_000_123);
    assert_eq!(time_ns(UNIX_EPOCH - Duration::new(5, 1)), 0);
}
