use teamy_bend::runtime_clock::{bounded_wait, ticks_to_nanoseconds, timespec_nanoseconds, MAX_WAIT_NANOS};

#[test]
fn counter_scaling_preserves_large_values_without_rebasing_or_rounding_up() {
    assert_eq!(ticks_to_nanoseconds(1, 3).unwrap(), 333_333_333);
    assert_eq!(
        ticks_to_nanoseconds(50_000_000_000_007, 10_000_000).unwrap(),
        5_000_000_000_000_700
    );
    ticks_to_nanoseconds(-1, 1).expect_err("negative counter");
    ticks_to_nanoseconds(1, 0).expect_err("zero frequency");
    ticks_to_nanoseconds(1, -1).expect_err("negative frequency");
    ticks_to_nanoseconds(i64::MAX, 1).expect_err("nanosecond overflow");
}

#[test]
fn timespec_readings_are_checked_and_exact() {
    assert_eq!(timespec_nanoseconds(2, 5).unwrap(), 2_000_000_005);
    timespec_nanoseconds(-1, 0).expect_err("negative seconds");
    timespec_nanoseconds(0, 1_000_000_000).expect_err("nanoseconds beyond a second");
    timespec_nanoseconds(0, -1).expect_err("negative nanoseconds");
    timespec_nanoseconds(i64::MAX, 0).expect_err("overflow");
    assert_eq!(bounded_wait(5), 5);
    assert_eq!(bounded_wait(u64::MAX), MAX_WAIT_NANOS);
}

#[test]
fn later_readings_never_give_earlier_times() {
    let mut previous = 0;
    for count in [0, 1, 2, 3, 299, 300, 301, 1_000_000_007] {
        let now = ticks_to_nanoseconds(count, 300).unwrap();
        assert!(now >= previous);
        previous = now;
    }
    assert!(timespec_nanoseconds(1, 999_999_999).unwrap() < timespec_nanoseconds(2, 0).unwrap());
    assert!(timespec_nanoseconds(2, 4).unwrap() <= timespec_nanoseconds(2, 5).unwrap());
}
