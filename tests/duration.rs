use termcastd::duration::{relative_duration_format, Timestamp, MAX_UNIX_TIME};

fn fmt(now: i64, then: i64) -> String {
    String::from_utf8(relative_duration_format(&Timestamp::new(now), &Timestamp::new(then))).unwrap()
}

#[test]
fn under_a_day_is_clock_time() {
    assert_eq!(fmt(1_000_000, 1_000_000), "00:00:00");
    assert_eq!(fmt(1_003_661, 1_000_000), "01:01:01");
    assert_eq!(fmt(1_000_000 + 86_399, 1_000_000), "23:59:59");
}

#[test]
fn days_are_counted_up_to_thirty() {
    let gap = 2 * 86_400 + 3 * 3600 + 4 * 60 + 5;
    assert_eq!(fmt(1_000_000 + gap, 1_000_000), "2d 03:04:05");
    assert_eq!(fmt(1_000_000 + 30 * 86_400, 1_000_000), "30d 00:00:00");
    assert_eq!(fmt(1_000_000 + 86_400, 1_000_000), "00:00:00");
    assert_eq!(fmt(1_000_000 + 86_401, 1_000_000), "1d 00:00:01");
}

#[test]
fn over_thirty_days_is_the_date() {
    assert_eq!(fmt(1_000_000_000 + 31 * 86_400, 1_000_000_000), "2001-09-09 01:46");
    assert_eq!(fmt(2_000_000_000, 0), "1970-01-01 00:00");
    assert_eq!(fmt(1_000_000_000 + 30 * 86_400 + 1, 1_000_000_000), "2001-09-09 01:46");
}

#[test]
fn negative_gap_carries_the_sign() {
    assert_eq!(fmt(1_000_000, 1_000_005), "00:00:-5");
    assert_eq!(fmt(1_000_000, 1_003_661), "-1:-1:-1");
}

#[test]
fn timestamps_are_held_to_range() {
    assert_eq!(Timestamp::new(-5).unix_secs(), 0);
    assert_eq!(Timestamp::new(i64::MAX).unix_secs(), MAX_UNIX_TIME);
    assert_eq!(Timestamp::new(42).unix_secs(), 42);
}
