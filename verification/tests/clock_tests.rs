use chrono::{FixedOffset, TimeZone};
use iplusone::clock::{LocalTime, MAX_UNIX_SECS, MIN_UNIX_SECS};

fn tokyo(year: i32, month: u32, day: u32, hour: u32, min: u32, sec: u32) -> i64 {
    FixedOffset::east_opt(9 * 3600)
        .unwrap()
        .with_ymd_and_hms(year, month, day, hour, min, sec)
        .unwrap()
        .timestamp()
}

fn new_york(year: i32, month: u32, day: u32, hour: u32, min: u32, sec: u32) -> i64 {
    FixedOffset::west_opt(5 * 3600)
        .unwrap()
        .with_ymd_and_hms(year, month, day, hour, min, sec)
        .unwrap()
        .timestamp()
}

#[test]
fn local_time_holds_what_it_was_given() {
    let time = LocalTime::new(1_700_000_000, -3600).unwrap();
    assert_eq!(time.unix_secs(), 1_700_000_000);
    assert_eq!(time.utc_offset_secs(), -3600);
}

#[test]
fn local_time_covers_the_years_0_to_9999() {
    assert_eq!(
        MIN_UNIX_SECS,
        chrono::Utc.with_ymd_and_hms(0, 1, 1, 0, 0, 0).unwrap().timestamp()
    );
    assert_eq!(
        MAX_UNIX_SECS,
        chrono::Utc.with_ymd_and_hms(9999, 12, 31, 23, 59, 59).unwrap().timestamp()
    );
    assert!(LocalTime::new(MIN_UNIX_SECS, 0).is_some());
    assert!(LocalTime::new(MAX_UNIX_SECS, 0).is_some());
    assert!(LocalTime::new(MIN_UNIX_SECS - 1, 0).is_none());
    assert!(LocalTime::new(MAX_UNIX_SECS + 1, 0).is_none());
    assert!(LocalTime::new(i64::MAX, 0).is_none());
    assert!(LocalTime::new(i64::MIN, 0).is_none());
}

#[test]
fn offsets_are_less_than_a_day() {
    assert!(LocalTime::new(0, 86_399).is_some());
    assert!(LocalTime::new(0, -86_399).is_some());
    assert!(LocalTime::new(0, 86_400).is_none());
    assert!(LocalTime::new(0, -86_400).is_none());
    assert!(LocalTime::new(0, i32::MAX).is_none());
    assert!(LocalTime::new(0, i32::MIN).is_none());
}

#[test]
fn in_the_evening_the_day_ends_next_morning() {
    let now = LocalTime::new(tokyo(2024, 3, 10, 23, 0, 0), 9 * 3600).unwrap();
    assert_eq!(now.end_of_day(), tokyo(2024, 3, 11, 4, 0, 0));
}

#[test]
fn after_midnight_the_day_ends_the_same_morning() {
    let now = LocalTime::new(tokyo(2024, 3, 11, 0, 0, 0), 9 * 3600).unwrap();
    assert_eq!(now.end_of_day(), tokyo(2024, 3, 11, 4, 0, 0));
    let now = LocalTime::new(tokyo(2024, 3, 11, 3, 59, 58), 9 * 3600).unwrap();
    assert_eq!(now.end_of_day(), tokyo(2024, 3, 11, 4, 0, 0));
    assert_eq!(now.end_of_day() - now.unix_secs(), 2);
}

#[test]
fn at_four_the_next_day_has_begun() {
    let now = LocalTime::new(tokyo(2024, 3, 11, 4, 0, 0), 9 * 3600).unwrap();
    assert_eq!(now.end_of_day(), tokyo(2024, 3, 12, 4, 0, 0));
    assert_eq!(now.end_of_day() - now.unix_secs(), 86_400);
}

#[test]
fn minutes_and_seconds_do_not_carry_over() {
    let now = LocalTime::new(tokyo(2024, 3, 10, 23, 17, 5), 9 * 3600).unwrap();
    assert_eq!(now.end_of_day(), tokyo(2024, 3, 11, 4, 0, 0));
}

#[test]
fn the_day_ends_by_the_local_clock() {
    let instant = tokyo(2024, 3, 11, 2, 0, 0);
    let in_tokyo = LocalTime::new(instant, 9 * 3600).unwrap();
    assert_eq!(in_tokyo.end_of_day(), tokyo(2024, 3, 11, 4, 0, 0));
    // The same instant is noon of the day before in New York.
    assert_eq!(instant, new_york(2024, 3, 10, 12, 0, 0));
    let in_new_york = LocalTime::new(instant, -5 * 3600).unwrap();
    assert_eq!(in_new_york.end_of_day(), new_york(2024, 3, 11, 4, 0, 0));
}

#[test]
fn the_day_ends_rightly_before_1970() {
    let now = LocalTime::new(tokyo(1969, 12, 31, 23, 0, 0), 9 * 3600).unwrap();
    assert_eq!(now.end_of_day(), tokyo(1970, 1, 1, 4, 0, 0));
    let now = LocalTime::new(tokyo(1901, 5, 5, 1, 2, 3), 9 * 3600).unwrap();
    assert_eq!(now.end_of_day(), tokyo(1901, 5, 5, 4, 0, 0));
    let first = LocalTime::new(MIN_UNIX_SECS, -86_399).unwrap();
    assert_eq!(first.end_of_day(), MIN_UNIX_SECS + 4 * 3600 - 1);
}

#[test]
fn the_end_of_the_day_is_never_more_than_a_day_away() {
    let mut secs: i64 = tokyo(2024, 3, 10, 0, 0, 0);
    let end: i64 = tokyo(2024, 3, 12, 0, 0, 0);
    while secs < end {
        let now = LocalTime::new(secs, 9 * 3600).unwrap();
        let boundary = now.end_of_day();
        assert!(secs < boundary && boundary <= secs + 86_400);
        assert_eq!((boundary + 9 * 3600).rem_euclid(86_400), 4 * 3600);
        secs += 61;
    }
}
