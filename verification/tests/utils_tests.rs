use tap::time::{date_from_ymd, Date};
use tap::utils::{days_diff, utc_date_time, worked_seconds, Chunk};
use tap::TapError;

const EX1: &str = "IN 1718452800\nOUT 1718460000 600000\nIN 1718528400\nOUT 1718532000 3600\nIN 1718618400\nOUT 1718625600 7200";

fn ymd(y: i32, m: u32, d: u32) -> Date {
    date_from_ymd(y, m, d).unwrap()
}

#[test]
fn days_diff_test() {
    assert_eq!(days_diff(ymd(2024, 01, 3), ymd(2024, 01, 4)).unwrap(), 2);
    assert_eq!(days_diff(ymd(2024, 01, 3), ymd(2024, 01, 6)).unwrap(), 4);
}

#[test]
fn hours_worked_test() {
    let seconds = worked_seconds(ymd(2024, 6, 16), ymd(2024, 6, 17), EX1).unwrap();
    assert_eq!(seconds as f32 / (60.0 * 60.0), 3.0);
}

#[test]
fn worked_seconds_exact_sum() {
    // the two OUT records inside the window carry 3600 and 7200 seconds
    assert_eq!(Ok(10800), worked_seconds(ymd(2024, 6, 16), ymd(2024, 6, 17), EX1));
}

#[test]
fn worked_seconds_incomplete_range() {
    // three days, but only two OUT records fall inside the window
    assert_eq!(
        Err(TapError::IncompleteRange),
        worked_seconds(ymd(2024, 6, 16), ymd(2024, 6, 18), EX1)
    );
}

#[test]
fn worked_seconds_rejects_bad_lines() {
    // an empty line has no timestamp field at all
    assert_eq!(
        Err(TapError::Malformed),
        worked_seconds(ymd(2024, 6, 16), ymd(2024, 6, 17), "IN 1718528400\n")
    );
    // a non-numeric timestamp field
    assert_eq!(
        Err(TapError::Malformed),
        worked_seconds(ymd(2024, 6, 16), ymd(2024, 6, 17), "IN abc")
    );
    // a kept OUT record missing its elapsed-seconds field
    assert_eq!(
        Err(TapError::Malformed),
        worked_seconds(ymd(2024, 6, 16), ymd(2024, 6, 17), "OUT 1718532000")
    );
    // the same record outside the window is only skipped
    assert_eq!(
        Err(TapError::IncompleteRange),
        worked_seconds(ymd(2024, 6, 16), ymd(2024, 6, 17), "OUT 12222")
    );
}

#[test]
fn days_diff_rejects_reversed_range() {
    assert_eq!(
        Err(TapError::StartAfterEnd),
        days_diff(ymd(2024, 01, 4), ymd(2024, 01, 3))
    );
    assert_eq!(
        Err(TapError::StartAfterEnd),
        worked_seconds(ymd(2024, 6, 17), ymd(2024, 6, 16), EX1)
    );
}

#[test]
fn date_from_ymd_follows_the_calendar() {
    assert_eq!(0, ymd(1970, 1, 1).days);
    assert_eq!(1, ymd(1970, 1, 2).days);
    assert_eq!(19725, ymd(2024, 1, 3).days);
    assert!(date_from_ymd(2015, 2, 29).is_none());
    assert!(date_from_ymd(2016, 2, 29).is_some());
    assert!(date_from_ymd(2024, 0, 1).is_none());
    assert!(date_from_ymd(2024, 13, 1).is_none());
    assert!(date_from_ymd(400000, 1, 1).is_none());
}

#[test]
fn utc_date_time_builds_the_instant() {
    assert_eq!(0, utc_date_time(ymd(1970, 1, 1), 0, 0).secs);
    assert_eq!(9 * 3600, utc_date_time(ymd(1970, 1, 1), 9, 0).secs);
    // 2024-06-16 at 23:59:00 UTC
    assert_eq!(1718582340, utc_date_time(ymd(2024, 6, 16), 23, 59).secs);
}

#[test]
fn chunk_tags() {
    assert_eq!("IN", Chunk::In(5).val());
    assert_eq!("OUT", Chunk::Out(5, 10).val());
}
