use tap::time::Timestamp;
use tap::{last_in, last_in_today, last_out, last_out_today, tap_in, tap_out, TapError};

fn ts(secs: i64) -> Timestamp {
    Timestamp { secs }
}

fn now_secs() -> i64 {
    std::time::SystemTime::now()
        .duration_since(std::time::UNIX_EPOCH)
        .unwrap()
        .as_secs() as i64
}

#[test]
fn find_last_in_from_str() {
    let t = [
        "OUT 12222\nIN 123456\n",
        "OUT 12222\nIN 123456",
        "OUT 1222\nIN 123456\nOUT 1222",
        "OUT 1222\nIN 123333\nOUT 1222\nIN 123456",
    ];
    t.map(|t| assert_eq!(ts(123456), last_in(t).unwrap()));
}

#[test]
fn infer_last_in_when_missing() {
    let t = "OUT 12222\nIN 1718627587\n";
    assert_eq!(
        ts(1718627587),
        last_in_today(&t, ts(1718629359)).unwrap().1
    );
}

#[test]
fn scenarios() {
    let day = now_secs().div_euclid(86400);
    let today_10am = ts(day * 86400 + 10 * 3600);
    let today_5pm = ts(day * 86400 + 17 * 3600);
    let log = format!("OUT 12222\nIN {}\n", today_10am.secs);

    // last in was 10am this morning
    assert_eq!(true, last_in_today(&log, today_5pm).unwrap().0);
    assert_eq!(today_10am, last_in_today(&log, today_5pm).unwrap().1);

    let tomorrow_5pm = ts(today_5pm.secs + 86400);
    let tomorrow_9am = ts((day + 1) * 86400 + 9 * 3600);

    // last in is missing, so 9am assumed
    assert_eq!(false, last_in_today(&log, tomorrow_5pm).unwrap().0);
    assert_eq!(tomorrow_9am, last_in_today(&log, tomorrow_5pm).unwrap().1);
}

#[test]
fn last_in_missing_or_malformed() {
    assert_eq!(Err(TapError::NoInRecord), last_in(""));
    assert_eq!(Err(TapError::NoInRecord), last_in("123456"));
    assert_eq!(Err(TapError::NoInRecord), last_in("OUT 12222 40"));
    assert_eq!(Err(TapError::Malformed), last_in("IN abc"));
    assert_eq!(Err(TapError::Malformed), last_in("IN "));
    // a timestamp beyond the representable range of dates
    assert_eq!(Err(TapError::Malformed), last_in("IN 9223372036854775807"));
    // the capture ends at the line break, not at a space
    assert_eq!(ts(77), last_in("IN 77\nOUT 88 11").unwrap());
}

#[test]
fn last_out_reads_to_first_space() {
    assert_eq!(ts(1718460000), last_out("IN 1\nOUT 1718460000 600000\n").unwrap());
    assert_eq!(Err(TapError::NoOutRecord), last_out("IN 123456\n"));
    // no space after the timestamp: the record is malformed
    assert_eq!(Err(TapError::Malformed), last_out("OUT 12222"));
    assert_eq!(Err(TapError::Malformed), last_out("OUT 12222\nIN 5"));
}

#[test]
fn last_out_today_defaults_to_5pm() {
    let day = 1718627587i64.div_euclid(86400);
    let now = ts(1718629359);
    // an OUT recorded on an earlier day: the 17:00:00 default stands in
    let log = "OUT 12222 600 \nIN 1718627587\n";
    let (found, t) = last_out_today(log, now).unwrap();
    assert_eq!(false, found);
    assert_eq!(ts(day * 86400 + 17 * 3600), t);
    // an OUT recorded today is reported as it stands
    let log2 = format!("IN 1718620000\nOUT {} 7587\n", 1718627587);
    assert_eq!((true, ts(1718627587)), last_out_today(&log2, now).unwrap());
}

#[test]
fn tap_in_twice_same_day_fails() {
    let day = now_secs().div_euclid(86400);
    let morning = ts(day * 86400 + 9 * 3600 + 30 * 60);
    let later = ts(day * 86400 + 11 * 3600);
    let log = "IN 100\nOUT 200 100\n".to_string();
    let first = tap_in(&log, morning).unwrap();
    assert_eq!(morning, first);
    let grown = format!("{}IN {}\n", log, first.secs);
    assert_eq!(
        Err(TapError::AlreadyTappedIn(morning)),
        tap_in(&grown, later)
    );
}

#[test]
fn tap_out_before_tap_in_uses_default() {
    let day = now_secs().div_euclid(86400);
    let now = ts(day * 86400 + 18 * 3600);
    // both records fall on earlier days: elapsed counts from 09:00 today
    let log = "IN 100\nOUT 200 100\n";
    let (t, work) = tap_out(log, now).unwrap();
    assert_eq!(now, t);
    assert_eq!(9 * 3600, work);
}

#[test]
fn tap_out_twice_same_day_fails() {
    let day = now_secs().div_euclid(86400);
    let five_pm = ts(day * 86400 + 17 * 3600 + 60);
    let log = format!("IN 100\nOUT {} 100\n", day * 86400 + 16 * 3600);
    assert_eq!(
        Err(TapError::AlreadyTappedOut(ts(day * 86400 + 16 * 3600))),
        tap_out(&log, five_pm)
    );
}

#[test]
fn tap_in_empty_log_propagates_missing_record() {
    let day = now_secs().div_euclid(86400);
    let morning = ts(day * 86400 + 9 * 3600);
    assert_eq!(Err(TapError::NoInRecord), tap_in("", morning));
}
