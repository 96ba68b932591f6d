//! A personal work-hours tracker: an append-only text log records `IN <t>`
//! and `OUT <t> <elapsed>` lines, and the functions here answer temporal
//! queries against that text — the instant of the last tap-in or tap-out,
//! whether one already happened today, and the decision a new tap-in or
//! tap-out comes to. All reading of the log is done on the raw text, by
//! locating the final record marker and reading the digits that follow it.

pub mod text;
pub mod time;
pub mod utils;

use vstd::prelude::*;

use crate::text::{
    capture_to_newline, chars_of, copy_range, dec_repr, find_char_from, find_last_marker,
    first_at_or_len, is_digit, last_marker, lemma_dec_repr_chars, lemma_first_at_finds,
    lemma_last_marker_from_found, lemma_parse_dec_repr, marker_at, parse_i64_chars, parse_i64_spec,
};
use crate::time::{day_of, day_number, day_start, ts_valid, Timestamp, TS_MAX, TS_MIN};

verus! {

/// Why an operation of the tracker refused to answer.
#[derive(Clone, Copy, Debug, PartialEq, Eq, Structural)]
pub enum TapError {
    /// The log holds no `IN ` record at all.
    NoInRecord,
    /// The log holds no `OUT ` record at all.
    NoOutRecord,
    /// A record does not follow the log grammar, or its timestamp lies
    /// outside the representable range of dates.
    Malformed,
    /// A tap-in is already recorded today, at the carried instant.
    AlreadyTappedIn(Timestamp),
    /// A tap-out is already recorded today, at the carried instant.
    AlreadyTappedOut(Timestamp),
    /// The start of a date range lies after its end.
    StartAfterEnd,
    /// Some day of the range has no complete `OUT` record; summing hours
    /// over such a range is not supported.
    IncompleteRange,
}

/// The marker text that opens an `IN` record.
pub open spec fn in_marker() -> Seq<char> {
    seq!['I', 'N', ' ']
}

/// The marker text that opens an `OUT` record.
pub open spec fn out_marker() -> Seq<char> {
    seq!['O', 'U', 'T', ' ']
}

/// What `last_in` returns on the text `s`: the digits after the final `IN `
/// marker, up to the next line break, read as a timestamp.
pub open spec fn last_in_spec(s: Seq<char>) -> Result<int, TapError> {
    match last_marker(s, in_marker()) {
        Option::None => Result::Err(TapError::NoInRecord),
        Option::Some(i) => match parse_i64_spec(capture_to_newline(s, i + 3)) {
            Option::Some(v) => if ts_valid(v) {
                Result::Ok(v)
            } else {
                Result::Err(TapError::Malformed)
            },
            Option::None => Result::Err(TapError::Malformed),
        },
    }
}

/// What `last_out` returns on the text `s`: the text after the final `OUT `
/// marker and before the next space, read as a timestamp; with no space
/// after the marker the record is malformed.
pub open spec fn last_out_spec(s: Seq<char>) -> Result<int, TapError> {
    match last_marker(s, out_marker()) {
        Option::None => Result::Err(TapError::NoOutRecord),
        Option::Some(i) => {
            let j = first_at_or_len(s, i + 4, ' ');
            if j >= s.len() {
                Result::Err(TapError::Malformed)
            } else {
                match parse_i64_spec(s.subrange(i + 4, j)) {
                    Option::Some(v) => if ts_valid(v) {
                        Result::Ok(v)
                    } else {
                        Result::Err(TapError::Malformed)
                    },
                    Option::None => Result::Err(TapError::Malformed),
                }
            }
        },
    }
}

/// What `last_in_today` returns: the last tap-in instant and whether it falls
/// on the same UTC calendar day as `now`; when it does not, the synthetic
/// default of today at 09:00:00 UTC stands in for it.
pub open spec fn last_in_today_spec(s: Seq<char>, now: int) -> Result<(bool, int), TapError> {
    match last_in_spec(s) {
        Result::Err(e) => Result::Err(e),
        Result::Ok(v) => if day_of(v) == day_of(now) {
            Result::Ok((true, v))
        } else {
            Result::Ok((false, day_of(now) * 86400 + 9 * 3600))
        },
    }
}

/// What `last_out_today` returns, with the synthetic default of today at
/// 17:00:00 UTC.
pub open spec fn last_out_today_spec(s: Seq<char>, now: int) -> Result<(bool, int), TapError> {
    match last_out_spec(s) {
        Result::Err(e) => Result::Err(e),
        Result::Ok(v) => if day_of(v) == day_of(now) {
            Result::Ok((true, v))
        } else {
            Result::Ok((false, day_of(now) * 86400 + 17 * 3600))
        },
    }
}

/// What a tap-in at `now` decides on the log text `s`: the instant to append
/// as a new `IN` record, or the violation that forbids it.
pub open spec fn tap_in_spec(s: Seq<char>, now: int) -> Result<int, TapError> {
    match last_in_today_spec(s, now) {
        Result::Err(e) => Result::Err(e),
        Result::Ok((found, t)) => if found {
            Result::Err(TapError::AlreadyTappedIn(Timestamp { secs: t as i64 }))
        } else {
            Result::Ok(now)
        },
    }
}

/// What a tap-out at `now` decides on the log text `s`: the instant and the
/// elapsed whole seconds to append as a new `OUT` record, or the violation
/// that forbids it.
pub open spec fn tap_out_spec(s: Seq<char>, now: int) -> Result<(int, int), TapError> {
    match last_out_today_spec(s, now) {
        Result::Err(e) => Result::Err(e),
        Result::Ok((found, t)) => if found {
            Result::Err(TapError::AlreadyTappedOut(Timestamp { secs: t as i64 }))
        } else {
            match last_in_today_spec(s, now) {
                Result::Err(e) => Result::Err(e),
                Result::Ok((_, tin)) => Result::Ok((now, now - tin)),
            }
        },
    }
}

/// Builds the `IN ` marker as characters.
fn in_marker_vec() -> (r: Vec<char>)
    ensures
        r@ == in_marker(),
{
    let mut v: Vec<char> = Vec::new();
    v.push('I');
    v.push('N');
    v.push(' ');
    proof {
        assert(v@ =~= in_marker());
    }
    v
}

/// Builds the `OUT ` marker as characters.
fn out_marker_vec() -> (r: Vec<char>)
    ensures
        r@ == out_marker(),
{
    let mut v: Vec<char> = Vec::new();
    v.push('O');
    v.push('U');
    v.push('T');
    v.push(' ');
    proof {
        assert(v@ =~= out_marker());
    }
    v
}

/// The instant of the last `IN` record of the log text: the digits after the
/// final `IN ` marker, up to the next line break or the end of the text.
pub fn last_in(log_txt: &str) -> (r: Result<Timestamp, TapError>)
    ensures
        match r {
            Result::Ok(t) => last_in_spec(log_txt@) == Result::Ok::<int, TapError>(t.secs as int)
                && t.valid(),
            Result::Err(e) => last_in_spec(log_txt@) == Result::Err::<int, TapError>(e),
        },
{
    let chars = chars_of(log_txt);
    let marker = in_marker_vec();
    match find_last_marker(&chars, &marker) {
        Option::None => Result::Err(TapError::NoInRecord),
        Option::Some(i) => {
            let n = chars.len();
            assert(i + 3 <= n);
            let j = find_char_from(&chars, i + 3, '\n');
            let cap = copy_range(&chars, i + 3, j);
            match parse_i64_chars(&cap) {
                Option::Some(v) => if TS_MIN <= v && v <= TS_MAX {
                    Result::Ok(Timestamp { secs: v })
                } else {
                    Result::Err(TapError::Malformed)
                },
                Option::None => Result::Err(TapError::Malformed),
            }
        },
    }
}

/// The instant of the last `OUT` record of the log text: the text after the
/// final `OUT ` marker and before the next space.
pub fn last_out(log_txt: &str) -> (r: Result<Timestamp, TapError>)
    ensures
        match r {
            Result::Ok(t) => last_out_spec(log_txt@) == Result::Ok::<int, TapError>(t.secs as int)
                && t.valid(),
            Result::Err(e) => last_out_spec(log_txt@) == Result::Err::<int, TapError>(e),
        },
{
    let chars = chars_of(log_txt);
    let marker = out_marker_vec();
    match find_last_marker(&chars, &marker) {
        Option::None => Result::Err(TapError::NoOutRecord),
        Option::Some(i) => {
            let n = chars.len();
            assert(i + 4 <= n);
            let j = find_char_from(&chars, i + 4, ' ');
            if j == chars.len() {
                return Result::Err(TapError::Malformed);
            }
            let cap = copy_range(&chars, i + 4, j);
            match parse_i64_chars(&cap) {
                Option::Some(v) => if TS_MIN <= v && v <= TS_MAX {
                    Result::Ok(Timestamp { secs: v })
                } else {
                    Result::Err(TapError::Malformed)
                },
                Option::None => Result::Err(TapError::Malformed),
            }
        },
    }
}

/// The last tap-in instant when it falls on the same UTC calendar day as
/// `now_dt` (`true`), else the synthetic default of that day at 09:00:00 UTC
/// (`false`). Fails only when the log has no readable `IN` record at all.
pub fn last_in_today(log_txt: &str, now_dt: Timestamp) -> (r: Result<(bool, Timestamp), TapError>)
    requires
        now_dt.valid(),
    ensures
        match r {
            Result::Ok((found, t)) => last_in_today_spec(log_txt@, now_dt.secs as int)
                == Result::Ok::<(bool, int), TapError>((found, t.secs as int)) && t.valid(),
            Result::Err(e) => last_in_today_spec(log_txt@, now_dt.secs as int) == Result::Err::<
                (bool, int),
                TapError,
            >(e),
        },
{
    match last_in(log_txt) {
        Result::Err(e) => Result::Err(e),
        Result::Ok(t) => {
            let dn_now = day_number(now_dt);
            let dn_in = day_number(t);
            if dn_in == dn_now {
                Result::Ok((true, t))
            } else {
                Result::Ok((false, Timestamp { secs: day_start(dn_now) + 9 * 3600 }))
            }
        },
    }
}

/// The last tap-out instant when it falls on the same UTC calendar day as
/// `now_dt` (`true`), else the synthetic default of that day at 17:00:00 UTC
/// (`false`). Fails only when the log has no readable `OUT` record at all.
pub fn last_out_today(log_txt: &str, now_dt: Timestamp) -> (r: Result<(bool, Timestamp), TapError>)
    requires
        now_dt.valid(),
    ensures
        match r {
            Result::Ok((found, t)) => last_out_today_spec(log_txt@, now_dt.secs as int)
                == Result::Ok::<(bool, int), TapError>((found, t.secs as int)) && t.valid(),
            Result::Err(e) => last_out_today_spec(log_txt@, now_dt.secs as int) == Result::Err::<
                (bool, int),
                TapError,
            >(e),
        },
{
    match last_out(log_txt) {
        Result::Err(e) => Result::Err(e),
        Result::Ok(t) => {
            let dn_now = day_number(now_dt);
            let dn_out = day_number(t);
            if dn_out == dn_now {
                Result::Ok((true, t))
            } else {
                Result::Ok((false, Timestamp { secs: day_start(dn_now) + 17 * 3600 }))
            }
        },
    }
}

/// Decides a tap-in at `now_dt` on the given log text: the instant to record
/// as a new `IN` line, or the state-machine violation carrying the instant
/// already recorded today.
pub fn tap_in(log_txt: &str, now_dt: Timestamp) -> (r: Result<Timestamp, TapError>)
    requires
        now_dt.valid(),
    ensures
        match r {
            Result::Ok(t) => tap_in_spec(log_txt@, now_dt.secs as int) == Result::Ok::<
                int,
                TapError,
            >(t.secs as int) && t == now_dt,
            Result::Err(e) => tap_in_spec(log_txt@, now_dt.secs as int) == Result::Err::<
                int,
                TapError,
            >(e),
        },
{
    match last_in_today(log_txt, now_dt) {
        Result::Err(e) => Result::Err(e),
        Result::Ok((tapped_in_already, time)) => if tapped_in_already {
            Result::Err(TapError::AlreadyTappedIn(time))
        } else {
            Result::Ok(now_dt)
        },
    }
}

/// Decides a tap-out at `now_dt` on the given log text: the instant and the
/// elapsed whole seconds since the day's tap-in (or since the synthetic
/// 09:00:00 default when none was recorded today) to record as a new `OUT`
/// line, or the state-machine violation carrying the instant already
/// recorded today.
pub fn tap_out(log_txt: &str, now_dt: Timestamp) -> (r: Result<(Timestamp, i64), TapError>)
    requires
        now_dt.valid(),
    ensures
        match r {
            Result::Ok((t, work)) => tap_out_spec(log_txt@, now_dt.secs as int) == Result::Ok::<
                (int, int),
                TapError,
            >((t.secs as int, work as int)) && t == now_dt,
            Result::Err(e) => tap_out_spec(log_txt@, now_dt.secs as int) == Result::Err::<
                (int, int),
                TapError,
            >(e),
        },
{
    match last_out_today(log_txt, now_dt) {
        Result::Err(e) => Result::Err(e),
        Result::Ok((tapped_out_already, time)) => if tapped_out_already {
            Result::Err(TapError::AlreadyTappedOut(time))
        } else {
            match last_in_today(log_txt, now_dt) {
                Result::Err(e) => Result::Err(e),
                Result::Ok((_, in_time)) => Result::Ok((now_dt, now_dt.secs - in_time.secs)),
            }
        },
    }
}

/// For a log text holding at least one `IN ` marker, `last_in` reads the
/// record at the last such marker — whatever stands before it and however
/// many `OUT` records follow it: its answer is the digits after that marker,
/// up to the next line break, read as a timestamp.
pub proof fn lemma_last_in_reads_last_marker(log: Seq<char>, i: int)
    requires
        marker_at(log, in_marker(), i),
        forall|j: int| i < j ==> !marker_at(log, in_marker(), j),
    ensures
        last_in_spec(log) == match parse_i64_spec(capture_to_newline(log, i + 3)) {
            Option::Some(v) => if ts_valid(v) {
                Result::Ok::<int, TapError>(v)
            } else {
                Result::Err::<int, TapError>(TapError::Malformed)
            },
            Option::None => Result::Err::<int, TapError>(TapError::Malformed),
        },
{
    lemma_last_marker_from_found(log, in_marker(), i, log.len() - 3 + 1);
}

/// The one line a tap-in at `t` appends to the log text.
pub open spec fn in_line(t: int) -> Seq<char> {
    in_marker() + dec_repr(t) + seq!['\n']
}

/// A tap-in accepted at `t1`, once its record is appended to the log,
/// forbids every further tap-in on the same UTC calendar day: the second
/// one always fails with the violation carrying the recorded instant `t1`.
pub proof fn lemma_second_tap_in_same_day_fails(log: Seq<char>, t1: int, t2: int)
    requires
        tap_in_spec(log, t1) == Result::Ok::<int, TapError>(t1),
        ts_valid(t1),
        ts_valid(t2),
        day_of(t2) == day_of(t1),
    ensures
        tap_in_spec(log + in_line(t1), t2) == Result::Err::<int, TapError>(
            TapError::AlreadyTappedIn(Timestamp { secs: t1 as i64 }),
        ),
{
    let s2 = log + in_line(t1);
    let p = log.len() as int;
    let rep = dec_repr(t1);
    lemma_dec_repr_chars(t1);
    lemma_parse_dec_repr(t1);
    assert(marker_at(s2, in_marker(), p)) by {
        assert(s2.subrange(p, p + 3) =~= in_marker());
    }
    assert forall|j: int| p < j implies !marker_at(s2, in_marker(), j) by {
        if marker_at(s2, in_marker(), j) {
            assert(s2.subrange(j, j + 3)[0] == 'I');
            assert(s2[j] == 'I');
            assert(j <= p + 1 + rep.len());
            if j == p + 1 {
                assert(s2[j] == 'N');
            } else if j == p + 2 {
                assert(s2[j] == ' ');
            } else {
                assert(s2[j] == rep[j - p - 3]);
                assert(is_digit(s2[j]) || s2[j] == '-');
            }
            assert(false);
        }
    }
    lemma_last_marker_from_found(s2, in_marker(), p, s2.len() - 3 + 1);
    assert(first_at_or_len(s2, p + 3, '\n') == p + 3 + rep.len()) by {
        assert(s2[p + 3 + rep.len()] == '\n');
        assert forall|j: int| p + 3 <= j < p + 3 + rep.len() implies s2[j] != '\n' by {
            assert(s2[j] == rep[j - p - 3]);
            assert(is_digit(s2[j]) || s2[j] == '-');
        }
        lemma_first_at_finds(s2, p + 3, p + 3 + rep.len(), '\n');
    }
    assert(capture_to_newline(s2, p + 3) =~= rep);
    assert(last_in_spec(s2) == Result::Ok::<int, TapError>(t1));
    assert(t1 as i64 as int == t1);
}

/// A tap-out on a day that saw no tap-in yet — the last recorded tap-in and
/// tap-out both fall on earlier days — does not fail: it computes the
/// elapsed time against the synthetic 09:00:00 default of `now`'s day.
pub proof fn lemma_tap_out_against_synthetic_default(log: Seq<char>, now: int, vin: int, vout: int)
    requires
        last_in_spec(log) == Result::Ok::<int, TapError>(vin),
        last_out_spec(log) == Result::Ok::<int, TapError>(vout),
        day_of(vin) != day_of(now),
        day_of(vout) != day_of(now),
    ensures
        tap_out_spec(log, now) == Result::Ok::<(int, int), TapError>(
            (now, now - (day_of(now) * 86400 + 9 * 3600)),
        ),
{
}

} // verus!
