//! Date-range queries over the log: inclusive day counts and the seconds
//! worked across a range of UTC calendar dates.

use vstd::prelude::*;

use crate::text::{
    chars_of, parse_i64_chars, parse_i64_spec, parse_u64_chars, parse_u64_spec, split_char,
    split_exec,
};
use crate::time::{day_start, Date, Timestamp};
use crate::TapError;

verus! {

/// Number of days between two dates, both included. Refuses a range whose
/// start lies after its end.
pub fn days_diff(start: Date, end: Date) -> (r: Result<u64, TapError>)
    requires
        start.valid(),
        end.valid(),
    ensures
        match r {
            Result::Ok(n) => start.days <= end.days && n as int == end.days - start.days + 1,
            Result::Err(e) => e == TapError::StartAfterEnd && start.days > end.days,
        },
{
    if start.days > end.days {
        Result::Err(TapError::StartAfterEnd)
    } else {
        Result::Ok(((end.days - start.days) as u64) + 1)
    }
}

/// The instant of the given date at the given hour and minute, UTC.
pub fn utc_date_time(date: Date, hours: u32, mins: u32) -> (t: Timestamp)
    requires
        date.valid(),
        hours < 24,
        mins < 60,
    ensures
        t.secs as int == date.days * 86400 + hours * 3600 + mins * 60,
        t.valid(),
{
    Timestamp { secs: day_start(date.days) + (hours as i64) * 3600 + (mins as i64) * 60 }
}

/// A record of the log, as the hours query reads it.
pub enum Chunk {
    /// A tap-in at the carried instant.
    In(i64),
    /// A tap-out at the carried instant, with the elapsed seconds it
    /// recorded.
    Out(i64, u64),
}

impl Chunk {
    /// The tag its record carries in the log text.
    pub fn val(&self) -> (r: String)
        ensures
            match self {
                Chunk::In(_) => r@ == seq!['I', 'N'],
                Chunk::Out(_, _) => r@ == seq!['O', 'U', 'T'],
            },
    {
        match self {
            Chunk::In(_) => {
                let s = "IN".to_string();
                proof {
                    reveal_strlit("IN");
                    assert(s@ =~= seq!['I', 'N']);
                }
                s
            },
            Chunk::Out(_, _) => {
                let s = "OUT".to_string();
                proof {
                    reveal_strlit("OUT");
                    assert(s@ =~= seq!['O', 'U', 'T']);
                }
                s
            },
        }
    }
}

/// How one line of the log counts toward an hours query that keeps records
/// with timestamps strictly inside `(lo, hi)`.
pub enum LineClass {
    /// The line does not follow the record grammar.
    Bad,
    /// Its timestamp falls outside the window.
    Skip,
    /// A kept record tagged `IN`, with its timestamp.
    KeptIn(int),
    /// A kept record with any other tag, with its timestamp and its
    /// elapsed-seconds field.
    KeptOut(int, int),
}

/// Reads one line the way the hours query does: split on single spaces, the
/// second token is the timestamp; a kept line not tagged `IN` must carry an
/// elapsed-seconds third token.
pub open spec fn classify_line(line: Seq<char>, lo: int, hi: int) -> LineClass {
    let toks = split_char(line, ' ');
    if toks.len() < 2 {
        LineClass::Bad
    } else {
        match parse_i64_spec(toks[1]) {
            Option::None => LineClass::Bad,
            Option::Some(stamp) => if !(lo < stamp && stamp < hi) {
                LineClass::Skip
            } else if toks[0] == seq!['I', 'N'] {
                LineClass::KeptIn(stamp)
            } else if toks.len() >= 3 {
                match parse_u64_spec(toks[2]) {
                    Option::Some(elapsed) => LineClass::KeptOut(stamp, elapsed),
                    Option::None => LineClass::Bad,
                }
            } else {
                LineClass::Bad
            },
        }
    }
}

/// Some line of `ls` is ill-formed for the window `(lo, hi)`.
pub open spec fn any_bad(ls: Seq<Seq<char>>, lo: int, hi: int) -> bool
    decreases ls.len(),
{
    if ls.len() == 0 {
        false
    } else {
        any_bad(ls.drop_last(), lo, hi) || classify_line(ls.last(), lo, hi) is Bad
    }
}

/// How many lines of `ls` are kept `OUT` records for the window `(lo, hi)`.
pub open spec fn outs_count(ls: Seq<Seq<char>>, lo: int, hi: int) -> int
    decreases ls.len(),
{
    if ls.len() == 0 {
        0
    } else {
        outs_count(ls.drop_last(), lo, hi) + if classify_line(ls.last(), lo, hi) is KeptOut {
            1int
        } else {
            0int
        }
    }
}

/// The sum of the elapsed-seconds fields of the kept `OUT` records of `ls`.
pub open spec fn outs_sum(ls: Seq<Seq<char>>, lo: int, hi: int) -> int
    decreases ls.len(),
{
    if ls.len() == 0 {
        0
    } else {
        outs_sum(ls.drop_last(), lo, hi) + match classify_line(ls.last(), lo, hi) {
            LineClass::KeptOut(_, elapsed) => elapsed,
            _ => 0,
        }
    }
}

/// An ill-formed line in a prefix is an ill-formed line of the whole.
pub proof fn lemma_any_bad_prefix(ls: Seq<Seq<char>>, lo: int, hi: int, k: int)
    requires
        0 <= k <= ls.len(),
        any_bad(ls.take(k), lo, hi),
    ensures
        any_bad(ls, lo, hi),
    decreases ls.len() - k,
{
    if k == ls.len() {
        assert(ls.take(k) =~= ls);
    } else {
        assert(ls.take(k + 1).drop_last() =~= ls.take(k));
        lemma_any_bad_prefix(ls, lo, hi, k + 1);
    }
}

/// What the hours query answers on the log text and an inclusive day range:
/// the sum of the elapsed-seconds fields of the records kept by the window
/// from the range's first day at 00:00:00 to its last day at 23:59:00, both
/// ends excluded — provided every line reads back, the range is ordered, and
/// the kept `OUT` records number exactly one per day of the range.
pub open spec fn worked_seconds_spec(log: Seq<char>, start_days: int, end_days: int) -> Result<
    int,
    TapError,
> {
    let lines = split_char(log, '\n');
    let lo = start_days * 86400;
    let hi = end_days * 86400 + 86340;
    if any_bad(lines, lo, hi) {
        Result::Err(TapError::Malformed)
    } else if start_days > end_days {
        Result::Err(TapError::StartAfterEnd)
    } else if outs_count(lines, lo, hi) != end_days - start_days + 1 {
        Result::Err(TapError::IncompleteRange)
    } else {
        Result::Ok(outs_sum(lines, lo, hi))
    }
}

/// The seconds worked over the inclusive date range `[start, end]`, read
/// from the log text: the sum of the pre-recorded elapsed-seconds fields of
/// the `OUT` records that fall strictly inside the range's clock window.
/// Divide by 3600 for hours. A range with missing `OUT` records is refused
/// as unsupported rather than summed wrongly.
pub fn worked_seconds(start: Date, end: Date, log_txt: &str) -> (r: Result<u128, TapError>)
    requires
        start.valid(),
        end.valid(),
    ensures
        match r {
            Result::Ok(n) => worked_seconds_spec(log_txt@, start.days as int, end.days as int)
                == Result::Ok::<int, TapError>(n as int),
            Result::Err(e) => worked_seconds_spec(log_txt@, start.days as int, end.days as int)
                == Result::Err::<int, TapError>(e),
        },
{
    let chars = chars_of(log_txt);
    let lines = split_exec(&chars, '\n');
    let ghost lviews = lines@.map_values(|p: Vec<char>| p@);
    let lo = day_start(start.days);
    let hi = day_start(end.days) + 86340;
    let mut count: usize = 0;
    let mut sum: u128 = 0;
    let mut i: usize = 0;
    let n = lines.len();
    while i < n
        invariant
            i <= n,
            n == lines@.len(),
            lviews == lines@.map_values(|p: Vec<char>| p@),
            lviews == split_char(log_txt@, '\n'),
            start.valid(),
            end.valid(),
            lo as int == start.days * 86400,
            hi as int == end.days * 86400 + 86340,
            !any_bad(lviews.take(i as int), lo as int, hi as int),
            count as int == outs_count(lviews.take(i as int), lo as int, hi as int),
            sum as int == outs_sum(lviews.take(i as int), lo as int, hi as int),
            count <= i,
            sum as int <= count as int * 0xffffffffffffffffu64,
        decreases n - i,
    {
        proof {
            assert(lviews.take(i + 1).drop_last() =~= lviews.take(i as int));
            assert(lviews.take(i + 1).last() == lviews[i as int]);
        }
        let line = &lines[i];
        let toks = split_exec(line, ' ');
        let ghost tviews = toks@.map_values(|p: Vec<char>| p@);
        proof {
            assert(tviews == split_char(lviews[i as int], ' '));
        }
        if toks.len() < 2 {
            proof {
                assert(classify_line(lviews[i as int], lo as int, hi as int) is Bad);
                lemma_any_bad_prefix(lviews, lo as int, hi as int, i + 1);
            }
            return Result::Err(TapError::Malformed);
        }
        match parse_i64_chars(&toks[1]) {
            Option::None => {
                proof {
                    assert(classify_line(lviews[i as int], lo as int, hi as int) is Bad);
                    lemma_any_bad_prefix(lviews, lo as int, hi as int, i + 1);
                }
                return Result::Err(TapError::Malformed);
            },
            Option::Some(stamp) => {
                if lo < stamp && stamp < hi {
                    let t0 = &toks[0];
                    let is_in = t0.len() == 2 && t0[0] == 'I' && t0[1] == 'N';
                    proof {
                        if is_in {
                            assert(tviews[0] =~= seq!['I', 'N']);
                        } else {
                            assert(tviews[0] != seq!['I', 'N']);
                        }
                    }
                    if is_in {
                        // a kept tap-in contributes nothing to the sum
                    } else if toks.len() < 3 {
                        proof {
                            assert(classify_line(lviews[i as int], lo as int, hi as int) is Bad);
                            lemma_any_bad_prefix(lviews, lo as int, hi as int, i + 1);
                        }
                        return Result::Err(TapError::Malformed);
                    } else {
                        match parse_u64_chars(&toks[2]) {
                            Option::None => {
                                proof {
                                    assert(classify_line(
                                        lviews[i as int],
                                        lo as int,
                                        hi as int,
                                    ) is Bad);
                                    lemma_any_bad_prefix(lviews, lo as int, hi as int, i + 1);
                                }
                                return Result::Err(TapError::Malformed);
                            },
                            Option::Some(elapsed) => {
                                proof {
                                    assert(sum as int + elapsed as int <= (count as int + 1)
                                        * 0xffffffffffffffffu64);
                                    assert(count as int + 1 <= 0x10000000000000000int);
                                }
                                sum = sum + elapsed as u128;
                                count = count + 1;
                            },
                        }
                    }
                } else {
                    // outside the window: the line is skipped
                }
            },
        }
        i = i + 1;
    }
    proof {
        assert(lviews.take(n as int) =~= lviews);
    }
    if start.days > end.days {
        return Result::Err(TapError::StartAfterEnd);
    }
    let expected = end.days - start.days + 1;
    if (count as u64) != (expected as u64) {
        return Result::Err(TapError::IncompleteRange);
    }
    Result::Ok(sum)
}

} // verus!
