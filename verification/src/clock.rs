//! Dates, times of day and the local clock.
//!
//! Dates and times are held as plain values; parsing a date with a pattern,
//! parsing a clock text, reading the local clock and rendering a pattern are
//! done by `chrono` behind the trusted items of this module.  How a date or
//! a time of day is written out is stated and proved here.
use vstd::prelude::*;
use chrono::{Datelike, Offset, Timelike};
use std::fmt::Write;
use crate::grammar::clock_shape_at;
use crate::text::{digit_value, is_ascii_digit, string_of};

verus! {

/// A calendar date (`chrono::NaiveDate`), by its fields.
#[derive(Clone, Copy, Debug, PartialEq, Eq, Structural)]
pub struct Date {
    pub year: i32,
    pub month: u32,
    pub day: u32,
}

/// A time of day (`chrono::NaiveTime`): seconds since midnight and the
/// fraction in nanoseconds, which is `1_000_000_000` or more during a leap
/// second.
#[derive(Clone, Copy, Debug, PartialEq, Eq, Structural)]
pub struct Time {
    pub secs: u32,
    pub frac: u32,
}

/// An instant and the local UTC offset in force at it: seconds and
/// nanoseconds since the Unix epoch, offset in seconds east of UTC.
#[derive(Clone, Copy, Debug, PartialEq, Eq, Structural)]
pub struct Moment {
    pub timestamp: i64,
    pub nanos: u32,
    pub offset: i32,
}

// ---------------------------------------------------------------------------
// Trusted items
// ---------------------------------------------------------------------------

/// What `chrono::NaiveDate::parse_from_str(text, pattern)` yields: the date
/// as `(year, month, day)`, or the text of its `ParseError` (`Display`).
pub uninterp spec fn chrono_parse(text: Seq<char>, pattern: Seq<char>) -> Result<(int, int, int), Seq<char>>;

/// The date chrono reads from the text with the pattern, if any.
pub open spec fn chrono_parse_date(text: Seq<char>, pattern: Seq<char>) -> Option<(int, int, int)> {
    match chrono_parse(text, pattern) {
        Ok(d) => Some(d),
        Err(_) => None,
    }
}

/// What `chrono::DateTime::format(pattern)` renders for the instant
/// `(timestamp, nanos)` seen at the UTC offset `offset`; `None` when the
/// instant or offset is out of chrono's range or the pattern does not render.
pub uninterp spec fn chrono_format(timestamp: int, nanos: int, offset: int, pattern: Seq<char>) -> Option<Seq<char>>;

/// What chrono reports, as text, when it refuses the text (empty when it
/// reads a date).
pub open spec fn chrono_parse_error(text: Seq<char>, pattern: Seq<char>) -> Seq<char> {
    match chrono_parse(text, pattern) {
        Ok(_) => Seq::empty(),
        Err(why) => why,
    }
}

/// `chrono::NaiveDate::parse_from_str(text, pattern)`.  The contract claims
/// that the result, and the text of the error, are functions of the two
/// texts alone, and that a parsed date has a month in 1..=12 and a day in
/// 1..=31 (chrono only builds valid calendar dates).
#[verifier::external_body]
pub(crate) fn parse_date_text(text: &str, pattern: &str) -> (r: Result<Date, String>)
    ensures
        match r {
            Ok(d) => chrono_parse(text@, pattern@) == Ok::<(int, int, int), Seq<char>>(
                (d.year as int, d.month as int, d.day as int),
            ) && 1 <= d.month <= 12 && 1 <= d.day <= 31,
            Err(why) => chrono_parse(text@, pattern@) == Err::<(int, int, int), Seq<char>>(why@),
        },
{
    match chrono::NaiveDate::parse_from_str(text, pattern) {
        Ok(d) => Ok(Date { year: d.year(), month: d.month(), day: d.day() }),
        Err(e) => Err(e.to_string()),
    }
}

/// The value of a two-digit ASCII field of a clock text.
pub open spec fn two_digits(s: Seq<char>, i: int) -> int {
    10 * digit_value(s[i]) + digit_value(s[i + 1])
}

/// What `"HH:MM:SS".parse::<chrono::NaiveTime>()` gives for a text of
/// that shape: `None` unless all six digits are ASCII with hour < 24,
/// minute < 60 and second <= 60; second 60 is a leap second, held as
/// second 59 with a fraction of one second.
pub open spec fn clock_value(s: Seq<char>) -> Option<Time> {
    let h = two_digits(s, 0);
    let m = two_digits(s, 3);
    let sec = two_digits(s, 6);
    if is_ascii_digit(s[0]) && is_ascii_digit(s[1]) && is_ascii_digit(s[3]) && is_ascii_digit(
        s[4],
    ) && is_ascii_digit(s[6]) && is_ascii_digit(s[7]) && h < 24 && m < 60 && sec <= 60 {
        if sec == 60 {
            Some(Time { secs: (h * 3600 + m * 60 + 59) as u32, frac: 1_000_000_000 })
        } else {
            Some(Time { secs: (h * 3600 + m * 60 + sec) as u32, frac: 0 })
        }
    } else {
        None
    }
}

/// `str::parse::<chrono::NaiveTime>` on an eight-character `\d\d:\d\d:\d\d`
/// text.  The contract restates what chrono's parser does on such a text:
/// it reads ASCII digits only and accepts hours 0..=23, minutes 0..=59 and
/// seconds 0..=60 (60 being a leap second).
#[verifier::external_body]
pub(crate) fn parse_clock_text(text: &str) -> (r: Option<Time>)
    requires
        text@.len() == 8,
        clock_shape_at(text@, 0),
    ensures
        r == clock_value(text@),
{
    text.parse::<chrono::NaiveTime>().ok().map(
        |t| Time { secs: t.num_seconds_from_midnight(), frac: t.nanosecond() },
    )
}

/// `chrono::Local::now()`, as the instant and the local offset.  Nothing is
/// claimed of the result: it is the time at which the call is made.
#[verifier::external_body]
pub(crate) fn local_now() -> (r: Moment) {
    let now = chrono::Local::now();
    Moment {
        timestamp: now.timestamp(),
        nanos: now.timestamp_subsec_nanos(),
        offset: now.offset().fix().local_minus_utc(),
    }
}

/// `chrono::DateTime::format(pattern)` rendered to a string, for the
/// instant of `m` seen at its offset.  The contract claims that the text is
/// a function of the instant, the offset and the pattern, and that `None`
/// comes back only where chrono cannot build the date-time or render the
/// pattern.
#[verifier::external_body]
pub(crate) fn format_moment(m: &Moment, pattern: &str) -> (r: Option<String>)
    ensures
        match r {
            Some(s) => chrono_format(m.timestamp as int, m.nanos as int, m.offset as int, pattern@)
                == Some(s@),
            None => chrono_format(m.timestamp as int, m.nanos as int, m.offset as int, pattern@) is None,
        },
{
    let offset = chrono::FixedOffset::east_opt(m.offset)?;
    let instant = chrono::DateTime::from_timestamp(m.timestamp, m.nanos)?;
    let mut s = String::new();
    write!(s, "{}", instant.with_timezone(&offset).format(pattern)).ok()?;
    Some(s)
}

// ---------------------------------------------------------------------------
// Writing numbers, dates and times
// ---------------------------------------------------------------------------

pub open spec fn digit_char(d: int) -> char {
    ((d + 48) as u8) as char
}

/// The decimal digits of `n`, without leading zeros.
pub open spec fn digits(n: nat) -> Seq<char>
    decreases n,
{
    if n < 10 {
        seq![digit_char(n as int)]
    } else {
        digits(n / 10).push(digit_char((n % 10) as int))
    }
}

/// `n` in decimal, padded with leading zeros to at least `w` characters.
pub open spec fn padded(n: nat, w: nat) -> Seq<char> {
    let d = digits(n);
    if d.len() >= w {
        d
    } else {
        Seq::new((w - d.len()) as nat, |_i: int| '0') + d
    }
}

/// How chrono writes a year: four digits for 0..=9999, else a sign and at
/// least four digits.
pub open spec fn year_text(y: int) -> Seq<char> {
    if 0 <= y <= 9999 {
        padded(y as nat, 4)
    } else if y < 0 {
        seq!['-'] + padded((-y) as nat, 4)
    } else {
        seq!['+'] + padded(y as nat, 4)
    }
}

/// How chrono writes a date: `YYYY-MM-DD`.
pub open spec fn date_text(d: Date) -> Seq<char> {
    year_text(d.year as int) + seq!['-'] + padded(d.month as nat, 2) + seq!['-'] + padded(
        d.day as nat,
        2,
    )
}

/// The fractional part chrono appends to a time of day: nothing for whole
/// seconds, else milli-, micro- or nanoseconds, whichever is exact.
pub open spec fn fraction_text(nano: nat) -> Seq<char> {
    if nano == 0 {
        Seq::empty()
    } else if nano % 1_000_000 == 0 {
        seq!['.'] + padded(nano / 1_000_000, 3)
    } else if nano % 1000 == 0 {
        seq!['.'] + padded(nano / 1000, 6)
    } else {
        seq!['.'] + padded(nano, 9)
    }
}

/// How chrono writes a time of day: `HH:MM:SS` and the fraction; a leap
/// second shows as second 60.
pub open spec fn time_text(t: Time) -> Seq<char> {
    let hour = t.secs / 3600;
    let min = (t.secs / 60) % 60;
    let leap = t.frac >= 1_000_000_000;
    let sec: int = if leap {
        t.secs % 60 + 1
    } else {
        (t.secs % 60) as int
    };
    let nano = if leap {
        t.frac - 1_000_000_000
    } else {
        t.frac as int
    };
    padded(hour as nat, 2) + seq![':'] + padded(min as nat, 2) + seq![':'] + padded(sec as nat, 2)
        + fraction_text(nano as nat)
}

/// Appends the decimal digits of `n`.
pub fn push_digits(v: &mut Vec<char>, n: u64)
    ensures
        final(v)@ == old(v)@ + digits(n as nat),
    decreases n,
{
    if n >= 10 {
        push_digits(v, n / 10);
    }
    let d = (n % 10) as u8;
    let c = (d + 48) as char;
    v.push(c);
    proof {
        assert(c == digit_char((n % 10) as int));
        if n < 10 {
            assert(n % 10 == n);
        }
    }
}

/// Appends `n` padded with zeros to at least `w` characters.
pub fn push_padded(v: &mut Vec<char>, n: u64, w: usize)
    ensures
        final(v)@ == old(v)@ + padded(n as nat, w as nat),
{
    let mut d: Vec<char> = Vec::new();
    push_digits(&mut d, n);
    assert(d@ =~= digits(n as nat));
    let ghost start = v@;
    if d.len() < w {
        let k = w - d.len();
        let mut i: usize = 0;
        while i < k
            invariant
                i <= k,
                v@ == start + Seq::new(i as nat, |_i: int| '0'),
            decreases k - i,
        {
            v.push('0');
            assert(Seq::new((i + 1) as nat, |_i: int| '0') =~= Seq::new(i as nat, |_i: int| '0').push('0'));
            i = i + 1;
        }
    }
    let mut j: usize = 0;
    let ghost mid = v@;
    while j < d.len()
        invariant
            j <= d.len(),
            v@ == mid + d@.take(j as int),
        decreases d.len() - j,
    {
        v.push(d[j]);
        assert(d@.take(j + 1) =~= d@.take(j as int).push(d@[j as int]));
        j = j + 1;
    }
    assert(d@.take(d.len() as int) =~= d@);
    assert(v@ =~= start + padded(n as nat, w as nat));
}

/// The date as chrono writes it (`YYYY-MM-DD`).
pub fn date_chars(d: Date) -> (r: Vec<char>)
    ensures
        r@ == date_text(d),
{
    let mut v: Vec<char> = Vec::new();
    if 0 <= d.year && d.year <= 9999 {
        push_padded(&mut v, d.year as u64, 4);
    } else if d.year < 0 {
        v.push('-');
        let a: i64 = -(d.year as i64);
        push_padded(&mut v, a as u64, 4);
    } else {
        v.push('+');
        push_padded(&mut v, d.year as u64, 4);
    }
    v.push('-');
    push_padded(&mut v, d.month as u64, 2);
    v.push('-');
    push_padded(&mut v, d.day as u64, 2);
    assert(v@ =~= date_text(d));
    v
}

/// The time of day as chrono writes it.
pub fn time_chars(t: Time) -> (r: Vec<char>)
    ensures
        r@ == time_text(t),
{
    let hour = t.secs / 3600;
    let min = (t.secs / 60) % 60;
    let leap = t.frac >= 1_000_000_000;
    let sec: u64 = if leap {
        (t.secs % 60) as u64 + 1
    } else {
        (t.secs % 60) as u64
    };
    let nano: u32 = if leap {
        t.frac - 1_000_000_000
    } else {
        t.frac
    };
    let mut v: Vec<char> = Vec::new();
    push_padded(&mut v, hour as u64, 2);
    v.push(':');
    push_padded(&mut v, min as u64, 2);
    v.push(':');
    push_padded(&mut v, sec, 2);
    if nano != 0 {
        v.push('.');
        if nano % 1_000_000 == 0 {
            push_padded(&mut v, (nano / 1_000_000) as u64, 3);
        } else if nano % 1000 == 0 {
            push_padded(&mut v, (nano / 1000) as u64, 6);
        } else {
            push_padded(&mut v, nano as u64, 9);
        }
    }
    assert(v@ =~= time_text(t));
    v
}

/// Orders times of day as chrono does: by seconds, then fraction.
pub open spec fn time_le(a: Time, b: Time) -> bool {
    a.secs < b.secs || (a.secs == b.secs && a.frac <= b.frac)
}

/// The sort key of an optional time: a missing time counts as midnight.
pub open spec fn time_or_midnight(t: Option<Time>) -> Time {
    match t {
        Some(t) => t,
        None => Time { secs: 0, frac: 0 },
    }
}

/// The date chrono reads from `text` with `pattern`.
pub open spec fn named_date(text: Seq<char>, pattern: Seq<char>) -> Option<Date> {
    match chrono_parse_date(text, pattern) {
        Some((y, m, d)) => Some(Date { year: y as i32, month: m as u32, day: d as u32 }),
        None => None,
    }
}

pub open spec fn dash_pattern() -> Seq<char> {
    seq!['%', 'Y', '-', '%', 'm', '-', '%', 'd']
}

pub open spec fn slash_pattern() -> Seq<char> {
    seq!['%', 'Y', '/', '%', 'm', '/', '%', 'd']
}

/// Reads a date from `text` with `pattern` and writes it as `YYYY-MM-DD`.
pub fn stamp_with(text: &str, pattern: &[char]) -> (r: Option<Vec<char>>)
    ensures
        match r {
            Some(s) => named_date(text@, pattern@) is Some && s@ == date_text(named_date(text@, pattern@)->0),
            None => named_date(text@, pattern@) is None,
        },
{
    let p = string_of(pattern);
    match parse_date_text(text, p.as_str()) {
        Ok(d) => Some(date_chars(d)),
        Err(_) => None,
    }
}

} // verus!
