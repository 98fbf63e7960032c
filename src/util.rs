use vstd::prelude::*;
use crate::text::{has_prefix, starts_with};
use chrono::{Datelike, Timelike};

verus! {

/// The text begins with `http://` or `https://`.
pub open spec fn http_prefixed(s: Seq<char>) -> bool {
    has_prefix(s, "http://"@) || has_prefix(s, "https://"@)
}

/// Whether the text is an absolute web address: it begins with `http://` or `https://`.
pub fn is_http(s: &str) -> (r: bool)
    ensures
        r == http_prefixed(s@),
{
    starts_with(s, "http://") || starts_with(s, "https://")
}

/// A calendar date and time of day, in UTC.
#[derive(PartialEq, Eq, Structural, Clone, Copy, Debug)]
pub struct DateTime {
    pub year: i32,
    pub month: u32,
    pub day: u32,
    pub hour: u32,
    pub minute: u32,
    pub second: u32,
}

/// Why a date could not be read.
#[derive(PartialEq, Eq, Structural, Clone, Copy, Debug)]
pub enum DateError {
    /// No year and month could be found in the text.
    InvalidFormat,
    /// The fields found name no real date or hour.
    OutOfRange,
}

/// What regex finds in a date for `(\\d{4})\\D?(\\d{2})\\D?(\\d{2})?\\D?(\\d{2})?`: year,
/// month, and where present day and hour.
pub uninterp spec fn date_captures(s: Seq<char>) -> Option<(Seq<char>, Seq<char>, Option<Seq<char>>, Option<Seq<char>>)>;

/// What chrono reads from an RFC 3339 date and time, in UTC: year, month, day, hour,
/// minute, second.
pub uninterp spec fn rfc3339_fields(s: Seq<char>) -> Option<(i32, u32, u32, u32, u32, u32)>;

/// The date and time that the fields give.
pub open spec fn from_rfc3339(t: (i32, u32, u32, u32, u32, u32)) -> DateTime {
    DateTime { year: t.0, month: t.1, day: t.2, hour: t.3, minute: t.4, second: t.5 }
}

/// Relies on chrono's `DateTime::parse_from_rfc3339` and `naive_utc`: the moment in
/// UTC, where the text is an RFC 3339 date and time.
#[verifier::external_body]
fn rfc3339_utc(s: &str) -> (r: Option<DateTime>)
    ensures
        match rfc3339_fields(s@) {
            Some(t) => r == Some(from_rfc3339(t)),
            None => r is None,
        },
{
    chrono::DateTime::parse_from_rfc3339(s).ok().map(|d| {
        let n = d.naive_utc();
        DateTime { year: n.year(), month: n.month(), day: n.day(), hour: n.hour(), minute: n.minute(), second: n.second() }
    })
}

/// Relies on regex's `Regex::captures` with the pattern
/// `(\\d{4})\\D?(\\d{2})\\D?(\\d{2})?\\D?(\\d{2})?`: its groups at the first match.
#[verifier::external_body]
fn find_date_fields(s: &str) -> (r: Option<(String, String, Option<String>, Option<String>)>)
    ensures
        match r {
            Some((y, m, d, h)) => date_captures(s@) == Some((y@, m@, match d {
                Some(x) => Some(x@),
                None => None,
            }, match h {
                Some(x) => Some(x@),
                None => None,
            })),
            None => date_captures(s@) is None,
        },
{
    let re = regex::Regex::new(r"(\d{4})\D?(\d{2})\D?(\d{2})?\D?(\d{2})?").unwrap();
    re.captures(s).map(|c| {
        let group = |i: usize| c.get(i).map(|m| m.as_str().to_string());
        (group(1).unwrap_or_default(), group(2).unwrap_or_default(), group(3), group(4))
    })
}

/// The value of a run of ASCII digits; `None` where some character is not one.
pub open spec fn digits_value(s: Seq<char>) -> Option<int>
    decreases s.len(),
{
    if s.len() == 0 {
        Some(0)
    } else if '0' <= s.last() <= '9' {
        match digits_value(s.drop_last()) {
            Some(v) => Some(v * 10 + (s.last() as int - '0' as int)),
            None => None,
        }
    } else {
        None
    }
}

/// The value of at most four ASCII digits.
pub fn small_number(s: &str) -> (r: Option<u32>)
    requires
        s@.len() <= 4,
    ensures
        match r {
            Some(v) => digits_value(s@) == Some(v as int),
            None => digits_value(s@) is None,
        },
{
    let n = s.unicode_len();
    let mut v: u32 = 0;
    let mut i: usize = 0;
    while i < n
        invariant
            n == s@.len(),
            n <= 4,
            i <= n,
            digits_value(s@.subrange(0, i as int)) == Some(v as int),
            v < pow10u(i as int),
        decreases n - i,
    {
        let c = s.get_char(i);
        assert(s@.subrange(0, i + 1).drop_last() =~= s@.subrange(0, i as int));
        if !('0' <= c && c <= '9') {
            proof {
                lemma_digits_none(s@, i as int);
            }
            return None;
        }
        proof {
            assert(pow10u(i + 1) == 10 * pow10u(i as int));
            lemma_pow10u_le(i + 1);
        }
        v = v * 10 + (c as u32 - '0' as u32);
        i = i + 1;
    }
    assert(s@.subrange(0, n as int) =~= s@);
    Some(v)
}

/// Ten to the power `e`.
pub open spec fn pow10u(e: int) -> int
    decreases e,
{
    if e <= 0 { 1 } else { 10 * pow10u(e - 1) }
}

proof fn lemma_pow10u_le(e: int)
    requires
        0 <= e <= 4,
    ensures
        pow10u(e) <= 10000,
{
    reveal_with_fuel(pow10u, 5);
}

/// A non-digit within the first `i + 1` characters leaves the whole text without a value.
proof fn lemma_digits_none(s: Seq<char>, i: int)
    requires
        0 <= i < s.len(),
        !('0' <= s[i] <= '9'),
    ensures
        digits_value(s) is None,
    decreases s.len(),
{
    if i < s.len() - 1 {
        lemma_digits_none(s.drop_last(), i);
    }
}

/// A leap year of the Gregorian calendar.
pub open spec fn is_leap(y: int) -> bool {
    (y % 4 == 0 && y % 100 != 0) || y % 400 == 0
}

/// The days of a month.
pub open spec fn days_in_month(y: int, m: int) -> int {
    if m == 2 {
        if is_leap(y) { 29 } else { 28 }
    } else if m == 4 || m == 6 || m == 9 || m == 11 {
        30
    } else {
        31
    }
}

/// The year, month and day name a real date.
pub open spec fn valid_date(y: int, m: int, d: int) -> bool {
    1 <= m <= 12 && 1 <= d <= days_in_month(y, m)
}

/// Whether the year, month and day name a real date.
pub fn date_exists(y: u32, m: u32, d: u32) -> (r: bool)
    ensures
        r == valid_date(y as int, m as int, d as int),
{
    let leap = (y % 4 == 0 && y % 100 != 0) || y % 400 == 0;
    let days: u32 = if m == 2 {
        if leap { 29 } else { 28 }
    } else if m == 4 || m == 6 || m == 9 || m == 11 {
        30
    } else {
        31
    };
    1 <= m && m <= 12 && 1 <= d && d <= days
}

/// What the fallback reading gives for the fields that regex found.
pub open spec fn from_fields(f: (Seq<char>, Seq<char>, Option<Seq<char>>, Option<Seq<char>>)) -> Result<DateTime, DateError> {
    let y = digits_value(f.0);
    let m = digits_value(f.1);
    let d = match f.2 { Some(x) => digits_value(x), None => Some(1int) };
    let h = match f.3 { Some(x) => digits_value(x), None => Some(0int) };
    if f.0.len() <= 4 && f.1.len() <= 4 && (f.2 matches Some(x) ==> x.len() <= 4) && (f.3 matches Some(x) ==> x.len() <= 4)
        && y is Some && m is Some && d is Some && h is Some
        && valid_date(y->Some_0, m->Some_0, d->Some_0) && h->Some_0 < 24 {
        Ok(DateTime {
            year: y->Some_0 as i32,
            month: m->Some_0 as u32,
            day: d->Some_0 as u32,
            hour: h->Some_0 as u32,
            minute: 0,
            second: 0,
        })
    } else {
        Err(DateError::OutOfRange)
    }
}

/// Reads a date given as RFC 3339 (`2019-01-01T00:00:00Z`), or without minutes and
/// zone (`2019-01-01T12`), without time (`2019-01-01`) or without day (`2019-01`).
/// All but RFC 3339 are read as UTC; a missing day is 1 and a missing hour 0.
pub fn parse_date_time(input: &str) -> (r: Result<DateTime, DateError>)
    ensures
        r == match rfc3339_fields(input@) {
            Some(t) => Ok(from_rfc3339(t)),
            None => match date_captures(input@) {
                None => Err(DateError::InvalidFormat),
                Some(f) => from_fields(f),
            },
        },
{
    if let Some(d) = rfc3339_utc(input) {
        return Ok(d);
    }
    let (ys, ms, ds, hs) = match find_date_fields(input) {
        Some(f) => f,
        None => return Err(DateError::InvalidFormat),
    };
    if ys.unicode_len() > 4 || ms.unicode_len() > 4 {
        return Err(DateError::OutOfRange);
    }
    let year = match small_number(ys.as_str()) { Some(v) => v, None => return Err(DateError::OutOfRange) };
    let month = match small_number(ms.as_str()) { Some(v) => v, None => return Err(DateError::OutOfRange) };
    let day = match ds {
        Some(x) => {
            if x.unicode_len() > 4 {
                return Err(DateError::OutOfRange);
            }
            match small_number(x.as_str()) { Some(v) => v, None => return Err(DateError::OutOfRange) }
        },
        None => 1,
    };
    let hour = match hs {
        Some(x) => {
            if x.unicode_len() > 4 {
                return Err(DateError::OutOfRange);
            }
            match small_number(x.as_str()) { Some(v) => v, None => return Err(DateError::OutOfRange) }
        },
        None => 0,
    };
    if !date_exists(year, month, day) || hour >= 24 {
        return Err(DateError::OutOfRange);
    }
    Ok(DateTime { year: year as i32, month, day, hour, minute: 0, second: 0 })
}

} // verus!
