//! Calendar dates in the proleptic Gregorian calendar.
//!
//! A [`Date`] holds the plain year/month/day triple the scheduling logic reads.
//! Validity, day counting, weekdays, ISO weeks, parsing and formatting are
//! computed by `chrono`; each call sits behind a small trusted wrapper whose
//! contract is the calendar definition below.

use vstd::prelude::*;

use chrono::Datelike;

use crate::text::{chars_of, string_of, trim, trim_char, trim_char_chars, trim_chars};

verus! {

/// Smallest year `chrono` represents.
pub const MIN_YEAR: i32 = -262143;

/// Largest year `chrono` represents.
pub const MAX_YEAR: i32 = 262142;

/// A calendar date (year, month 1-12, day 1-31).
#[derive(Debug, Clone, Copy, PartialEq, Eq, Structural)]
pub struct Date {
    pub year: i32,
    pub month: u32,
    pub day: u32,
}

pub open spec fn is_leap(y: int) -> bool {
    y % 4 == 0 && (y % 100 != 0 || y % 400 == 0)
}

/// Number of days in month `m` of year `y`.
pub open spec fn days_in_month(y: int, m: int) -> int {
    if m == 2 {
        if is_leap(y) { 29 } else { 28 }
    } else if m == 4 || m == 6 || m == 9 || m == 11 {
        30
    } else {
        31
    }
}

/// Days of year `y` before the first of month `m`.
pub open spec fn days_before_month(y: int, m: int) -> int
    decreases m,
{
    if m <= 1 {
        0
    } else {
        days_before_month(y, m - 1) + days_in_month(y, m - 1)
    }
}

/// Whether (y, m, d) names a date `chrono` can represent.
pub open spec fn valid_ymd(y: int, m: int, d: int) -> bool {
    MIN_YEAR <= y <= MAX_YEAR && 1 <= m <= 12 && 1 <= d <= days_in_month(y, m)
}

/// Day count with 0001-01-01 as day 1.
pub open spec fn day_number(y: int, m: int, d: int) -> int {
    let p = y - 1;
    365 * p + p / 4 - p / 100 + p / 400 + days_before_month(y, m) + d
}

/// Weekday of a day number, Monday = 0 (day 1, 0001-01-01, is a Monday).
pub open spec fn weekday0(dn: int) -> int {
    (dn - 1) % 7
}

/// ISO-8601 (week-year, week): the week containing the date's Thursday.
pub open spec fn iso_week_of(y: int, m: int, d: int) -> (int, int) {
    let dn = day_number(y, m, d);
    let thu = dn - weekday0(dn) + 3;
    let iy = if thu < day_number(y, 1, 1) {
        y - 1
    } else if thu >= day_number(y + 1, 1, 1) {
        y + 1
    } else {
        y
    };
    (iy, (thu - day_number(iy, 1, 1)) / 7 + 1)
}

impl Date {
    pub open spec fn wf(self) -> bool {
        valid_ymd(self.year as int, self.month as int, self.day as int)
    }

    /// This date's day number.
    pub open spec fn dn(self) -> int {
        day_number(self.year as int, self.month as int, self.day as int)
    }

    /// Day number of the Monday that starts this date's ISO week.
    pub open spec fn week_start(self) -> int {
        self.dn() - weekday0(self.dn())
    }
}

/// Name for what `chrono`'s `%Y-%m-%d` formatting gives for a date.
pub uninterp spec fn spec_format_ymd(y: int, m: int, d: int) -> Seq<char>;

/// Name for what `chrono`'s `%Y-%m-%d` parsing gives for a text.
pub uninterp spec fn spec_parse_ymd(s: Seq<char>) -> Option<(int, int, int)>;

/// Two ASCII digits of `v` (0-99).
pub open spec fn two_digits(v: int) -> Seq<char> {
    seq![(('0' as int) + v / 10) as char, (('0' as int) + v % 10) as char]
}

/// `YYYY-MM-DD` for a year in 0..=9999.
pub open spec fn ymd_text(y: int, m: int, d: int) -> Seq<char> {
    two_digits(y / 100) + two_digits(y % 100) + seq!['-'] + two_digits(m) + seq!['-']
        + two_digits(d)
}

/// Whether `chrono` accepts (y, m, d) as a date (`NaiveDate::from_ymd_opt`).
#[verifier::external_body]
pub(crate) fn ymd_is_valid(y: i32, m: u32, d: u32) -> (r: bool)
    ensures
        r == valid_ymd(y as int, m as int, d as int),
{
    chrono::NaiveDate::from_ymd_opt(y, m, d).is_some()
}

/// Day number of a date (`Datelike::num_days_from_ce`).
#[verifier::external_body]
pub(crate) fn days_from_ce(d: Date) -> (r: i32)
    requires
        d.wf(),
    ensures
        r as int == d.dn(),
{
    chrono::NaiveDate::from_ymd_opt(d.year, d.month, d.day).unwrap().num_days_from_ce()
}

/// Weekday of a date, Monday = 1 .. Sunday = 7 (`Datelike::weekday`).
#[verifier::external_body]
pub(crate) fn weekday_from_monday(d: Date) -> (r: u32)
    requires
        d.wf(),
    ensures
        r as int == weekday0(d.dn()) + 1,
{
    chrono::NaiveDate::from_ymd_opt(d.year, d.month, d.day).unwrap().weekday().number_from_monday()
}

/// ISO week-year and week number of a date (`Datelike::iso_week`).
#[verifier::external_body]
pub(crate) fn iso_year_week(d: Date) -> (r: (i32, u32))
    requires
        d.wf(),
    ensures
        (r.0 as int, r.1 as int) == iso_week_of(d.year as int, d.month as int, d.day as int),
{
    let w = chrono::NaiveDate::from_ymd_opt(d.year, d.month, d.day).unwrap().iso_week();
    (w.year(), w.week())
}

/// Parse `YYYY-MM-DD` as `chrono` does (`NaiveDate::parse_from_str`).
#[verifier::external_body]
pub(crate) fn parse_ymd(s: &str) -> (r: Option<Date>)
    ensures
        r matches Some(d) ==> d.wf(),
        r matches Some(d) ==> spec_parse_ymd(s@) == Some(
            (d.year as int, d.month as int, d.day as int),
        ),
        r is None ==> spec_parse_ymd(s@) is None,
{
    match chrono::NaiveDate::parse_from_str(s, "%Y-%m-%d") {
        Ok(v) => Some(Date { year: v.year(), month: v.month(), day: v.day() }),
        Err(_) => None,
    }
}

/// Format a date as `YYYY-MM-DD` (`NaiveDate::format`).
#[verifier::external_body]
pub(crate) fn format_ymd(d: Date) -> (r: String)
    requires
        d.wf(),
    ensures
        r@ == spec_format_ymd(d.year as int, d.month as int, d.day as int),
        0 <= d.year <= 9999 ==> r@ == ymd_text(d.year as int, d.month as int, d.day as int),
{
    chrono::NaiveDate::from_ymd_opt(d.year, d.month, d.day).unwrap().format("%Y-%m-%d").to_string()
}

impl Date {
    /// A date from its parts, when `chrono` accepts them.
    pub fn from_ymd(year: i32, month: u32, day: u32) -> (r: Option<Date>)
        ensures
            r is Some <==> valid_ymd(year as int, month as int, day as int),
            r matches Some(d) ==> d.year == year && d.month == month && d.day == day,
    {
        if ymd_is_valid(year, month, day) {
            Some(Date { year, month, day })
        } else {
            None
        }
    }
}

/// Days from `a` to `b` (`(b - a).num_days()`).
pub fn days_between(a: Date, b: Date) -> (r: i64)
    requires
        a.wf(),
        b.wf(),
    ensures
        r as int == b.dn() - a.dn(),
{
    days_from_ce(b) as i64 - days_from_ce(a) as i64
}

/// The (year, month, day) an optional date holds.
pub open spec fn date_parts(d: Option<Date>) -> Option<(int, int, int)> {
    match d {
        Some(x) => Some((x.year as int, x.month as int, x.day as int)),
        None => None,
    }
}

/// A `YYYY-MM-DD` text read leniently: surrounding whitespace and double
/// quotes are dropped first.
pub open spec fn lenient_date(s: Seq<char>) -> Option<(int, int, int)> {
    spec_parse_ymd(trim(trim_char(trim(s), '"')))
}

/// Parse a `YYYY-MM-DD` date, tolerating quotes and stray whitespace (a
/// `\r` from a CRLF file included).
pub fn parse_lenient_date(s: &str) -> (r: Option<Date>)
    ensures
        date_parts(r) == lenient_date(s@),
        r matches Some(d) ==> d.wf(),
{
    let c = chars_of(s);
    let t1 = trim_chars(&c);
    let t2 = trim_char_chars(&t1, '"');
    let t3 = trim_chars(&t2);
    let text = string_of(&t3);
    parse_ymd(text.as_str())
}

impl Date {
    /// Parse a strict `YYYY-MM-DD` date.
    pub fn parse(s: &str) -> (r: Option<Date>)
        ensures
            date_parts(r) == spec_parse_ymd(s@),
            r matches Some(d) ==> d.wf(),
    {
        parse_ymd(s)
    }

    /// The date as `YYYY-MM-DD`.
    pub fn format(&self) -> (r: String)
        requires
            self.wf(),
        ensures
            r@ == spec_format_ymd(self.year as int, self.month as int, self.day as int),
            0 <= self.year <= 9999 ==> r@ == ymd_text(self.year as int, self.month as int, self.day as int),
    {
        format_ymd(*self)
    }
}

} // verus!
