//! Due-checks for every recurring trigger. Each function takes `today`
//! explicitly, so the answers depend on nothing but their arguments.

use vstd::prelude::*;

use crate::date::{
    is_leap,
    day_number, days_between, days_from_ce, days_in_month, days_before_month, iso_week_of,
    iso_year_week, valid_ymd, weekday0, weekday_from_monday, ymd_is_valid, Date, MAX_YEAR,
    MIN_YEAR,
};
use crate::text::{
    chars_of, extend_chars, fmt_i64, fmt_int, parse_u32, parse_unsigned, string_of,
};

verus! {

/// A day of the week.
#[derive(Debug, Clone, Copy, PartialEq, Eq, Structural)]
pub enum Weekday {
    Mon,
    Tue,
    Wed,
    Thu,
    Fri,
    Sat,
    Sun,
}

impl Weekday {
    /// Monday = 1 .. Sunday = 7.
    pub open spec fn num(self) -> int {
        match self {
            Weekday::Mon => 1,
            Weekday::Tue => 2,
            Weekday::Wed => 3,
            Weekday::Thu => 4,
            Weekday::Fri => 5,
            Weekday::Sat => 6,
            Weekday::Sun => 7,
        }
    }

    /// Monday = 1 .. Sunday = 7.
    pub fn number_from_monday(self) -> (r: u32)
        ensures
            r as int == self.num(),
    {
        match self {
            Weekday::Mon => 1,
            Weekday::Tue => 2,
            Weekday::Wed => 3,
            Weekday::Thu => 4,
            Weekday::Fri => 5,
            Weekday::Sat => 6,
            Weekday::Sun => 7,
        }
    }
}

/// Which occurrence of a weekday within a month an `nth_weekday` rule targets.
#[derive(Debug, Clone, Copy, PartialEq, Eq, Structural)]
pub enum WeekOrdinal {
    /// The Nth matching weekday (1-4).
    Nth(u32),
    /// The final matching weekday of the month.
    Last,
}

/// Why an annual `MM-DD` date was rejected.
#[derive(Debug, Clone, Copy, PartialEq, Eq, Structural)]
pub enum AnnualError {
    /// No `-` separator.
    NotMonthDay,
    /// The month part is not a number.
    BadMonth,
    /// The day part is not a number.
    BadDay,
    /// The numbers name no date in that year.
    NoSuchDate,
}

impl AnnualError {
    /// The human-readable reason.
    pub fn message(&self, mm_dd: &str) -> (r: String)
        ensures
            r@ == (match *self {
                AnnualError::NotMonthDay => "annual date must be MM-DD"@,
                AnnualError::BadMonth => "invalid month in annual date"@,
                AnnualError::BadDay => "invalid day in annual date"@,
                AnnualError::NoSuchDate => "invalid annual date `"@ + mm_dd@ + "`"@,
            }),
    {
        match self {
            AnnualError::NotMonthDay => "annual date must be MM-DD".to_owned(),
            AnnualError::BadMonth => "invalid month in annual date".to_owned(),
            AnnualError::BadDay => "invalid day in annual date".to_owned(),
            AnnualError::NoSuchDate => {
                let mut s = "invalid annual date `".to_owned();
                s.append(mm_dd);
                s.append("`");
                s
            },
        }
    }
}

// ---------------------------------------------------------------------------
// Specification

/// Index of the first `c` in `s`, if any.
pub open spec fn first_index_of(s: Seq<char>, c: char) -> Option<int> {
    if exists|i: int| 0 <= i < s.len() && s[i] == c {
        Some(choose|i: int| 0 <= i < s.len() && s[i] == c && forall|j: int| 0 <= j < i ==> s[j] != c)
    } else {
        None
    }
}

/// after_completion: due when `every_days` have passed since the last
/// completion, or when there never was one.
pub open spec fn after_completion_due_spec(today: Date, every_days: int, last: Option<Date>) -> bool {
    match last {
        None => true,
        Some(done) => today.dn() - done.dn() >= every_days,
    }
}

/// The date an annual `MM-DD` names in `year` (Feb 29 falls back to Feb 28 in
/// a common year).
pub open spec fn calendar_occurrence_spec(year: int, s: Seq<char>) -> Result<(int, int, int), AnnualError> {
    match first_index_of(s, '-') {
        None => Err(AnnualError::NotMonthDay),
        Some(i) => match parse_unsigned(s.take(i), u32::MAX as int) {
            None => Err(AnnualError::BadMonth),
            Some(m) => match parse_unsigned(s.skip(i + 1), u32::MAX as int) {
                None => Err(AnnualError::BadDay),
                Some(d) => {
                    let day = if m == 2 && d == 29 && !valid_ymd(year, 2, 29) { 28 } else { d };
                    if valid_ymd(year, m, day) {
                        Ok((year, m, day))
                    } else {
                        Err(AnnualError::NoSuchDate)
                    }
                },
            },
        },
    }
}

/// Whether the occurrence (y, m, d) lies 0..=lead days after `today`.
pub open spec fn in_lead_window(today: Date, o: (int, int, int), lead: int) -> bool {
    0 <= day_number(o.0, o.1, o.2) - today.dn() <= lead
}

/// calendar: the year of the first occurrence (this year, then next) whose
/// lead window holds `today`.
pub open spec fn calendar_due_spec(today: Date, s: Seq<char>, lead: int) -> Result<Option<int>, AnnualError> {
    let y = today.year as int;
    match calendar_occurrence_spec(y, s) {
        Err(e) => Err(e),
        Ok(o) => if in_lead_window(today, o, lead) {
            Ok(Some(y))
        } else {
            match calendar_occurrence_spec(y + 1, s) {
                Err(e) => Err(e),
                Ok(o1) => if in_lead_window(today, o1, lead) {
                    Ok(Some(y + 1))
                } else {
                    Ok(None)
                },
            }
        },
    }
}

pub open spec fn min_int(a: int, b: int) -> int {
    if a <= b { a } else { b }
}

/// The date a monthly rule for `day` names in (y, m): clamped to the month.
pub open spec fn monthly_occurrence_spec(y: int, m: int, day: int) -> (int, int, int) {
    (y, m, min_int(day, days_in_month(y, m)))
}

pub open spec fn next_ym(y: int, m: int) -> (int, int) {
    if m == 12 { (y + 1, 1) } else { (y, m + 1) }
}

/// Monotonic month counter.
pub open spec fn month_index_spec(y: int, m: int) -> int {
    y * 12 + m - 1
}

/// Every `interval`-th period counted from the anchor's period (or period 0).
pub open spec fn on_cadence_spec(index: int, anchor: Option<int>, interval: int) -> bool {
    interval <= 1 || (index - match anchor { Some(a) => a, None => 0 }) % interval == 0
}

/// `YYYY-MM` discriminator.
pub open spec fn ym_text(y: int, m: int) -> Seq<char> {
    fmt_int(y, 4) + seq!['-'] + fmt_int(m, 2)
}

pub open spec fn anchor_month(anchor: Option<Date>) -> Option<int> {
    match anchor {
        Some(a) => Some(month_index_spec(a.year as int, a.month as int)),
        None => None,
    }
}

/// monthly: this month's, else next month's, on-cadence occurrence whose lead
/// window holds `today`.
pub open spec fn monthly_due_spec(today: Date, dom: int, lead: int, interval: int, anchor: Option<Date>) -> Option<Seq<char>> {
    let y0 = today.year as int;
    let m0 = today.month as int;
    let (y1, m1) = next_ym(y0, m0);
    if in_lead_window(today, monthly_occurrence_spec(y0, m0, dom), lead) && on_cadence_spec(
        month_index_spec(y0, m0),
        anchor_month(anchor),
        interval,
    ) {
        Some(ym_text(y0, m0))
    } else if in_lead_window(today, monthly_occurrence_spec(y1, m1, dom), lead)
        && on_cadence_spec(month_index_spec(y1, m1), anchor_month(anchor), interval) {
        Some(ym_text(y1, m1))
    } else {
        None
    }
}

/// Integer division truncating toward zero.
pub open spec fn trunc_div(a: int, d: int) -> int {
    if a >= 0 { a / d } else { -((-a) / d) }
}

/// Week counter: the Monday of the date's ISO week, in weeks.
pub open spec fn week_index_spec(d: Date) -> int {
    trunc_div(d.week_start(), 7)
}

pub open spec fn anchor_week(anchor: Option<Date>) -> Option<int> {
    match anchor {
        Some(a) => Some(week_index_spec(a)),
        None => None,
    }
}

/// `YYYY-Www` discriminator of a date's ISO week.
pub open spec fn iso_week_text(d: Date) -> Seq<char> {
    let w = iso_week_of(d.year as int, d.month as int, d.day as int);
    fmt_int(w.0, 4) + seq!['-', 'W'] + fmt_int(w.1, 2)
}

/// weekly: on or after the target weekday of an on-cadence ISO week.
pub open spec fn weekly_due_spec(today: Date, target: Weekday, interval: int, anchor: Option<Date>) -> Option<Seq<char>> {
    if weekday0(today.dn()) + 1 < target.num() {
        None
    } else if !on_cadence_spec(week_index_spec(today), anchor_week(anchor), interval) {
        None
    } else {
        Some(iso_week_text(today))
    }
}

/// Day of month of the first `wd` in (y, m).
pub open spec fn first_weekday_day(y: int, m: int, wd: Weekday) -> int {
    1 + (7 + (wd.num() - 1) - weekday0(day_number(y, m, 1))) % 7
}

/// Day of month of the `ord`-th `wd` in (y, m).
pub open spec fn nth_weekday_day(y: int, m: int, wd: Weekday, ord: WeekOrdinal) -> int {
    let f = first_weekday_day(y, m, wd);
    match ord {
        WeekOrdinal::Nth(n) => f + 7 * (n - 1),
        WeekOrdinal::Last => f + 7 * ((days_in_month(y, m) - f) / 7),
    }
}

pub open spec fn ordinal_ok(ord: WeekOrdinal) -> bool {
    match ord {
        WeekOrdinal::Nth(n) => 1 <= n <= 4,
        WeekOrdinal::Last => true,
    }
}

/// nth_weekday: on or after this month's `ord`-th `wd`, in an on-cadence month.
pub open spec fn nth_weekday_due_spec(today: Date, wd: Weekday, ord: WeekOrdinal, interval: int, anchor: Option<Date>) -> Option<Seq<char>> {
    let y = today.year as int;
    let m = today.month as int;
    if (today.day as int) < nth_weekday_day(y, m, wd, ord) {
        None
    } else if !on_cadence_spec(month_index_spec(y, m), anchor_month(anchor), interval) {
        None
    } else {
        Some(ym_text(y, m))
    }
}

/// The weekday a canonical lowercase three-letter name stands for.
pub open spec fn weekday_named(s: Seq<char>) -> Option<Weekday> {
    if s == seq!['m', 'o', 'n'] {
        Some(Weekday::Mon)
    } else if s == seq!['t', 'u', 'e'] {
        Some(Weekday::Tue)
    } else if s == seq!['w', 'e', 'd'] {
        Some(Weekday::Wed)
    } else if s == seq!['t', 'h', 'u'] {
        Some(Weekday::Thu)
    } else if s == seq!['f', 'r', 'i'] {
        Some(Weekday::Fri)
    } else if s == seq!['s', 'a', 't'] {
        Some(Weekday::Sat)
    } else if s == seq!['s', 'u', 'n'] {
        Some(Weekday::Sun)
    } else {
        None
    }
}

// ---------------------------------------------------------------------------
// Implementation

/// after_completion: due when at least `every_days` have elapsed since the last
/// completion; a rule that never completed is due on first run.
pub fn after_completion_due(today: Date, every_days: i64, last_completion: Option<Date>) -> (r: bool)
    requires
        today.wf(),
        last_completion matches Some(d) ==> d.wf(),
    ensures
        r == after_completion_due_spec(today, every_days as int, last_completion),
{
    match last_completion {
        None => true,
        Some(done) => days_between(done, today) >= every_days,
    }
}

/// Index of the first `c` in `s`.
pub fn find_char(s: &[char], c: char) -> (r: Option<usize>)
    ensures
        r matches Some(i) ==> first_index_of(s@, c) == Some(i as int),
        r matches Some(i) ==> i < s.len() && s@[i as int] == c,
        r is None ==> first_index_of(s@, c) is None,
{
    let mut i: usize = 0;
    while i < s.len()
        invariant
            i <= s.len(),
            forall|j: int| 0 <= j < i ==> s@[j] != c,
        decreases s.len() - i,
    {
        if s[i] == c {
            proof {
                let k = choose|k: int| 0 <= k < s@.len() && s@[k] == c && forall|j: int| 0 <= j < k ==> s@[j] != c;
                assert(s@[i as int] == c);
                if k < i {
                } else if k > i {
                    assert(s@[i as int] != c);
                }
            }
            return Some(i);
        }
        i += 1;
    }
    None
}

/// Copy of `s[lo..hi]`.
pub fn slice_chars(s: &[char], lo: usize, hi: usize) -> (r: Vec<char>)
    requires
        lo <= hi <= s.len(),
    ensures
        r@ == s@.subrange(lo as int, hi as int),
{
    let mut out: Vec<char> = Vec::new();
    let mut i = lo;
    while i < hi
        invariant
            lo <= i <= hi,
            hi <= s.len(),
            out@ =~= s@.subrange(lo as int, i as int),
        decreases hi - i,
    {
        out.push(s[i]);
        i += 1;
    }
    out
}

/// Resolve `MM-DD` to a concrete date in `year`. `02-29` in a common year
/// falls back to `02-28` so the rule still fires every year.
pub fn calendar_occurrence(year: i32, mm_dd: &str) -> (r: Result<Date, AnnualError>)
    ensures
        r matches Ok(d) ==> d.wf() && calendar_occurrence_spec(year as int, mm_dd@) == Ok::<(int, int, int), AnnualError>(
            (d.year as int, d.month as int, d.day as int),
        ),
        r matches Err(e) ==> calendar_occurrence_spec(year as int, mm_dd@) == Err::<(int, int, int), AnnualError>(e),
{
    let s = chars_of(mm_dd);
    let i = match find_char(&s, '-') {
        Some(i) => i,
        None => return Err(AnnualError::NotMonthDay),
    };
    let mpart = slice_chars(&s, 0, i);
    let dpart = slice_chars(&s, i + 1, s.len());
    assert(mpart@ =~= s@.take(i as int));
    assert(dpart@ =~= s@.skip(i + 1));
    let month = match parse_u32(&mpart) {
        Some(m) => m,
        None => return Err(AnnualError::BadMonth),
    };
    let day = match parse_u32(&dpart) {
        Some(d) => d,
        None => return Err(AnnualError::BadDay),
    };
    let day = if month == 2 && day == 29 && !ymd_is_valid(year, 2, 29) {
        28
    } else {
        day
    };
    match Date::from_ymd(year, month, day) {
        Some(d) => Ok(d),
        None => Err(AnnualError::NoSuchDate),
    }
}

/// calendar: if `today` falls within the `lead_days` window before an
/// occurrence (this year's or next year's), return that occurrence's year.
pub fn calendar_due(today: Date, mm_dd: &str, lead_days: i64) -> (r: Result<Option<i32>, AnnualError>)
    requires
        today.wf(),
    ensures
        r matches Ok(Some(y)) ==> calendar_due_spec(today, mm_dd@, lead_days as int) == Ok::<Option<int>, AnnualError>(Some(y as int)),
        r matches Ok(None) ==> calendar_due_spec(today, mm_dd@, lead_days as int) == Ok::<Option<int>, AnnualError>(None),
        r matches Err(e) ==> calendar_due_spec(today, mm_dd@, lead_days as int) == Err::<Option<int>, AnnualError>(e),
{
    let y = today.year;
    let occ = calendar_occurrence(y, mm_dd)?;
    let delta = days_between(today, occ);
    if 0 <= delta && delta <= lead_days {
        return Ok(Some(y));
    }
    let occ1 = calendar_occurrence(y + 1, mm_dd)?;
    let delta1 = days_between(today, occ1);
    if 0 <= delta1 && delta1 <= lead_days {
        return Ok(Some(y + 1));
    }
    Ok(None)
}

/// Number of days in (`year`, `month`), as `chrono` counts them.
pub fn last_day_of_month(year: i32, month: u32) -> (r: u32)
    requires
        MIN_YEAR <= year <= MAX_YEAR,
        1 <= month <= 12,
    ensures
        r as int == days_in_month(year as int, month as int),
{
    if ymd_is_valid(year, month, 31) {
        31
    } else if ymd_is_valid(year, month, 30) {
        30
    } else if ymd_is_valid(year, month, 29) {
        29
    } else {
        28
    }
}

/// Resolve `day` to a concrete date in (`year`, `month`). Days past the end of
/// the month clamp to its last day.
pub fn monthly_occurrence(year: i32, month: u32, day: u32) -> (r: Date)
    requires
        MIN_YEAR <= year <= MAX_YEAR,
        1 <= month <= 12,
        day >= 1,
    ensures
        r.wf(),
        (r.year as int, r.month as int, r.day as int) == monthly_occurrence_spec(
            year as int,
            month as int,
            day as int,
        ),
{
    let last = last_day_of_month(year, month);
    let d = if day < last { day } else { last };
    Date { year, month, day: d }
}

/// Monotonic month counter (`year*12 + month-1`).
pub fn month_index_ym(year: i32, month: u32) -> (r: i64)
    requires
        1 <= month <= 12,
    ensures
        r as int == month_index_spec(year as int, month as int),
{
    year as i64 * 12 + (month as i64 - 1)
}

/// Is `index` on the cadence set by `interval` and `anchor`? `interval <= 1`
/// is always on cadence.
pub fn on_cadence(index: i64, anchor_index: Option<i64>, interval: u32) -> (r: bool)
    requires
        anchor_index matches Some(a) ==> i64::MIN <= index - a <= i64::MAX,
    ensures
        r == on_cadence_spec(index as int, match anchor_index {
            Some(a) => Some(a as int),
            None => None,
        }, interval as int),
{
    if interval <= 1 {
        return true;
    }
    let a: i64 = match anchor_index {
        Some(a) => a,
        None => 0,
    };
    let diff = index - a;
    let k = interval as u128;
    let mag: u128 = if diff < 0 { (-(diff as i128)) as u128 } else { diff as u128 };
    let r = mag % k == 0;
    proof {
        let di = diff as int;
        let ki = k as int;
        if di < 0 {
            lemma_mod_zero_neg(di, ki);
        }
    }
    r
}

/// Divisibility does not depend on sign.
pub proof fn lemma_mod_zero_neg(x: int, k: int)
    requires
        k > 0,
    ensures
        ((-x) % k == 0) <==> (x % k == 0),
{
    vstd::arithmetic::div_mod::lemma_fundamental_div_mod(x, k);
    vstd::arithmetic::div_mod::lemma_fundamental_div_mod(-x, k);
    if (-x) % k == 0 {
        let q = (-x) / k;
        assert(x == (-q) * k + 0) by (nonlinear_arith)
            requires -x == k * q + 0;
        vstd::arithmetic::div_mod::lemma_fundamental_div_mod_converse(x, k, -q, 0);
    }
    if x % k == 0 {
        let q = x / k;
        assert(-x == (-q) * k + 0) by (nonlinear_arith)
            requires x == k * q + 0;
        vstd::arithmetic::div_mod::lemma_fundamental_div_mod_converse(-x, k, -q, 0);
    }
}

/// `YYYY-MM` for a year and month.
pub fn ym_chars(y: i32, m: u32) -> (r: Vec<char>)
    ensures
        r@ == ym_text(y as int, m as int),
{
    let mut out = fmt_i64(y as i64, 4);
    out.push('-');
    let mm = fmt_i64(m as i64, 2);
    extend_chars(&mut out, &mm);
    out
}

/// monthly: if `today` falls within the `lead_days` window before an
/// occurrence (this month's or next month's), return its `YYYY-MM`.
pub fn monthly_due(today: Date, day_of_month: u32, lead_days: i64) -> (r: Option<String>)
    requires
        today.wf(),
        day_of_month >= 1,
        !(today.year == MAX_YEAR && today.month >= 11),
    ensures
        r matches Some(s) ==> monthly_due_spec(today, day_of_month as int, lead_days as int, 1, None) == Some(s@),
        r is None ==> monthly_due_spec(today, day_of_month as int, lead_days as int, 1, None) is None,
{
    monthly_due_every(today, day_of_month, lead_days, 1, None)
}

/// monthly, honouring an `interval` (every Nth month) aligned to `anchor`.
pub fn monthly_due_every(today: Date, day_of_month: u32, lead_days: i64, interval: u32, anchor: Option<Date>) -> (r: Option<String>)
    requires
        today.wf(),
        day_of_month >= 1,
        !(today.year == MAX_YEAR && today.month >= 11),
        anchor matches Some(a) ==> a.wf(),
    ensures
        r matches Some(s) ==> monthly_due_spec(today, day_of_month as int, lead_days as int, interval as int, anchor) == Some(s@),
        r is None ==> monthly_due_spec(today, day_of_month as int, lead_days as int, interval as int, anchor) is None,
{
    let anchor_index: Option<i64> = match anchor {
        Some(a) => Some(month_index_ym(a.year, a.month)),
        None => None,
    };
    let y0 = today.year;
    let m0 = today.month;
    let occ0 = monthly_occurrence(y0, m0, day_of_month);
    let delta0 = days_between(today, occ0);
    if 0 <= delta0 && delta0 <= lead_days && on_cadence(month_index_ym(y0, m0), anchor_index, interval) {
        return Some(string_of(&ym_chars(y0, m0)));
    }
    let (y1, m1) = if m0 == 12 { (y0 + 1, 1u32) } else { (y0, m0 + 1) };
    let occ1 = monthly_occurrence(y1, m1, day_of_month);
    let delta1 = days_between(today, occ1);
    if 0 <= delta1 && delta1 <= lead_days && on_cadence(month_index_ym(y1, m1), anchor_index, interval) {
        return Some(string_of(&ym_chars(y1, m1)));
    }
    None
}

/// Parse a canonical lowercase three-letter weekday (`mon`..`sun`); every
/// other form is rejected.
pub fn parse_weekday(s: &str) -> (r: Option<Weekday>)
    ensures
        r == weekday_named(s@),
{
    let c = chars_of(s);
    if c.len() != 3 {
        proof {
            assert(c@.len() != 3);
        }
        return None;
    }
    let (a, b, d) = (c[0], c[1], c[2]);
    assert(c@ =~= seq![a, b, d]);
    if a == 'm' && b == 'o' && d == 'n' {
        Some(Weekday::Mon)
    } else if a == 't' && b == 'u' && d == 'e' {
        Some(Weekday::Tue)
    } else if a == 'w' && b == 'e' && d == 'd' {
        Some(Weekday::Wed)
    } else if a == 't' && b == 'h' && d == 'u' {
        Some(Weekday::Thu)
    } else if a == 'f' && b == 'r' && d == 'i' {
        Some(Weekday::Fri)
    } else if a == 's' && b == 'a' && d == 't' {
        Some(Weekday::Sat)
    } else if a == 's' && b == 'u' && d == 'n' {
        Some(Weekday::Sun)
    } else {
        None
    }
}

/// Week counter of a date: its ISO week's Monday, in whole weeks.
pub fn iso_week_index(d: Date) -> (r: i64)
    requires
        d.wf(),
    ensures
        r as int == week_index_spec(d),
        -1_000_000_000 <= r <= 1_000_000_000,
{
    let dn = days_from_ce(d) as i64;
    let wd = weekday_from_monday(d) as i64;
    let ws = dn - (wd - 1);
    proof {
        assert(-100_000_000 <= d.dn() <= 100_000_000) by {
            assert(MIN_YEAR <= d.year <= MAX_YEAR);
            assert(0 <= days_before_month(d.year as int, d.month as int) <= 366) by {
                lemma_days_before_month_bounds(d.year as int, d.month as int);
            }
        }
    }
    if ws >= 0 {
        ws / 7
    } else {
        -((-ws) / 7)
    }
}

pub proof fn lemma_days_before_month_bounds(y: int, m: int)
    requires
        1 <= m <= 12,
    ensures
        0 <= days_before_month(y, m) <= 366,
        days_before_month(y, m) <= 31 * (m - 1),
    decreases m,
{
    if m > 1 {
        lemma_days_before_month_bounds(y, m - 1);
    }
}

/// weekly: once per ISO week, on or after the `target` weekday. Returns that
/// week's `YYYY-Www`.
pub fn weekly_due(today: Date, target: Weekday) -> (r: Option<String>)
    requires
        today.wf(),
    ensures
        r matches Some(s) ==> weekly_due_spec(today, target, 1, None) == Some(s@),
        r is None ==> weekly_due_spec(today, target, 1, None) is None,
{
    weekly_due_every(today, target, 1, None)
}

/// weekly, honouring an `interval` (every Nth ISO week) aligned to `anchor`.
pub fn weekly_due_every(today: Date, target: Weekday, interval: u32, anchor: Option<Date>) -> (r: Option<String>)
    requires
        today.wf(),
        anchor matches Some(a) ==> a.wf(),
    ensures
        r matches Some(s) ==> weekly_due_spec(today, target, interval as int, anchor) == Some(s@),
        r is None ==> weekly_due_spec(today, target, interval as int, anchor) is None,
{
    if weekday_from_monday(today) < target.number_from_monday() {
        return None;
    }
    let anchor_index: Option<i64> = match anchor {
        Some(a) => Some(iso_week_index(a)),
        None => None,
    };
    if !on_cadence(iso_week_index(today), anchor_index, interval) {
        return None;
    }
    let (iy, iw) = iso_year_week(today);
    proof {
        lemma_iso_week_bounds(today);
    }
    let mut out = fmt_i64(iy as i64, 4);
    out.push('-');
    out.push('W');
    let w = fmt_i64(iw as i64, 2);
    extend_chars(&mut out, &w);
    Some(string_of(&out))
}

/// The ISO week-year stays within a year of the date's year.
pub proof fn lemma_iso_week_bounds(d: Date)
    requires
        d.wf(),
    ensures
        d.year - 1 <= iso_week_of(d.year as int, d.month as int, d.day as int).0 <= d.year + 1,
        1 <= iso_week_of(d.year as int, d.month as int, d.day as int).1 <= 99,
{
    let y = d.year as int;
    let dn = d.dn();
    lemma_days_before_month_bounds(y, d.month as int);
    lemma_year_length(y - 1);
    lemma_year_length(y);
    assert(day_number(y, 1, 1) <= dn <= day_number(y, 1, 1) + 397);
    assert(0 <= weekday0(dn) <= 6);
}

/// Consecutive New Year's days are 364 to 367 days apart.
pub proof fn lemma_year_length(y: int)
    ensures
        364 <= day_number(y + 1, 1, 1) - day_number(y, 1, 1) <= 367,
{
    let p = y - 1;
    assert(0 <= y / 4 - p / 4 <= 1);
    assert(0 <= y / 100 - p / 100 <= 1);
    assert(0 <= y / 400 - p / 400 <= 1);
    assert(365 * y - 365 * p == 365);
    assert(days_before_month(y + 1, 1) == 0);
    assert(days_before_month(y, 1) == 0);
}

/// A year is 366 days long when leap, else 365.
#[verifier::spinoff_prover]
#[verifier::rlimit(40)]
pub proof fn lemma_year_length_exact(y: int)
    ensures
        day_number(y + 1, 1, 1) - day_number(y, 1, 1) == if is_leap(y) {
            366int
        } else {
            365int
        },
{
    let p = y - 1;
    assert(y / 4 - p / 4 == if y % 4 == 0 { 1int } else { 0int });
    assert(y / 100 - p / 100 == if y % 100 == 0 { 1int } else { 0int });
    assert(y / 400 - p / 400 == if y % 400 == 0 { 1int } else { 0int });
    assert(days_before_month(y + 1, 1) == 0);
    assert(days_before_month(y, 1) == 0);
    if y % 400 == 0 {
        assert(y % 100 == 0 && y % 4 == 0);
    } else if y % 100 == 0 {
        assert(y % 4 == 0);
    }
}

/// From a day of month `m` to a day of the month after it.
proof fn lemma_next_month_distance(y: int, m: int, d1: int, d2: int)
    requires
        1 <= m <= 12,
    ensures
        ({
            let (ny, nm) = next_ym(y, m);
            day_number(ny, nm, d2) - day_number(y, m, d1) == days_in_month(y, m) - d1 + d2
        }),
{
    if m == 12 {
        lemma_year_length_exact(y);
        reveal_with_fuel(days_before_month, 12);
        assert(days_before_month(y, 12) == 334 + if is_leap(y) { 1int } else { 0int });
    }
}

/// Monthly windows never overlap: with `lead_days` in 0-27, the window of
/// the next month's occurrence opens after this month's occurrence, so a
/// day lies in at most one window.
pub proof fn law_monthly_windows_disjoint(y: int, m: int, dom: int, lead: int)
    requires
        1 <= m <= 12,
        1 <= dom <= 31,
        0 <= lead <= 27,
    ensures
        ({
            let o = monthly_occurrence_spec(y, m, dom);
            let (ny, nm) = next_ym(y, m);
            let o2 = monthly_occurrence_spec(ny, nm, dom);
            day_number(o2.0, o2.1, o2.2) - lead > day_number(o.0, o.1, o.2)
        }),
{
    let o = monthly_occurrence_spec(y, m, dom);
    let (ny, nm) = next_ym(y, m);
    let o2 = monthly_occurrence_spec(ny, nm, dom);
    lemma_next_month_distance(y, m, o.2, o2.2);
    assert(days_in_month(y, m) >= 28);
    assert(days_in_month(ny, nm) >= 28);
}

/// The date of the `ord`-th `weekday` in (`year`, `month`).
pub fn nth_weekday_occurrence(year: i32, month: u32, weekday: Weekday, ord: WeekOrdinal) -> (r: Date)
    requires
        MIN_YEAR <= year <= MAX_YEAR,
        1 <= month <= 12,
        ordinal_ok(ord),
    ensures
        r.wf(),
        r.year == year && r.month == month,
        r.day as int == nth_weekday_day(year as int, month as int, weekday, ord),
{
    let first = Date { year, month, day: 1 };
    let first_wd = weekday_from_monday(first);
    let target = weekday.number_from_monday();
    let offset = (7 + target - first_wd) % 7;
    let first_day = 1 + offset;
    let last = last_day_of_month(year, month);
    let day = match ord {
        WeekOrdinal::Nth(n) => first_day + 7 * (n - 1),
        WeekOrdinal::Last => {
            let steps = (last - first_day) / 7;
            first_day + 7 * steps
        },
    };
    proof {
        assert(28 <= days_in_month(year as int, month as int));
        if let WeekOrdinal::Last = ord {
            let f = first_day as int;
            let l = last as int;
            assert(f + 7 * ((l - f) / 7) <= l) by (nonlinear_arith)
                requires l >= f;
        }
    }
    Date { year, month, day }
}

/// nth_weekday: once per month, on or after the `ord`-th `weekday`; returns
/// this month's `YYYY-MM`.
pub fn nth_weekday_due(today: Date, weekday: Weekday, ord: WeekOrdinal) -> (r: Option<String>)
    requires
        today.wf(),
        ordinal_ok(ord),
    ensures
        r matches Some(s) ==> nth_weekday_due_spec(today, weekday, ord, 1, None) == Some(s@),
        r is None ==> nth_weekday_due_spec(today, weekday, ord, 1, None) is None,
{
    nth_weekday_due_every(today, weekday, ord, 1, None)
}

/// nth_weekday, honouring an `interval` (every Nth month) aligned to `anchor`.
pub fn nth_weekday_due_every(today: Date, weekday: Weekday, ord: WeekOrdinal, interval: u32, anchor: Option<Date>) -> (r: Option<String>)
    requires
        today.wf(),
        ordinal_ok(ord),
        anchor matches Some(a) ==> a.wf(),
    ensures
        r matches Some(s) ==> nth_weekday_due_spec(today, weekday, ord, interval as int, anchor) == Some(s@),
        r is None ==> nth_weekday_due_spec(today, weekday, ord, interval as int, anchor) is None,
{
    let occ = nth_weekday_occurrence(today.year, today.month, weekday, ord);
    if today.day < occ.day {
        return None;
    }
    let anchor_index: Option<i64> = match anchor {
        Some(a) => Some(month_index_ym(a.year, a.month)),
        None => None,
    };
    if !on_cadence(month_index_ym(today.year, today.month), anchor_index, interval) {
        return None;
    }
    Some(string_of(&ym_chars(today.year, today.month)))
}

/// The days before a later month cover the earlier month whole.
proof fn lemma_months_before(y: int, m1: int, m2: int)
    requires
        1 <= m1 < m2 <= 12,
    ensures
        days_before_month(y, m1) + days_in_month(y, m1) <= days_before_month(y, m2),
    decreases m2,
{
    if m2 - 1 > m1 {
        lemma_months_before(y, m1, m2 - 1);
    }
    assert(days_before_month(y, m2) == days_before_month(y, m2 - 1) + days_in_month(y, m2 - 1));
}

/// New Year's day comes later each year.
proof fn lemma_new_years_increase(y1: int, y2: int)
    requires
        y1 < y2,
    ensures
        day_number(y1 + 1, 1, 1) <= day_number(y2, 1, 1),
    decreases y2 - y1,
{
    if y2 - 1 > y1 {
        lemma_new_years_increase(y1, y2 - 1);
        lemma_year_length(y2 - 1);
    }
}

/// The last day of a year is the day before the next New Year's day.
proof fn lemma_year_end(y: int)
    ensures
        day_number(y, 1, 1) - 1 + days_before_month(y, 12) + 31 == day_number(y + 1, 1, 1) - 1,
{
    lemma_year_length_exact(y);
    reveal_with_fuel(days_before_month, 12);
    assert(days_before_month(y, 12) == 334 + if is_leap(y) { 1int } else { 0int });
    assert(days_before_month(y, 1) == 0);
}

/// Day numbers follow the calendar: of two valid dates, the one earlier by
/// year, then month, then day has the smaller day number.
pub proof fn lemma_day_number_order(a: (int, int, int), b: (int, int, int))
    requires
        valid_ymd(a.0, a.1, a.2),
        valid_ymd(b.0, b.1, b.2),
        a.0 < b.0 || (a.0 == b.0 && (a.1 < b.1 || (a.1 == b.1 && a.2 < b.2))),
    ensures
        day_number(a.0, a.1, a.2) < day_number(b.0, b.1, b.2),
{
    lemma_days_before_month_bounds(a.0, a.1);
    lemma_days_before_month_bounds(b.0, b.1);
    assert(days_before_month(a.0, 1) == 0);
    assert(days_before_month(b.0, 1) == 0);
    if a.0 == b.0 {
        if a.1 < b.1 {
            lemma_months_before(a.0, a.1, b.1);
        }
    } else {
        if a.1 < 12 {
            lemma_months_before(a.0, a.1, 12);
        }
        lemma_year_end(a.0);
        lemma_new_years_increase(a.0, b.0);
    }
}

} // verus!
