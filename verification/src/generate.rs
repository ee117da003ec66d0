//! Deciding which recurring tasks are due.
//!
//! Every generated task carries a `recurring:` marker: the rule key for
//! after_completion, `key:YYYY` for calendar, `key:YYYY-MM` for monthly and
//! nth_weekday, `key:YYYY-Www` for weekly. A run reads the markers back from
//! the existing tasks, so running again on the same day creates nothing.

use vstd::prelude::*;

use vstd::string::StringExecFns;

use crate::date::{Date, MAX_YEAR, days_from_ce};
use crate::due::{
    AnnualError, after_completion_due, after_completion_due_spec, calendar_due, calendar_due_spec,
    iso_week_text, monthly_due, monthly_due_spec, nth_weekday_due, nth_weekday_due_spec,
    parse_weekday, weekday_named, weekly_due, weekly_due_spec,
};
use crate::rule::{Rule, RuleError, RuleField, Trigger, rule_rejected, rejection_at, validate_all, week_ordinal_spec};
use crate::task::{ExistingTask, max_id, next_id, slug_of, slugify, spec_to_lowercase};
use crate::text::{all_digits, chars_of, dec, fmt_i64, fmt_int, is_digit, lemma_dec_len, lemma_fmt_digits, string_of};
use crate::due::{lemma_iso_week_bounds, ym_text};
use crate::date::iso_week_of;

verus! {

/// One task the generator decided to create.
#[derive(Debug, Clone, PartialEq)]
pub struct Created {
    pub filename: String,
    pub marker: String,
}

/// What a generator run did.
#[derive(Debug, Default, PartialEq)]
pub struct Report {
    pub created: Vec<Created>,
}

/// Why a rule could not be decided.
#[derive(Debug, Clone, PartialEq, Eq)]
pub enum DecideError {
    /// The trigger needs this field and it is absent.
    Missing(RuleField),
    /// The `annual` date does not resolve.
    Annual(AnnualError),
    /// `day_of_week` is not one of `mon`..`sun`.
    BadDayOfWeek,
    /// `week` is neither 1-4 nor `last`.
    BadWeek,
}

/// A task the generator will create: which rule, its id and what it reports.
#[derive(Debug, Clone, PartialEq)]
pub struct Planned {
    pub rule_index: usize,
    pub id: String,
    pub created: Created,
}

/// Why a generator run stopped.
#[derive(Debug, Clone, PartialEq)]
pub enum GenerateError {
    /// The rule set failed validation.
    Invalid(RuleError),
    /// A rule could not be decided.
    Decide { key: String, error: DecideError },
}

// ---------------------------------------------------------------------------
// Specification

/// What follows `key:` in a marker, if the marker starts so.
pub open spec fn discriminator(marker: Seq<char>, key: Seq<char>) -> Option<Seq<char>> {
    if marker.len() > key.len() && marker.take(key.len() as int) == key && marker[key.len() as int]
        == ':' {
        Some(marker.skip(key.len() as int + 1))
    } else {
        None
    }
}

/// `YYYY`: four ASCII digits.
pub open spec fn is_year_text(s: Seq<char>) -> bool {
    s.len() == 4 && all_digits(s)
}

/// `YYYY-MM`.
pub open spec fn is_year_month_spec(s: Seq<char>) -> bool {
    s.len() == 7 && all_digits(s.take(4)) && s[4] == '-' && all_digits(s.skip(5))
}

/// `YYYY-Www`.
pub open spec fn is_year_week_spec(s: Seq<char>) -> bool {
    s.len() == 8 && all_digits(s.take(4)) && s[4] == '-' && s[5] == 'W' && all_digits(s.skip(6))
}

/// Whether a `recurring` marker belongs to a rule: the key itself for
/// after_completion; `key:` and the trigger's discriminator shape otherwise.
pub open spec fn marker_belongs_spec(marker: Seq<char>, rule: Rule) -> bool {
    match rule.trigger {
        Trigger::AfterCompletion => marker == rule.key@,
        Trigger::Calendar => (discriminator(marker, rule.key@) matches Some(d) && is_year_text(d)),
        Trigger::Monthly => (discriminator(marker, rule.key@) matches Some(d) && is_year_month_spec(d)),
        Trigger::Weekly => (discriminator(marker, rule.key@) matches Some(d) && is_year_week_spec(d)),
        Trigger::NthWeekday => (discriminator(marker, rule.key@) matches Some(d) && is_year_month_spec(
            d,
        )),
    }
}

/// Whether a task carries a marker of this rule.
pub open spec fn belongs(t: ExistingTask, rule: Rule) -> bool {
    t.recurring matches Some(m) && marker_belongs_spec(m@, rule)
}

/// Whether some task of this rule is still open.
pub open spec fn any_open_mine(ts: Seq<ExistingTask>, rule: Rule) -> bool {
    exists|i: int| 0 <= i < ts.len() && belongs(#[trigger] ts[i], rule) && ts[i].open_spec()
}

/// Whether a task carries exactly `marker`.
pub open spec fn carries(t: ExistingTask, marker: Seq<char>) -> bool {
    t.recurring matches Some(m) && m@ == marker
}

/// Whether some task of this rule carries exactly `marker`.
pub open spec fn has_marker_mine(ts: Seq<ExistingTask>, rule: Rule, marker: Seq<char>) -> bool {
    exists|i: int| 0 <= i < ts.len() && belongs(#[trigger] ts[i], rule) && carries(ts[i], marker)
}

/// The latest occurrence date among this rule's tasks.
pub open spec fn latest_mine(ts: Seq<ExistingTask>, rule: Rule) -> Option<Date>
    decreases ts.len(),
{
    if ts.len() == 0 {
        None
    } else {
        let rest = latest_mine(ts.drop_last(), rule);
        let t = ts.last();
        if belongs(t, rule) && t.occurrence_spec() is Some {
            let d = t.occurrence_spec()->0;
            match rest {
                Some(r) => if r.dn() >= d.dn() {
                    rest
                } else {
                    Some(d)
                },
                None => Some(d),
            }
        } else {
            rest
        }
    }
}

/// `key:` followed by a discriminator.
pub open spec fn keyed(key: Seq<char>, d: Seq<char>) -> Seq<char> {
    key + seq![':'] + d
}

/// A keyed marker, unless a task of the rule already carries it.
pub open spec fn fresh_marker(ts: Seq<ExistingTask>, rule: Rule, d: Option<Seq<char>>) -> Option<Seq<char>> {
    match d {
        Some(x) => if has_marker_mine(ts, rule, keyed(rule.key@, x)) {
            None
        } else {
            Some(keyed(rule.key@, x))
        },
        None => None,
    }
}

/// Whether a rule is due today given the existing tasks: the marker to stamp
/// on the new task, `None` to skip, or why the rule cannot be decided.
pub open spec fn decide_spec(rule: Rule, ts: Seq<ExistingTask>, today: Date) -> Result<
    Option<Seq<char>>,
    DecideError,
> {
    match rule.trigger {
        Trigger::AfterCompletion => if any_open_mine(ts, rule) {
            Ok(None)
        } else {
            match rule.every_days {
                None => Err(DecideError::Missing(RuleField::EveryDays)),
                Some(e) => Ok(
                    if after_completion_due_spec(today, e as int, latest_mine(ts, rule)) {
                        Some(rule.key@)
                    } else {
                        None
                    },
                ),
            }
        },
        Trigger::Calendar => match rule.annual {
            None => Err(DecideError::Missing(RuleField::Annual)),
            Some(a) => match rule.lead_days {
                None => Err(DecideError::Missing(RuleField::LeadDays)),
                Some(l) => match calendar_due_spec(today, a@, l as int) {
                    Err(e) => Err(DecideError::Annual(e)),
                    Ok(None) => Ok(None),
                    Ok(Some(y)) => Ok(fresh_marker(ts, rule, Some(fmt_int(y, 1)))),
                },
            },
        },
        Trigger::Monthly => match rule.day_of_month {
            None => Err(DecideError::Missing(RuleField::DayOfMonth)),
            Some(d) => match rule.lead_days {
                None => Err(DecideError::Missing(RuleField::LeadDays)),
                Some(l) => Ok(fresh_marker(ts, rule, monthly_due_spec(today, d as int, l as int, 1, None))),
            },
        },
        Trigger::Weekly => match rule.day_of_week {
            None => Err(DecideError::Missing(RuleField::DayOfWeek)),
            Some(s) => match weekday_named(s@) {
                None => Err(DecideError::BadDayOfWeek),
                Some(wd) => Ok(fresh_marker(ts, rule, weekly_due_spec(today, wd, 1, None))),
            },
        },
        Trigger::NthWeekday => match rule.day_of_week {
            None => Err(DecideError::Missing(RuleField::DayOfWeek)),
            Some(s) => match weekday_named(s@) {
                None => Err(DecideError::BadDayOfWeek),
                Some(wd) => match rule.week {
                    None => Err(DecideError::Missing(RuleField::Week)),
                    Some(w) => match week_ordinal_spec(w) {
                        None => Err(DecideError::BadWeek),
                        Some(ord) => Ok(fresh_marker(ts, rule, nth_weekday_due_spec(today, wd, ord, 1, None))),
                    },
                },
            },
        },
    }
}

/// The (rule index, marker) of every due rule among the first `n`, in order,
/// or the first rule that cannot be decided.
pub open spec fn decisions(rules: Seq<Rule>, ts: Seq<ExistingTask>, today: Date, n: int) -> Result<
    Seq<(int, Seq<char>)>,
    (int, DecideError),
>
    decreases n,
{
    if n <= 0 {
        Ok(Seq::empty())
    } else {
        match decisions(rules, ts, today, n - 1) {
            Err(e) => Err(e),
            Ok(ds) => match decide_spec(rules[n - 1], ts, today) {
                Err(e) => Err((n - 1, e)),
                Ok(None) => Ok(ds),
                Ok(Some(m)) => Ok(ds.push((n - 1, m))),
            },
        }
    }
}

/// Whether a rule set passes validation.
pub open spec fn all_valid(rules: Seq<Rule>) -> bool {
    forall|i: int| 0 <= i < rules.len() ==> !rule_rejected(rules, i)
}

// ---------------------------------------------------------------------------
// Implementation

fn all_digit_chars(c: &Vec<char>, lo: usize, hi: usize) -> (r: bool)
    requires
        lo <= hi <= c.len(),
    ensures
        r == all_digits(c@.subrange(lo as int, hi as int)),
{
    let mut i = lo;
    while i < hi
        invariant
            lo <= i <= hi,
            hi <= c.len(),
            forall|j: int| lo <= j < i ==> is_digit(#[trigger] c@[j]),
        decreases hi - i,
    {
        if !('0' <= c[i] && c[i] <= '9') {
            assert(!is_digit(c@.subrange(lo as int, hi as int)[i - lo]));
            return false;
        }
        i += 1;
    }
    assert forall|j: int| 0 <= j < hi - lo implies is_digit(#[trigger] c@.subrange(lo as int, hi as int)[j]) by {
        assert(c@.subrange(lo as int, hi as int)[j] == c@[lo + j]);
    }
    true
}

/// Is `s` a `YYYY-MM` discriminator?
pub fn is_year_month(s: &str) -> (r: bool)
    ensures
        r == is_year_month_spec(s@),
{
    let c = chars_of(s);
    if c.len() != 7 {
        return false;
    }
    let a = all_digit_chars(&c, 0, 4);
    let b = all_digit_chars(&c, 5, 7);
    assert(c@.take(4) =~= c@.subrange(0, 4));
    assert(c@.skip(5) =~= c@.subrange(5, 7));
    a && c[4] == '-' && b
}

fn is_year_week(c: &Vec<char>) -> (r: bool)
    ensures
        r == is_year_week_spec(c@),
{
    if c.len() != 8 {
        return false;
    }
    let a = all_digit_chars(c, 0, 4);
    let b = all_digit_chars(c, 6, 8);
    assert(c@.take(4) =~= c@.subrange(0, 4));
    assert(c@.skip(6) =~= c@.subrange(6, 8));
    a && c[4] == '-' && c[5] == 'W' && b
}

/// What follows `key:` in `marker`, as characters.
fn discriminator_of(marker: &Vec<char>, key: &Vec<char>) -> (r: Option<Vec<char>>)
    ensures
        match discriminator(marker@, key@) {
            Some(d) => r matches Some(v) && v@ == d,
            None => r is None,
        },
{
    let k = key.len();
    if marker.len() <= k {
        return None;
    }
    let mut i: usize = 0;
    while i < k
        invariant
            i <= k,
            k == key.len(),
            k < marker.len(),
            forall|j: int| 0 <= j < i ==> marker@[j] == key@[j],
        decreases k - i,
    {
        if marker[i] != key[i] {
            assert(marker@.take(k as int)[i as int] != key@[i as int]);
            return None;
        }
        i += 1;
    }
    assert(marker@.take(k as int) =~= key@);
    if marker[k] != ':' {
        return None;
    }
    let mut out: Vec<char> = Vec::new();
    let mut j = k + 1;
    while j < marker.len()
        invariant
            k + 1 <= j <= marker.len(),
            out@ =~= marker@.subrange(k + 1, j as int),
        decreases marker.len() - j,
    {
        out.push(marker[j]);
        j += 1;
    }
    Some(out)
}

/// Does a task's `recurring` marker belong to this rule?
pub fn marker_belongs(marker: &str, rule: &Rule) -> (r: bool)
    ensures
        r == marker_belongs_spec(marker@, *rule),
{
    let m = chars_of(marker);
    let key = chars_of(rule.key.as_str());
    match rule.trigger {
        Trigger::AfterCompletion => crate::text::chars_eq(&m, &key),
        _ => match discriminator_of(&m, &key) {
            None => false,
            Some(d) => match rule.trigger {
                Trigger::Calendar => {
                    let ok = d.len() == 4 && all_digit_chars(&d, 0, 4);
                    proof {
                        if d.len() == 4 {
                            assert(d@.subrange(0, 4) =~= d@);
                        }
                    }
                    ok
                },
                Trigger::Weekly => is_year_week(&d),
                _ => {
                    let s = string_of(&d);
                    is_year_month(s.as_str())
                },
            },
        },
    }
}

fn belongs_exec(t: &ExistingTask, rule: &Rule) -> (r: bool)
    ensures
        r == belongs(*t, *rule),
{
    match &t.recurring {
        Some(m) => marker_belongs(m.as_str(), rule),
        None => false,
    }
}

fn any_open_mine_exec(ts: &[ExistingTask], rule: &Rule) -> (r: bool)
    ensures
        r == any_open_mine(ts@, *rule),
{
    let mut i: usize = 0;
    while i < ts.len()
        invariant
            i <= ts.len(),
            forall|j: int| 0 <= j < i ==> !(belongs(#[trigger] ts@[j], *rule) && ts@[j].open_spec()),
        decreases ts.len() - i,
    {
        if belongs_exec(&ts[i], rule) && ts[i].is_open() {
            assert(belongs(ts@[i as int], *rule) && ts@[i as int].open_spec());
            return true;
        }
        i += 1;
    }
    false
}

fn has_marker_mine_exec(ts: &[ExistingTask], rule: &Rule, marker: &str) -> (r: bool)
    ensures
        r == has_marker_mine(ts@, *rule, marker@),
{
    let mut i: usize = 0;
    while i < ts.len()
        invariant
            i <= ts.len(),
            forall|j: int|
                0 <= j < i ==> !(belongs(#[trigger] ts@[j], *rule) && carries(ts@[j], marker@)),
        decreases ts.len() - i,
    {
        if belongs_exec(&ts[i], rule) {
            match &ts[i].recurring {
                Some(m) => {
                    if crate::text::str_eq(m.as_str(), marker) {
                        return true;
                    }
                },
                None => {},
            }
        }
        i += 1;
    }
    false
}

fn latest_mine_exec(ts: &[ExistingTask], rule: &Rule) -> (r: Option<Date>)
    requires
        forall|i: int| 0 <= i < ts.len() ==> (#[trigger] ts@[i]).wf(),
    ensures
        r == latest_mine(ts@, *rule),
        r matches Some(d) ==> d.wf(),
{
    let mut cur: Option<Date> = None;
    let mut i: usize = 0;
    while i < ts.len()
        invariant
            i <= ts.len(),
            forall|j: int| 0 <= j < ts.len() ==> (#[trigger] ts@[j]).wf(),
            cur == latest_mine(ts@.take(i as int), *rule),
            cur matches Some(d) ==> d.wf(),
        decreases ts.len() - i,
    {
        assert(ts@.take(i + 1).drop_last() =~= ts@.take(i as int));
        assert(ts@.take(i + 1).last() == ts@[i as int]);
        if belongs_exec(&ts[i], rule) {
            match ts[i].occurrence_date() {
                Some(d) => {
                    match cur {
                        Some(c) => {
                            if days_from_ce(c) < days_from_ce(d) {
                                cur = Some(d);
                            }
                        },
                        None => {
                            cur = Some(d);
                        },
                    }
                },
                None => {},
            }
        }
        i += 1;
    }
    assert(ts@.take(ts.len() as int) =~= ts@);
    cur
}

/// `key:` followed by `d`.
fn keyed_exec(key: &str, d: &str) -> (r: String)
    ensures
        r@ == keyed(key@, d@),
{
    let mut s = key.to_owned();
    s.append(":");
    proof {
        reveal_strlit(":");
    }
    s.append(d);
    assert(s@ =~= keyed(key@, d@));
    s
}

fn fresh_marker_exec(ts: &[ExistingTask], rule: &Rule, d: Option<String>) -> (r: Option<String>)
    ensures
        crate::text::opt_text(r) == fresh_marker(ts@, *rule, crate::text::opt_text(d)),
{
    match d {
        Some(x) => {
            let m = keyed_exec(rule.key.as_str(), x.as_str());
            if has_marker_mine_exec(ts, rule, m.as_str()) {
                None
            } else {
                Some(m)
            }
        },
        None => None,
    }
}

/// Decide whether `rule` is due today given the existing tasks; returns the
/// `recurring` marker to stamp on the new task, or `None` to skip.
///   - after_completion: an open task of the rule blocks; otherwise due by
///     interval since the latest conclusion.
///   - calendar / monthly / weekly / nth_weekday: due inside the period's
///     window unless a task for that period already exists, so completing an
///     occurrence early never re-triggers it.
pub fn decide(rule: &Rule, existing: &[ExistingTask], today: Date) -> (r: Result<Option<String>, DecideError>)
    requires
        today.wf(),
        forall|i: int| 0 <= i < existing.len() ==> (#[trigger] existing@[i]).wf(),
        rule.trigger == Trigger::Monthly ==> (rule.day_of_month matches Some(d) ==> d >= 1),
        rule.trigger == Trigger::Monthly ==> !(today.year == MAX_YEAR && today.month >= 11),
    ensures
        match decide_spec(*rule, existing@, today) {
            Ok(o) => r matches Ok(x) && crate::text::opt_text(x) == o,
            Err(e) => r == Err::<Option<String>, DecideError>(e),
        },
{
    match rule.trigger {
        Trigger::AfterCompletion => {
            if any_open_mine_exec(existing, rule) {
                return Ok(None);
            }
            let last = latest_mine_exec(existing, rule);
            match rule.every_days {
                None => Err(DecideError::Missing(RuleField::EveryDays)),
                Some(every) => {
                    if after_completion_due(today, every, last) {
                        Ok(Some(rule.key.clone()))
                    } else {
                        Ok(None)
                    }
                },
            }
        },
        Trigger::Calendar => {
            let annual = match &rule.annual {
                Some(a) => a,
                None => return Err(DecideError::Missing(RuleField::Annual)),
            };
            let lead = match rule.lead_days {
                Some(l) => l,
                None => return Err(DecideError::Missing(RuleField::LeadDays)),
            };
            match calendar_due(today, annual.as_str(), lead) {
                Err(e) => Err(DecideError::Annual(e)),
                Ok(None) => Ok(None),
                Ok(Some(y)) => {
                    let text = string_of(&fmt_i64(y as i64, 1));
                    Ok(fresh_marker_exec(existing, rule, Some(text)))
                },
            }
        },
        Trigger::Monthly => {
            let day = match rule.day_of_month {
                Some(d) => d,
                None => return Err(DecideError::Missing(RuleField::DayOfMonth)),
            };
            let lead = match rule.lead_days {
                Some(l) => l,
                None => return Err(DecideError::Missing(RuleField::LeadDays)),
            };
            Ok(fresh_marker_exec(existing, rule, monthly_due(today, day, lead)))
        },
        Trigger::Weekly => {
            let dow = match &rule.day_of_week {
                Some(s) => s,
                None => return Err(DecideError::Missing(RuleField::DayOfWeek)),
            };
            let wd = match parse_weekday(dow.as_str()) {
                Some(w) => w,
                None => return Err(DecideError::BadDayOfWeek),
            };
            Ok(fresh_marker_exec(existing, rule, weekly_due(today, wd)))
        },
        Trigger::NthWeekday => {
            let dow = match &rule.day_of_week {
                Some(s) => s,
                None => return Err(DecideError::Missing(RuleField::DayOfWeek)),
            };
            let wd = match parse_weekday(dow.as_str()) {
                Some(w) => w,
                None => return Err(DecideError::BadDayOfWeek),
            };
            let week = match &rule.week {
                Some(w) => w,
                None => return Err(DecideError::Missing(RuleField::Week)),
            };
            let ord = match week.ordinal() {
                Some(o) => o,
                None => return Err(DecideError::BadWeek),
            };
            Ok(fresh_marker_exec(existing, rule, nth_weekday_due(today, wd, ord)))
        },
    }
}

/// Filename of a created task: `<id>-<slug of title>.md`.
pub open spec fn task_filename(id: Seq<char>, title: Seq<char>) -> Seq<char> {
    id + "-"@ + slug_of(spec_to_lowercase(title)) + ".md"@
}

/// The whole generator decision for a run: validate the rules, then decide
/// every rule against the existing tasks in file order. Each due rule gets the
/// next free id (zero-padded to three digits, one past the highest existing
/// id, counting up) and a filename from that id and its title's slug.
#[verifier::rlimit(40)]
pub fn plan(rules: &[Rule], existing: &[ExistingTask], today: Date) -> (r: Result<Vec<Planned>, GenerateError>)
    requires
        today.wf(),
        today.year < MAX_YEAR,
        forall|i: int| 0 <= i < existing.len() ==> (#[trigger] existing@[i]).wf(),
        max_id(existing@) + rules.len() < u32::MAX,
    ensures
        !all_valid(rules@) ==> (r matches Err(GenerateError::Invalid(e)) && exists|i: int|
            0 <= i < rules@.len() && rule_rejected(rules@, i) && (forall|j: int|
                0 <= j < i ==> !rule_rejected(rules@, j)) && e.key@ == rules@[i].key@ && e.kind
                == rejection_at(rules@, i)),
        all_valid(rules@) ==> match decisions(rules@, existing@, today, rules@.len() as int) {
            Err((i, e)) => r matches Err(GenerateError::Decide { key, error }) && key@ == rules@[i].key@
                && error == e,
            Ok(ds) => r matches Ok(ps) && ps.len() == ds.len() && forall|j: int|
                0 <= j < ds.len() ==> {
                    &&& (#[trigger] ps@[j]).rule_index == ds[j].0
                    &&& ps@[j].created.marker@ == ds[j].1
                    &&& ps@[j].id@ == fmt_int(max_id(existing@) + 1 + j, 3)
                    &&& ps@[j].created.filename@ == task_filename(ps@[j].id@, rules@[ds[j].0].title@)
                },
        },
{
    match validate_all(rules) {
        Err(e) => return Err(GenerateError::Invalid(e)),
        Ok(()) => {},
    }
    let mut next = next_id(existing);
    let mut out: Vec<Planned> = Vec::new();
    let mut i: usize = 0;
    while i < rules.len()
        invariant
            i <= rules.len(),
            today.wf(),
            today.year < MAX_YEAR,
            forall|k: int| 0 <= k < existing.len() ==> (#[trigger] existing@[k]).wf(),
            all_valid(rules@),
            max_id(existing@) + rules.len() < u32::MAX,
            next as int == max_id(existing@) + 1 + out.len(),
            out.len() <= i,
            decisions(rules@, existing@, today, i as int) matches Ok(ds) && ds.len() == out.len()
                && forall|j: int|
                0 <= j < ds.len() ==> {
                    &&& (#[trigger] out@[j]).rule_index == ds[j].0
                    &&& out@[j].created.marker@ == ds[j].1
                    &&& out@[j].id@ == fmt_int(max_id(existing@) + 1 + j, 3)
                    &&& out@[j].created.filename@ == task_filename(out@[j].id@, rules@[ds[j].0].title@)
                },
        decreases rules.len() - i,
    {
        let rule = &rules[i];
        assert(!rule_rejected(rules@, i as int));
        match decide(rule, existing, today) {
            Err(e) => {
                return Err(GenerateError::Decide { key: rule.key.clone(), error: e });
            },
            Ok(None) => {},
            Ok(Some(marker)) => {
                let id = string_of(&fmt_i64(next as i64, 3));
                let mut filename = id.clone();
                filename.append("-");
                let slug = slugify(rule.title.as_str());
                filename.append(slug.as_str());
                filename.append(".md");
                out.push(Planned { rule_index: i, id, created: Created { filename, marker } });
                next = next + 1;
            },
        }
        i += 1;
    }
    Ok(out)
}

// ---------------------------------------------------------------------------
// Idempotency

/// `key:d` splits back into `d`.
proof fn lemma_keyed_discriminator(key: Seq<char>, d: Seq<char>)
    ensures
        discriminator(keyed(key, d), key) == Some(d),
{
    let m = keyed(key, d);
    assert(m.take(key.len() as int) =~= key);
    assert(m[key.len() as int] == ':');
    assert(m.skip(key.len() as int + 1) =~= d);
}

/// A year in 1000-9999 formats to four digits.
proof fn lemma_year_digits(y: int)
    requires
        1000 <= y <= 9999,
    ensures
        fmt_int(y, 1) == fmt_int(y, 4),
        is_year_text(fmt_int(y, 4)),
{
    lemma_dec_len(y as nat);
    lemma_fmt_digits(y, 4);
}

/// `YYYY-MM` for a year in 1000-9999 has the year-month shape.
proof fn lemma_ym_shape(y: int, m: int)
    requires
        1000 <= y <= 9999,
        1 <= m <= 12,
    ensures
        is_year_month_spec(ym_text(y, m)),
{
    lemma_year_digits(y);
    lemma_dec_len(m as nat);
    lemma_fmt_digits(m, 2);
    let t = ym_text(y, m);
    assert(t.take(4) =~= fmt_int(y, 4));
    assert(t.skip(5) =~= fmt_int(m, 2));
}

/// A date's `YYYY-Www` has the year-week shape when its year is 1000-9998.
proof fn lemma_week_shape(d: Date)
    requires
        d.wf(),
        1001 <= d.year <= 9998,
    ensures
        is_year_week_spec(iso_week_text(d)),
{
    lemma_iso_week_bounds(d);
    let w = iso_week_of(d.year as int, d.month as int, d.day as int);
    lemma_year_digits(w.0);
    lemma_dec_len(w.1 as nat);
    lemma_fmt_digits(w.1, 2);
    let t = iso_week_text(d);
    assert(t.take(4) =~= fmt_int(w.0, 4));
    assert(t.skip(6) =~= fmt_int(w.1, 2));
}

/// The marker a rule decides on belongs to that rule.
proof fn lemma_marker_belongs(rule: Rule, ts: Seq<ExistingTask>, today: Date, m: Seq<char>)
    requires
        today.wf(),
        1001 <= today.year <= 9998,
        decide_spec(rule, ts, today) == Ok::<Option<Seq<char>>, DecideError>(Some(m)),
    ensures
        marker_belongs_spec(m, rule),
{
    match rule.trigger {
        Trigger::AfterCompletion => {},
        Trigger::Calendar => {
            let a = rule.annual->0;
            let l = rule.lead_days->0;
            let y = calendar_due_spec(today, a@, l as int)->Ok_0->0;
            lemma_year_digits(y);
            lemma_keyed_discriminator(rule.key@, fmt_int(y, 1));
        },
        Trigger::Monthly => {
            let x = monthly_due_spec(today, rule.day_of_month->0 as int, rule.lead_days->0 as int, 1, None)->0;
            let y0 = today.year as int;
            let m0 = today.month as int;
            if m0 == 12 {
                lemma_ym_shape(y0, m0);
                lemma_ym_shape(y0 + 1, 1);
            } else {
                lemma_ym_shape(y0, m0);
                lemma_ym_shape(y0, m0 + 1);
            }
            lemma_keyed_discriminator(rule.key@, x);
        },
        Trigger::Weekly => {
            lemma_week_shape(today);
            lemma_keyed_discriminator(rule.key@, iso_week_text(today));
        },
        Trigger::NthWeekday => {
            lemma_ym_shape(today.year as int, today.month as int);
            lemma_keyed_discriminator(rule.key@, ym_text(today.year as int, today.month as int));
        },
    }
}

/// Adding tasks that are not the rule's keeps its latest occurrence.
proof fn lemma_latest_append_foreign(ts: Seq<ExistingTask>, news: Seq<ExistingTask>, rule: Rule)
    requires
        forall|j: int| 0 <= j < news.len() ==> !belongs(#[trigger] news[j], rule),
    ensures
        latest_mine(ts + news, rule) == latest_mine(ts, rule),
    decreases news.len(),
{
    if news.len() == 0 {
        assert(ts + news =~= ts);
    } else {
        let shorter = news.drop_last();
        assert((ts + news).drop_last() =~= ts + shorter);
        assert((ts + news).last() == news.last());
        assert(!belongs(news[news.len() - 1], rule));
        lemma_latest_append_foreign(ts, shorter, rule);
    }
}

/// Once the tasks a rule decided on exist (open, carrying their markers), and
/// every added task is open, the rule decides to skip.
proof fn lemma_rule_settles(rule: Rule, ts: Seq<ExistingTask>, news: Seq<ExistingTask>, today: Date)
    requires
        today.wf(),
        decide_spec(rule, ts, today) matches Ok(Some(m)) ==> marker_belongs_spec(m, rule),
        rule.problem() is None,
        decide_spec(rule, ts, today) is Ok,
        forall|j: int| 0 <= j < news.len() ==> (#[trigger] news[j]).open_spec(),
        decide_spec(rule, ts, today) matches Ok(Some(m)) ==> exists|j: int|
            0 <= j < news.len() && carries(#[trigger] news[j], m),
    ensures
        decide_spec(rule, ts + news, today) == Ok::<Option<Seq<char>>, DecideError>(None),
{
    let all = ts + news;
    assert forall|i: int| 0 <= i < ts.len() implies #[trigger] all[i] == ts[i] by {}
    assert forall|j: int| 0 <= j < news.len() implies #[trigger] all[ts.len() + j] == news[j] by {}
    if let Ok(Some(m)) = decide_spec(rule, ts, today) {
        let j = choose|j: int| 0 <= j < news.len() && carries(#[trigger] news[j], m);
        assert(all[ts.len() + j] == news[j]);
        assert(belongs(all[ts.len() + j], rule));
        if rule.trigger == Trigger::AfterCompletion {
            assert(any_open_mine(all, rule));
        } else {
            assert(has_marker_mine(all, rule, m));
        }
    } else {
        if rule.trigger == Trigger::AfterCompletion {
            if any_open_mine(ts, rule) {
                let i = choose|i: int| 0 <= i < ts.len() && belongs(#[trigger] ts[i], rule) && ts[i].open_spec();
                assert(all[i] == ts[i]);
                assert(any_open_mine(all, rule));
            } else if exists|j: int| 0 <= j < news.len() && belongs(#[trigger] news[j], rule) {
                let j = choose|j: int| 0 <= j < news.len() && belongs(#[trigger] news[j], rule);
                assert(all[ts.len() + j] == news[j]);
                assert(any_open_mine(all, rule));
            } else {
                lemma_latest_append_foreign(ts, news, rule);
                assert forall|i: int| 0 <= i < all.len() implies !(belongs(#[trigger] all[i], rule) && all[i].open_spec()) by {
                    if i < ts.len() {
                        assert(all[i] == ts[i]);
                    } else {
                        assert(all[i] == news[i - ts.len()]);
                    }
                }
            }
        } else {
            assert forall|x: Seq<char>| has_marker_mine(ts, rule, x) implies has_marker_mine(all, rule, x) by {
                let i = choose|i: int| 0 <= i < ts.len() && belongs(#[trigger] ts[i], rule) && carries(ts[i], x);
                assert(all[i] == ts[i]);
            }
        }
    }
}

/// Whether `(i, m)` is among a run's decisions.
pub open spec fn listed(ds: Seq<(int, Seq<char>)>, i: int, m: Seq<char>) -> bool {
    exists|j: int| 0 <= j < ds.len() && #[trigger] ds[j] == (i, m)
}

/// A run that succeeded decided every rule, and each decided marker is in
/// its list.
proof fn lemma_decisions_cover(rules: Seq<Rule>, ts: Seq<ExistingTask>, today: Date, n: int)
    requires
        0 <= n <= rules.len(),
        decisions(rules, ts, today, n) is Ok,
    ensures
        forall|i: int| 0 <= i < n ==> (#[trigger] decide_spec(rules[i], ts, today)) is Ok,
        forall|i: int|
            0 <= i < n ==> (#[trigger] decide_spec(rules[i], ts, today) matches Ok(Some(m)) ==> listed(
                decisions(rules, ts, today, n)->Ok_0,
                i,
                m,
            )),
    decreases n,
{
    if n > 0 {
        lemma_decisions_cover(rules, ts, today, n - 1);
        let ds = decisions(rules, ts, today, n - 1)->Ok_0;
        let now = decisions(rules, ts, today, n)->Ok_0;
        assert forall|i: int|
            0 <= i < n implies (#[trigger] decide_spec(rules[i], ts, today) matches Ok(Some(m)) ==> listed(
                now,
                i,
                m,
            )) by {
            let m = decide_spec(rules[i], ts, today)->Ok_0->0;
            if !(decide_spec(rules[i], ts, today) matches Ok(Some(_))) {
            } else if i < n - 1 {
                assert(listed(ds, i, m));
                let j = choose|j: int| 0 <= j < ds.len() && #[trigger] ds[j] == (i, m);
                assert(now[j] == ds[j]);
            } else {
                assert(now[ds.len() as int] == (i, m));
            }
        }
    }
}

/// When every rule decides to skip, the run creates nothing.
proof fn lemma_decisions_empty(rules: Seq<Rule>, ts: Seq<ExistingTask>, today: Date, n: int)
    requires
        0 <= n <= rules.len(),
        forall|i: int| 0 <= i < n ==> #[trigger] decide_spec(rules[i], ts, today) == Ok::<Option<Seq<char>>, DecideError>(None),
    ensures
        decisions(rules, ts, today, n) == Ok::<Seq<(int, Seq<char>)>, (int, DecideError)>(Seq::empty()),
    decreases n,
{
    if n > 0 {
        lemma_decisions_empty(rules, ts, today, n - 1);
        assert(decide_spec(rules[n - 1], ts, today) == Ok::<Option<Seq<char>>, DecideError>(None));
    }
}

/// Every marker a run decides on has the shape its rule's markers have
/// (`key` for after_completion, `key:YYYY`, `key:YYYY-MM` or `key:YYYY-Www`
/// otherwise), so a later run recognises it.
pub open spec fn decided_shaped(rules: Seq<Rule>, ts: Seq<ExistingTask>, today: Date) -> bool {
    forall|i: int|
        0 <= i < rules.len() ==> (#[trigger] decide_spec(rules[i], ts, today) matches Ok(Some(m))
            ==> marker_belongs_spec(m, rules[i]))
}

/// Markers have their fixed shape for every after_completion rule on any
/// day, and for every rule on a day in the years 1001-9998 (where each
/// year, month and ISO week a rule can name is written with four digits).
pub proof fn law_markers_shaped(rules: Seq<Rule>, ts: Seq<ExistingTask>, today: Date)
    requires
        today.wf(),
        (1001 <= today.year <= 9998) || forall|i: int| 0 <= i < rules.len() ==> (#[trigger] rules[i]).trigger
            == Trigger::AfterCompletion,
    ensures
        decided_shaped(rules, ts, today),
{
    assert forall|i: int| 0 <= i < rules.len() implies (#[trigger] decide_spec(rules[i], ts, today) matches Ok(
        Some(m),
    ) ==> marker_belongs_spec(m, rules[i])) by {
        if let Ok(Some(m)) = decide_spec(rules[i], ts, today) {
            if rules[i].trigger != Trigger::AfterCompletion {
                lemma_marker_belongs(rules[i], ts, today, m);
            }
        }
    }
}

/// Running the generator again on the same day creates nothing. Once the
/// tasks a successful run decided on exist - each open and carrying its
/// marker - a second run over the same rules decides to skip every rule, so
/// it never duplicates. Holds wherever the decided markers have their fixed
/// shape (see [`law_markers_shaped`]: every after_completion rule on any
/// day, every rule in the years 1001-9998).
pub proof fn law_generate_idempotent(
    rules: Seq<Rule>,
    existing: Seq<ExistingTask>,
    news: Seq<ExistingTask>,
    today: Date,
)
    requires
        today.wf(),
        decided_shaped(rules, existing, today),
        all_valid(rules),
        decisions(rules, existing, today, rules.len() as int) is Ok,
        news.len() == decisions(rules, existing, today, rules.len() as int)->Ok_0.len(),
        forall|j: int| 0 <= j < news.len() ==> (#[trigger] news[j]).open_spec() && carries(
            news[j],
            decisions(rules, existing, today, rules.len() as int)->Ok_0[j].1,
        ),
    ensures
        decisions(rules, existing + news, today, rules.len() as int) == Ok::<
            Seq<(int, Seq<char>)>,
            (int, DecideError),
        >(Seq::empty()),
{
    let n = rules.len() as int;
    let ds = decisions(rules, existing, today, n)->Ok_0;
    lemma_decisions_cover(rules, existing, today, n);
    assert forall|i: int| 0 <= i < n implies #[trigger] decide_spec(rules[i], existing + news, today)
        == Ok::<Option<Seq<char>>, DecideError>(None) by {
        assert(!rule_rejected(rules, i));
        assert(decide_spec(rules[i], existing, today) is Ok);
        if let Ok(Some(m)) = decide_spec(rules[i], existing, today) {
            assert(listed(ds, i, m));
            let j = choose|j: int| 0 <= j < ds.len() && #[trigger] ds[j] == (i, m);
            assert(carries(news[j], m));
        }
        assert(decide_spec(rules[i], existing, today) matches Ok(Some(m)) ==> marker_belongs_spec(m, rules[i]));
        lemma_rule_settles(rules[i], existing, news, today);
    }
    lemma_decisions_empty(rules, existing + news, today, n);
}

/// An after_completion rule skips while one of its tasks (those whose
/// `recurring` is the rule's key) is still open; otherwise it is due, with
/// the key as marker, exactly when none of its tasks has an occurrence date
/// or `every_days` have passed since the latest one.
pub proof fn law_after_completion_decision(rule: Rule, ts: Seq<ExistingTask>, today: Date, n: i64)
    requires
        rule.trigger == Trigger::AfterCompletion,
        rule.every_days == Some(n),
    ensures
        any_open_mine(ts, rule) ==> decide_spec(rule, ts, today) == Ok::<Option<Seq<char>>, DecideError>(None),
        !any_open_mine(ts, rule) ==> decide_spec(rule, ts, today) == Ok::<Option<Seq<char>>, DecideError>(
            if (match latest_mine(ts, rule) {
                None => true,
                Some(last) => today.dn() - last.dn() >= n,
            }) {
                Some(rule.key@)
            } else {
                None
            },
        ),
        forall|t: ExistingTask| #[trigger] belongs(t, rule) <==> (t.recurring matches Some(m) && m@ == rule.key@),
{
}

/// The anchor of an after_completion rule is its most recent occurrence: no
/// task of the rule has a later occurrence date, and the anchor is the
/// occurrence date of one of the rule's tasks; it is absent exactly when no
/// task of the rule has an occurrence date.
pub proof fn law_anchor_is_latest_occurrence(ts: Seq<ExistingTask>, rule: Rule)
    ensures
        forall|i: int|
            0 <= i < ts.len() && belongs(#[trigger] ts[i], rule) && ts[i].occurrence_spec() is Some ==> (latest_mine(
                ts,
                rule,
            ) matches Some(l) && ts[i].occurrence_spec().unwrap().dn() <= l.dn()),
        latest_mine(ts, rule) matches Some(l) ==> exists|i: int|
            0 <= i < ts.len() && belongs(#[trigger] ts[i], rule) && ts[i].occurrence_spec() == Some(l),
        latest_mine(ts, rule) is None ==> forall|i: int|
            0 <= i < ts.len() && belongs(#[trigger] ts[i], rule) ==> ts[i].occurrence_spec() is None,
    decreases ts.len(),
{
    if ts.len() > 0 {
        let p = ts.drop_last();
        law_anchor_is_latest_occurrence(p, rule);
        assert forall|i: int| 0 <= i < p.len() implies #[trigger] p[i] == ts[i] by {}
        assert(ts.last() == ts[ts.len() - 1]);
        if let Some(l) = latest_mine(ts, rule) {
            if latest_mine(p, rule) == Some(l) {
                let i = choose|i: int| 0 <= i < p.len() && belongs(#[trigger] p[i], rule) && p[i].occurrence_spec() == Some(l);
                assert(ts[i] == p[i]);
            }
        }
        assert forall|i: int|
            0 <= i < ts.len() && belongs(#[trigger] ts[i], rule) && ts[i].occurrence_spec() is Some implies (latest_mine(
                ts,
                rule,
            ) matches Some(l) && ts[i].occurrence_spec().unwrap().dn() <= l.dn()) by {
            if i < p.len() {
                assert(ts[i] == p[i]);
                assert(belongs(p[i], rule));
            }
        }
        assert forall|i: int| 0 <= i < ts.len() && latest_mine(ts, rule) is None && belongs(#[trigger] ts[i], rule) implies ts[i].occurrence_spec() is None by {
            if i < p.len() {
                assert(ts[i] == p[i]);
                assert(belongs(p[i], rule));
            }
        }
    }
}

} // verus!
