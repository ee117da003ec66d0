//! Recurring-rule model and rule validation.
//!
//! A rules file is a YAML list of [`Rule`]s; each describes one recurring task
//! and the trigger that decides when it is due.

use vstd::prelude::*;

use crate::due::{calendar_occurrence, calendar_occurrence_spec, parse_weekday, weekday_named, WeekOrdinal};
use crate::text::{is_blank, trim};

verus! {

/// Which due-check governs a rule.
#[derive(Debug, Clone, Copy, PartialEq, Eq, Structural)]
pub enum Trigger {
    /// Due `every_days` after the last occurrence was completed.
    AfterCompletion,
    /// Due `lead_days` before a fixed annual `MM-DD` date, once per year.
    Calendar,
    /// Due `lead_days` before a fixed day of the month, once per month.
    Monthly,
    /// Due on a fixed weekday, once per ISO week.
    Weekly,
    /// Due on the Nth (or last) weekday of the month, once per month.
    NthWeekday,
}

/// The `week` field of an `nth_weekday` rule: a number or a keyword.
#[derive(Debug, Clone, PartialEq, Eq)]
pub enum Week {
    Nth(u32),
    Keyword(String),
}

/// The trigger-specific optional fields of a rule.
#[derive(Debug, Clone, Copy, PartialEq, Eq, Structural)]
pub enum RuleField {
    EveryDays,
    Annual,
    DayOfMonth,
    DayOfWeek,
    LeadDays,
    Week,
}

/// Why a rule (or a rule set) was rejected.
#[derive(Debug, Clone, PartialEq, Eq, Structural)]
pub enum RuleErrorKind {
    /// `body` is present but blank.
    EmptyBody,
    /// A field that belongs to another trigger is set.
    ForeignField(RuleField),
    /// The trigger needs this field and it is absent.
    MissingField(RuleField),
    /// `annual` is not a valid `MM-DD`.
    InvalidAnnual,
    /// `day_of_month` is outside 1-31.
    DayOfMonthRange,
    /// A monthly `lead_days` is outside 0-27.
    LeadDaysRange,
    /// `day_of_week` is not one of `mon`..`sun`.
    BadDayOfWeek,
    /// `week` is neither 1-4 nor `last`.
    BadWeek,
    /// Two rules share this key.
    DuplicateKey,
}

/// A rejected rule: its key, its trigger and the reason.
#[derive(Debug, Clone, PartialEq, Eq)]
pub struct RuleError {
    pub key: String,
    pub trigger: Trigger,
    pub kind: RuleErrorKind,
}

/// One recurring-task definition from the rules file.
#[derive(Debug, Clone)]
pub struct Rule {
    /// Stable dedup marker stamped as `recurring:` on generated tasks.
    pub key: String,
    /// Task title (also drives the filename slug).
    pub title: String,
    pub trigger: Trigger,
    /// after_completion: days after the last completion.
    pub every_days: Option<i64>,
    /// calendar: fixed annual date as `MM-DD`.
    pub annual: Option<String>,
    /// monthly: day of the month (1-31; 29-31 clamp to the month's end).
    pub day_of_month: Option<u32>,
    /// weekly / nth_weekday: `mon`..`sun`.
    pub day_of_week: Option<String>,
    /// nth_weekday: which occurrence (`1`-`4` or `last`).
    pub week: Option<Week>,
    /// calendar/monthly: days before the occurrence the task appears.
    pub lead_days: Option<i64>,
    pub phase: Option<String>,
    pub priority: Option<String>,
    pub tags: Vec<String>,
    /// Markdown body replacing the default stub.
    pub body: Option<String>,
}

// ---------------------------------------------------------------------------
// Specification

/// The ordinal a `week` value stands for: `1`-`4`, or the keyword `last`.
pub open spec fn week_ordinal_spec(w: Week) -> Option<WeekOrdinal> {
    match w {
        Week::Nth(n) => if 1 <= n <= 4 { Some(WeekOrdinal::Nth(n)) } else { None },
        Week::Keyword(s) => if s@ == seq!['l', 'a', 's', 't'] { Some(WeekOrdinal::Last) } else { None },
    }
}

/// The trigger-specific fields a trigger uses.
pub open spec fn owns(t: Trigger, f: RuleField) -> bool {
    match t {
        Trigger::AfterCompletion => f == RuleField::EveryDays,
        Trigger::Calendar => f == RuleField::Annual || f == RuleField::LeadDays,
        Trigger::Monthly => f == RuleField::DayOfMonth || f == RuleField::LeadDays,
        Trigger::Weekly => f == RuleField::DayOfWeek,
        Trigger::NthWeekday => f == RuleField::DayOfWeek || f == RuleField::Week,
    }
}

impl Rule {
    pub open spec fn has(self, f: RuleField) -> bool {
        match f {
            RuleField::EveryDays => self.every_days is Some,
            RuleField::Annual => self.annual is Some,
            RuleField::DayOfMonth => self.day_of_month is Some,
            RuleField::DayOfWeek => self.day_of_week is Some,
            RuleField::LeadDays => self.lead_days is Some,
            RuleField::Week => self.week is Some,
        }
    }

    /// The first set field (in declaration order) this rule's trigger does not own.
    pub open spec fn foreign_field(self) -> Option<RuleField> {
        if self.has(RuleField::EveryDays) && !owns(self.trigger, RuleField::EveryDays) {
            Some(RuleField::EveryDays)
        } else if self.has(RuleField::Annual) && !owns(self.trigger, RuleField::Annual) {
            Some(RuleField::Annual)
        } else if self.has(RuleField::DayOfMonth) && !owns(self.trigger, RuleField::DayOfMonth) {
            Some(RuleField::DayOfMonth)
        } else if self.has(RuleField::DayOfWeek) && !owns(self.trigger, RuleField::DayOfWeek) {
            Some(RuleField::DayOfWeek)
        } else if self.has(RuleField::LeadDays) && !owns(self.trigger, RuleField::LeadDays) {
            Some(RuleField::LeadDays)
        } else if self.has(RuleField::Week) && !owns(self.trigger, RuleField::Week) {
            Some(RuleField::Week)
        } else {
            None
        }
    }

    /// The trigger-specific check: `None` when the rule is complete.
    pub open spec fn trigger_problem(self) -> Option<RuleErrorKind> {
        match self.trigger {
            Trigger::AfterCompletion => if self.every_days is None {
                Some(RuleErrorKind::MissingField(RuleField::EveryDays))
            } else {
                None
            },
            Trigger::Calendar => match self.annual {
                None => Some(RuleErrorKind::MissingField(RuleField::Annual)),
                Some(a) => if self.lead_days is None {
                    Some(RuleErrorKind::MissingField(RuleField::LeadDays))
                } else if calendar_occurrence_spec(2000, a@) is Err {
                    Some(RuleErrorKind::InvalidAnnual)
                } else {
                    None
                },
            },
            Trigger::Monthly => match self.day_of_month {
                None => Some(RuleErrorKind::MissingField(RuleField::DayOfMonth)),
                Some(d) => if !(1 <= d <= 31) {
                    Some(RuleErrorKind::DayOfMonthRange)
                } else {
                    match self.lead_days {
                        None => Some(RuleErrorKind::MissingField(RuleField::LeadDays)),
                        Some(l) => if !(0 <= l <= 27) {
                            Some(RuleErrorKind::LeadDaysRange)
                        } else {
                            None
                        },
                    }
                },
            },
            Trigger::Weekly => match self.day_of_week {
                None => Some(RuleErrorKind::MissingField(RuleField::DayOfWeek)),
                Some(d) => if weekday_named(d@) is None {
                    Some(RuleErrorKind::BadDayOfWeek)
                } else {
                    None
                },
            },
            Trigger::NthWeekday => match self.day_of_week {
                None => Some(RuleErrorKind::MissingField(RuleField::DayOfWeek)),
                Some(d) => if weekday_named(d@) is None {
                    Some(RuleErrorKind::BadDayOfWeek)
                } else {
                    match self.week {
                        None => Some(RuleErrorKind::MissingField(RuleField::Week)),
                        Some(w) => if week_ordinal_spec(w) is None {
                            Some(RuleErrorKind::BadWeek)
                        } else {
                            None
                        },
                    }
                },
            },
        }
    }

    /// What validating this rule yields: the first problem, in check order
    /// (blank body, foreign field, then the trigger's own fields).
    pub open spec fn problem(self) -> Option<RuleErrorKind> {
        if self.body matches Some(b) && trim(b@).len() == 0 {
            Some(RuleErrorKind::EmptyBody)
        } else if self.foreign_field() is Some {
            Some(RuleErrorKind::ForeignField(self.foreign_field().unwrap()))
        } else {
            self.trigger_problem()
        }
    }
}

/// Whether rule `i` repeats the key of an earlier rule.
pub open spec fn key_repeats(rules: Seq<Rule>, i: int) -> bool {
    exists|j: int| 0 <= j < i && rules[j].key@ == rules[i].key@
}

/// Whether rule `i` is rejected (duplicate key, or its own problem).
pub open spec fn rule_rejected(rules: Seq<Rule>, i: int) -> bool {
    key_repeats(rules, i) || rules[i].problem() is Some
}

/// The error a rule set yields at its first rejected rule.
pub open spec fn rejection_at(rules: Seq<Rule>, i: int) -> RuleErrorKind {
    if key_repeats(rules, i) {
        RuleErrorKind::DuplicateKey
    } else {
        rules[i].problem().unwrap()
    }
}

/// The rules-file spelling of a trigger.
pub open spec fn trigger_label(t: Trigger) -> Seq<char> {
    match t {
        Trigger::AfterCompletion => "after_completion"@,
        Trigger::Calendar => "calendar"@,
        Trigger::Monthly => "monthly"@,
        Trigger::Weekly => "weekly"@,
        Trigger::NthWeekday => "nth_weekday"@,
    }
}

/// The rules-file spelling of a field.
pub open spec fn field_label(f: RuleField) -> Seq<char> {
    match f {
        RuleField::EveryDays => "every_days"@,
        RuleField::Annual => "annual"@,
        RuleField::DayOfMonth => "day_of_month"@,
        RuleField::DayOfWeek => "day_of_week"@,
        RuleField::LeadDays => "lead_days"@,
        RuleField::Week => "week"@,
    }
}

/// The text a rejected rule is reported with.
pub open spec fn rule_error_text(key: Seq<char>, t: Trigger, kind: RuleErrorKind) -> Seq<char> {
    let head = "rule `"@ + key + "`: "@;
    match kind {
        RuleErrorKind::EmptyBody => head + "`body` must not be empty"@,
        RuleErrorKind::ForeignField(f) => head + "`"@ + field_label(f) + "` is not valid for a "@ + trigger_label(t)
            + " trigger"@,
        RuleErrorKind::MissingField(f) => head + trigger_label(t) + " requires `"@ + field_label(f) + "`"@,
        RuleErrorKind::InvalidAnnual => head + "invalid `annual` (need MM-DD)"@,
        RuleErrorKind::DayOfMonthRange => head + "`day_of_month` must be 1-31"@,
        RuleErrorKind::LeadDaysRange => head + "monthly `lead_days` must be 0-27"@,
        RuleErrorKind::BadDayOfWeek => head + "`day_of_week` must be one of mon,tue,wed,thu,fri,sat,sun"@,
        RuleErrorKind::BadWeek => head + "`week` must be 1-4 or `last`"@,
        RuleErrorKind::DuplicateKey => "duplicate rule key `"@ + key + "`"@,
    }
}

// ---------------------------------------------------------------------------
// Implementation

impl Week {
    /// Resolve to an ordinal, or `None` if out of range or an unknown keyword.
    pub fn ordinal(&self) -> (r: Option<WeekOrdinal>)
        ensures
            r == week_ordinal_spec(*self),
    {
        match self {
            Week::Nth(n) => {
                if 1 <= *n && *n <= 4 {
                    Some(WeekOrdinal::Nth(*n))
                } else {
                    None
                }
            },
            Week::Keyword(s) => {
                let c = crate::text::chars_of(s.as_str());
                if c.len() == 4 && c[0] == 'l' && c[1] == 'a' && c[2] == 's' && c[3] == 't' {
                    assert(c@ =~= seq!['l', 'a', 's', 't']);
                    Some(WeekOrdinal::Last)
                } else {
                    assert(c@ != seq!['l', 'a', 's', 't']);
                    None
                }
            },
        }
    }
}

impl Trigger {
    /// The rules-file spelling of this trigger.
    pub fn label(self) -> (r: &'static str)
        ensures
            r@ == trigger_label(self),
    {
        match self {
            Trigger::AfterCompletion => "after_completion",
            Trigger::Calendar => "calendar",
            Trigger::Monthly => "monthly",
            Trigger::Weekly => "weekly",
            Trigger::NthWeekday => "nth_weekday",
        }
    }

    /// The trigger-specific fields this trigger legitimately uses.
    pub fn owned_fields(self) -> (r: Vec<RuleField>)
        ensures
            forall|f: RuleField| r@.contains(f) <==> owns(self, f),
    {
        let mut v: Vec<RuleField> = Vec::new();
        match self {
            Trigger::AfterCompletion => {
                v.push(RuleField::EveryDays);
            },
            Trigger::Calendar => {
                v.push(RuleField::Annual);
                v.push(RuleField::LeadDays);
            },
            Trigger::Monthly => {
                v.push(RuleField::DayOfMonth);
                v.push(RuleField::LeadDays);
            },
            Trigger::Weekly => {
                v.push(RuleField::DayOfWeek);
            },
            Trigger::NthWeekday => {
                v.push(RuleField::DayOfWeek);
                v.push(RuleField::Week);
            },
        }
        proof {
            assert forall|f: RuleField| v@.contains(f) <==> owns(self, f) by {
                if owns(self, f) {
                    match self {
                        Trigger::AfterCompletion => assert(v@[0] == f),
                        Trigger::Calendar => if f == RuleField::Annual { assert(v@[0] == f) } else { assert(v@[1] == f) },
                        Trigger::Monthly => if f == RuleField::DayOfMonth { assert(v@[0] == f) } else { assert(v@[1] == f) },
                        Trigger::Weekly => assert(v@[0] == f),
                        Trigger::NthWeekday => if f == RuleField::DayOfWeek { assert(v@[0] == f) } else { assert(v@[1] == f) },
                    }
                }
            }
        }
        v
    }
}

impl RuleField {
    /// The rules-file spelling of this field.
    pub fn name(self) -> (r: &'static str)
        ensures
            r@ == field_label(self),
    {
        match self {
            RuleField::EveryDays => "every_days",
            RuleField::Annual => "annual",
            RuleField::DayOfMonth => "day_of_month",
            RuleField::DayOfWeek => "day_of_week",
            RuleField::LeadDays => "lead_days",
            RuleField::Week => "week",
        }
    }
}

/// Whether `f` occurs in `v`.
fn field_in(v: &Vec<RuleField>, f: RuleField) -> (r: bool)
    ensures
        r == v@.contains(f),
{
    let mut i: usize = 0;
    while i < v.len()
        invariant
            i <= v.len(),
            forall|j: int| 0 <= j < i ==> v@[j] != f,
        decreases v.len() - i,
    {
        if v[i] == f {
            return true;
        }
        i += 1;
    }
    false
}

impl Rule {
    /// Reject a trigger-specific field that does not belong to this trigger.
    pub fn reject_foreign_fields(&self) -> (r: Result<(), RuleErrorKind>)
        ensures
            r is Ok <==> self.foreign_field() is None,
            r matches Err(k) ==> k == RuleErrorKind::ForeignField(self.foreign_field().unwrap()),
    {
        let owned = self.trigger.owned_fields();
        let present: [(RuleField, bool); 6] = [
            (RuleField::EveryDays, self.every_days.is_some()),
            (RuleField::Annual, self.annual.is_some()),
            (RuleField::DayOfMonth, self.day_of_month.is_some()),
            (RuleField::DayOfWeek, self.day_of_week.is_some()),
            (RuleField::LeadDays, self.lead_days.is_some()),
            (RuleField::Week, self.week.is_some()),
        ];
        let mut i: usize = 0;
        while i < 6
            invariant
                i <= 6,
                present@ == seq![
                    (RuleField::EveryDays, self.every_days is Some),
                    (RuleField::Annual, self.annual is Some),
                    (RuleField::DayOfMonth, self.day_of_month is Some),
                    (RuleField::DayOfWeek, self.day_of_week is Some),
                    (RuleField::LeadDays, self.lead_days is Some),
                    (RuleField::Week, self.week is Some),
                ],
                forall|f: RuleField| owned@.contains(f) <==> owns(self.trigger, f),
                forall|j: int| 0 <= j < i ==> !(present@[j].1 && !owns(self.trigger, present@[j].0)),
            decreases 6 - i,
        {
            let (name, is_set) = present[i];
            if is_set && !field_in(&owned, name) {
                return Err(RuleErrorKind::ForeignField(name));
            }
            i += 1;
        }
        Ok(())
    }

    /// The trigger-specific required-field checks.
    fn check_trigger_fields(&self) -> (r: Result<(), RuleErrorKind>)
        ensures
            r is Ok <==> self.trigger_problem() is None,
            r matches Err(k) ==> Some(k) == self.trigger_problem(),
    {
        match self.trigger {
            Trigger::AfterCompletion => {
                if self.every_days.is_none() {
                    return Err(RuleErrorKind::MissingField(RuleField::EveryDays));
                }
            },
            Trigger::Calendar => {
                let annual = match &self.annual {
                    Some(a) => a,
                    None => return Err(RuleErrorKind::MissingField(RuleField::Annual)),
                };
                if self.lead_days.is_none() {
                    return Err(RuleErrorKind::MissingField(RuleField::LeadDays));
                }
                if calendar_occurrence(2000, annual.as_str()).is_err() {
                    return Err(RuleErrorKind::InvalidAnnual);
                }
            },
            Trigger::Monthly => {
                let day = match self.day_of_month {
                    Some(d) => d,
                    None => return Err(RuleErrorKind::MissingField(RuleField::DayOfMonth)),
                };
                if !(1 <= day && day <= 31) {
                    return Err(RuleErrorKind::DayOfMonthRange);
                }
                let lead = match self.lead_days {
                    Some(l) => l,
                    None => return Err(RuleErrorKind::MissingField(RuleField::LeadDays)),
                };
                if !(0 <= lead && lead <= 27) {
                    return Err(RuleErrorKind::LeadDaysRange);
                }
            },
            Trigger::Weekly => {
                let dow = match &self.day_of_week {
                    Some(d) => d,
                    None => return Err(RuleErrorKind::MissingField(RuleField::DayOfWeek)),
                };
                if parse_weekday(dow.as_str()).is_none() {
                    return Err(RuleErrorKind::BadDayOfWeek);
                }
            },
            Trigger::NthWeekday => {
                let dow = match &self.day_of_week {
                    Some(d) => d,
                    None => return Err(RuleErrorKind::MissingField(RuleField::DayOfWeek)),
                };
                if parse_weekday(dow.as_str()).is_none() {
                    return Err(RuleErrorKind::BadDayOfWeek);
                }
                let week = match &self.week {
                    Some(w) => w,
                    None => return Err(RuleErrorKind::MissingField(RuleField::Week)),
                };
                if week.ordinal().is_none() {
                    return Err(RuleErrorKind::BadWeek);
                }
            },
        }
        Ok(())
    }

    /// Reject a rule with a blank body, a field of another trigger, or a
    /// missing or malformed field its trigger needs.
    pub fn validate(&self) -> (r: Result<(), RuleError>)
        ensures
            r is Ok <==> self.problem() is None,
            r matches Err(e) ==> e.key@ == self.key@ && e.trigger == self.trigger && Some(e.kind) == self.problem(),
    {
        if let Some(body) = &self.body {
            if is_blank(body.as_str()) {
                return Err(RuleError { key: self.key.clone(), trigger: self.trigger, kind: RuleErrorKind::EmptyBody });
            }
        }
        if let Err(kind) = self.reject_foreign_fields() {
            return Err(RuleError { key: self.key.clone(), trigger: self.trigger, kind });
        }
        match self.check_trigger_fields() {
            Ok(()) => Ok(()),
            Err(kind) => Err(RuleError { key: self.key.clone(), trigger: self.trigger, kind }),
        }
    }
}

impl RuleError {
    /// The error's text.
    pub fn message(&self) -> (r: String)
        ensures
            r@ == rule_error_text(self.key@, self.trigger, self.kind),
    {
        let mut s = "rule `".to_owned();
        s.append(self.key.as_str());
        s.append("`: ");
        match self.kind {
            RuleErrorKind::EmptyBody => s.append("`body` must not be empty"),
            RuleErrorKind::ForeignField(f) => {
                s.append("`");
                s.append(f.name());
                s.append("` is not valid for a ");
                s.append(self.trigger.label());
                s.append(" trigger");
            },
            RuleErrorKind::MissingField(f) => {
                s.append(self.trigger.label());
                s.append(" requires `");
                s.append(f.name());
                s.append("`");
            },
            RuleErrorKind::InvalidAnnual => s.append("invalid `annual` (need MM-DD)"),
            RuleErrorKind::DayOfMonthRange => s.append("`day_of_month` must be 1-31"),
            RuleErrorKind::LeadDaysRange => s.append("monthly `lead_days` must be 0-27"),
            RuleErrorKind::BadDayOfWeek => s.append("`day_of_week` must be one of mon,tue,wed,thu,fri,sat,sun"),
            RuleErrorKind::BadWeek => s.append("`week` must be 1-4 or `last`"),
            RuleErrorKind::DuplicateKey => {
                let mut d = "duplicate rule key `".to_owned();
                d.append(self.key.as_str());
                d.append("`");
                return d;
            },
        }
        s
    }
}

/// Validate a whole rules file: keys must be unique and every rule must pass
/// [`Rule::validate`]. The first offending rule (in file order) is reported.
pub fn validate_all(rules: &[Rule]) -> (r: Result<(), RuleError>)
    ensures
        r is Ok <==> (forall|i: int| 0 <= i < rules@.len() ==> !rule_rejected(rules@, i)),
        r matches Err(e) ==> exists|i: int|
            0 <= i < rules@.len() && rule_rejected(rules@, i) && (forall|j: int|
                0 <= j < i ==> !rule_rejected(rules@, j)) && e.key@ == rules@[i].key@ && e.trigger == rules@[i].trigger && e.kind
                == rejection_at(rules@, i),
{
    let mut i: usize = 0;
    while i < rules.len()
        invariant
            i <= rules.len(),
            forall|j: int| 0 <= j < i ==> !rule_rejected(rules@, j),
        decreases rules.len() - i,
    {
        let mut j: usize = 0;
        while j < i
            invariant
                j <= i < rules.len(),
                forall|k: int| 0 <= k < j ==> rules@[k].key@ != rules@[i as int].key@,
                forall|k: int| 0 <= k < i ==> !rule_rejected(rules@, k),
            decreases i - j,
        {
            if rules[j].key == rules[i].key {
                assert(key_repeats(rules@, i as int));
                assert(rule_rejected(rules@, i as int));
                return Err(RuleError { key: rules[i].key.clone(), trigger: rules[i].trigger, kind: RuleErrorKind::DuplicateKey });
            }
            j += 1;
        }
        assert(!key_repeats(rules@, i as int));
        if let Err(e) = rules[i].validate() {
            assert(rule_rejected(rules@, i as int));
            return Err(e);
        }
        i += 1;
    }
    Ok(())
}

/// A field's place in the order fields are checked in.
pub open spec fn field_rank(f: RuleField) -> int {
    match f {
        RuleField::EveryDays => 0,
        RuleField::Annual => 1,
        RuleField::DayOfMonth => 2,
        RuleField::DayOfWeek => 3,
        RuleField::LeadDays => 4,
        RuleField::Week => 5,
    }
}

/// A field the rule's trigger does not own is reported before anything
/// else is checked (but a blank body): the first such field in the order
/// every_days, annual, day_of_month, day_of_week, lead_days, week.
pub proof fn law_foreign_field_first(r: Rule, f: RuleField)
    requires
        !(r.body matches Some(b) && trim(b@).len() == 0),
        r.has(f) && !owns(r.trigger, f),
    ensures
        r.problem() matches Some(RuleErrorKind::ForeignField(g)) && r.has(g) && !owns(r.trigger, g) && forall|h: RuleField|
            r.has(h) && !owns(r.trigger, h) ==> field_rank(g) <= #[trigger] field_rank(h),
{
}

/// A rule with a usable body and only fields its trigger owns is valid
/// exactly when its trigger's requirements hold.
pub proof fn law_rule_valid_iff(r: Rule)
    requires
        !(r.body matches Some(b) && trim(b@).len() == 0),
        r.foreign_field() is None,
    ensures
        r.problem() is None <==> match r.trigger {
            Trigger::AfterCompletion => r.every_days is Some,
            Trigger::Calendar => r.lead_days is Some && (r.annual matches Some(a) && calendar_occurrence_spec(
                2000,
                a@,
            ) is Ok),
            Trigger::Monthly => (r.day_of_month matches Some(d) && 1 <= d <= 31) && (r.lead_days matches Some(l)
                && 0 <= l <= 27),
            Trigger::Weekly => r.day_of_week matches Some(d) && weekday_named(d@) is Some,
            Trigger::NthWeekday => (r.day_of_week matches Some(d) && weekday_named(d@) is Some) && (r.week matches Some(
                w,
            ) && week_ordinal_spec(w) is Some),
        },
{
}

} // verus!
