//! Moving open tasks between phases by their `due` date, driven by an
//! ordered rule list (`.taskmd.reschedule.yaml`).
//!
//! Everything here takes `today` explicitly. The caller reads the rules file
//! and the vault, and writes the phase of each planned move.

use vstd::prelude::*;

use crate::date::{Date, MAX_YEAR, days_between, days_from_ce, iso_week_of, iso_year_week, weekday0, weekday_from_monday};
use crate::due::next_ym;
use crate::taskmd::model::{Status, Task};
use crate::text::{dec, dec_chars, i64_text, is_blank, signed_dec, str_eq, string_of, texts, trim};
use crate::yaml::{YamlV, lemma_upsert, lemma_upsert_other, upsert};

verus! {

/// Default reschedule-rules file, relative to the vault root.
pub const DEFAULT_RESCHEDULE_CONFIG: &'static str = ".taskmd.reschedule.yaml";

/// A named due-date window, matched against a task's `due` relative to
/// `today`. Overlaps are resolved by rule order: the first match wins.
#[derive(Debug, Clone, Copy, PartialEq, Eq, Structural)]
pub enum Window {
    /// Due strictly before today.
    Overdue,
    /// Due exactly today.
    Today,
    /// Due in the same ISO week as today.
    ThisWeek,
    /// Due in the ISO week after today's.
    NextWeek,
    /// Due in the same calendar month as today.
    ThisMonth,
    /// Due in the calendar month after today's (December rolls into January).
    NextMonth,
}

/// A week after `today` is still a date the calendar represents.
pub open spec fn next_week_fits(today: Date) -> bool {
    !(today.year == MAX_YEAR && today.month == 12 && today.day > 24)
}

/// Whether `due` falls in the window, given `today`.
pub open spec fn window_holds(w: Window, due: Date, today: Date) -> bool {
    match w {
        Window::Overdue => due.dn() < today.dn(),
        Window::Today => due == today,
        Window::ThisWeek => iso_week_of(due.year as int, due.month as int, due.day as int) == iso_week_of(
            today.year as int,
            today.month as int,
            today.day as int,
        ),
        Window::NextWeek => due.week_start() == today.week_start() + 7,
        Window::ThisMonth => due.year == today.year && due.month == today.month,
        Window::NextMonth => (due.year as int, due.month as int) == next_ym(today.year as int, today.month as int),
    }
}

/// Day number of the Monday that starts the date's ISO week.
fn week_start(d: Date) -> (r: i64)
    requires
        d.wf(),
    ensures
        r as int == d.week_start(),
        i32::MIN - 7 <= r <= i32::MAX,
{
    let dn = days_from_ce(d) as i64;
    let wd = weekday_from_monday(d) as i64;
    assert(1 <= wd <= 7) by {
        assert(0 <= weekday0(d.dn()) < 7);
    }
    dn - (wd - 1)
}

impl Window {
    /// Does `due` fall in this window, given `today`?
    pub fn contains(self, due: Date, today: Date) -> (r: bool)
        requires
            due.wf(),
            today.wf(),
            self == Window::NextWeek ==> next_week_fits(today),
        ensures
            r == window_holds(self, due, today),
    {
        match self {
            Window::Overdue => days_between(today, due) < 0,
            Window::Today => due == today,
            Window::ThisWeek => {
                let a = iso_year_week(due);
                let b = iso_year_week(today);
                a.0 == b.0 && a.1 == b.1
            },
            Window::NextWeek => week_start(due) == week_start(today) + 7,
            Window::ThisMonth => due.year == today.year && due.month == today.month,
            Window::NextMonth => {
                let (y, m): (i32, u32) = if today.month == 12 {
                    (today.year + 1, 1)
                } else {
                    (today.year, today.month + 1)
                };
                due.year == y && due.month == m
            },
        }
    }
}

/// One reschedule rule: a window (named or numeric) and the phase a
/// matching task moves to. Exactly one kind of matcher must be set.
#[derive(Debug, Clone, PartialEq)]
pub struct RescheduleRule {
    /// Target phase id (must be a configured phase).
    pub phase: String,
    /// Named window (exclusive with `min_days`/`max_days`).
    pub due: Option<Window>,
    /// Inclusive lower bound on `due - today` in days.
    pub min_days: Option<i64>,
    /// Inclusive upper bound on `due - today` in days (`0` also catches
    /// overdue tasks).
    pub max_days: Option<i64>,
}

/// Whether a task due on `due` matches the rule: the named window when it
/// has one, else the numeric range (an absent bound is open).
pub open spec fn rule_matches(r: RescheduleRule, due: Date, today: Date) -> bool {
    match r.due {
        Some(w) => window_holds(w, due, today),
        None => {
            let off = due.dn() - today.dn();
            (r.min_days matches Some(lo) ==> off >= lo) && (r.max_days matches Some(hi) ==> off <= hi)
        },
    }
}

/// No rule asks for the week after a `today` the calendar cannot step past.
pub open spec fn rules_fit(rules: Seq<RescheduleRule>, today: Date) -> bool {
    forall|i: int| 0 <= i < rules.len() && #[trigger] rules[i].due == Some(Window::NextWeek) ==> next_week_fits(today)
}

/// Why a reschedule rule was rejected; the number is the rule's position,
/// counting from 1.
#[derive(Debug, Clone, PartialEq)]
pub enum RescheduleError {
    BothMatchers(usize),
    NoMatcher(usize),
    InvertedRange(usize, i64, i64),
    EmptyPhase(usize),
    UnknownPhase(usize, String),
}

/// [`RescheduleError`] with its text as a sequence.
pub enum RescheduleErrV {
    BothMatchers(int),
    NoMatcher(int),
    InvertedRange(int, int, int),
    EmptyPhase(int),
    UnknownPhase(int, Seq<char>),
}

pub open spec fn reschedule_error_view(e: RescheduleError) -> RescheduleErrV {
    match e {
        RescheduleError::BothMatchers(n) => RescheduleErrV::BothMatchers(n as int),
        RescheduleError::NoMatcher(n) => RescheduleErrV::NoMatcher(n as int),
        RescheduleError::InvertedRange(n, lo, hi) => RescheduleErrV::InvertedRange(n as int, lo as int, hi as int),
        RescheduleError::EmptyPhase(n) => RescheduleErrV::EmptyPhase(n as int),
        RescheduleError::UnknownPhase(n, p) => RescheduleErrV::UnknownPhase(n as int, p@),
    }
}

/// The text an error is reported with.
pub open spec fn reschedule_error_text(e: RescheduleErrV) -> Seq<char> {
    let head = |n: int| "reschedule rule #"@ + dec(n as nat) + ": "@;
    match e {
        RescheduleErrV::BothMatchers(n) => head(n) + "cannot combine a `due` window with `min_days`/`max_days`"@,
        RescheduleErrV::NoMatcher(n) => head(n) + "needs a `due` window or a `min_days`/`max_days` range"@,
        RescheduleErrV::InvertedRange(n, lo, hi) => head(n) + "`min_days` ("@ + signed_dec(lo) + ") must be <= `max_days` ("@
            + signed_dec(hi) + ")"@,
        RescheduleErrV::EmptyPhase(n) => head(n) + "`phase` must not be empty"@,
        RescheduleErrV::UnknownPhase(n, p) => head(n) + "`phase` `"@ + p + "` is not a configured phase"@,
    }
}

impl RescheduleError {
    /// The error's text.
    pub fn message(&self) -> (r: String)
        ensures
            r@ == reschedule_error_text(reschedule_error_view(*self)),
    {
        let n: usize = match self {
            RescheduleError::BothMatchers(n) => *n,
            RescheduleError::NoMatcher(n) => *n,
            RescheduleError::InvertedRange(n, _, _) => *n,
            RescheduleError::EmptyPhase(n) => *n,
            RescheduleError::UnknownPhase(n, _) => *n,
        };
        let mut s = "reschedule rule #".to_owned();
        let d = dec_chars(n as u64);
        s.append(string_of(d.as_slice()).as_str());
        s.append(": ");
        match self {
            RescheduleError::BothMatchers(_) => s.append("cannot combine a `due` window with `min_days`/`max_days`"),
            RescheduleError::NoMatcher(_) => s.append("needs a `due` window or a `min_days`/`max_days` range"),
            RescheduleError::InvertedRange(_, lo, hi) => {
                s.append("`min_days` (");
                s.append(i64_text(*lo).as_str());
                s.append(") must be <= `max_days` (");
                s.append(i64_text(*hi).as_str());
                s.append(")");
            },
            RescheduleError::EmptyPhase(_) => s.append("`phase` must not be empty"),
            RescheduleError::UnknownPhase(_, p) => {
                s.append("`phase` `");
                s.append(p.as_str());
                s.append("` is not a configured phase");
            },
        }
        s
    }
}

/// The first problem of the rule at position `n` (from 1): both or no
/// matchers, an inverted range, a blank phase, or a phase not configured.
pub open spec fn rule_problem(r: RescheduleRule, n: int, phases: Seq<Seq<char>>) -> Option<RescheduleErrV> {
    let named = r.due is Some;
    let ranged = r.min_days is Some || r.max_days is Some;
    if named && ranged {
        Some(RescheduleErrV::BothMatchers(n))
    } else if !named && !ranged {
        Some(RescheduleErrV::NoMatcher(n))
    } else if r.min_days is Some && r.max_days is Some && r.min_days.unwrap() > r.max_days.unwrap() {
        Some(RescheduleErrV::InvertedRange(n, r.min_days.unwrap() as int, r.max_days.unwrap() as int))
    } else if trim(r.phase@).len() == 0 {
        Some(RescheduleErrV::EmptyPhase(n))
    } else if !phases.contains(r.phase@) {
        Some(RescheduleErrV::UnknownPhase(n, r.phase@))
    } else {
        None
    }
}

/// Whether `p` is one of `phases`.
fn phase_known(phases: &[String], p: &str) -> (r: bool)
    ensures
        r == texts(phases@).contains(p@),
{
    let mut i: usize = 0;
    while i < phases.len()
        invariant
            i <= phases.len(),
            forall|j: int| 0 <= j < i ==> phases@[j]@ != p@,
        decreases phases.len() - i,
    {
        if str_eq(phases[i].as_str(), p) {
            assert(texts(phases@)[i as int] == p@);
            return true;
        }
        i += 1;
    }
    assert(!texts(phases@).contains(p@)) by {
        assert forall|j: int| 0 <= j < texts(phases@).len() implies texts(phases@)[j] != p@ by {
            assert(texts(phases@)[j] == phases@[j]@);
        }
    }
    false
}

impl RescheduleRule {
    /// Does a task due on `due` match, given `today`?
    pub fn matches(&self, due: Date, today: Date) -> (r: bool)
        requires
            due.wf(),
            today.wf(),
            self.due == Some(Window::NextWeek) ==> next_week_fits(today),
        ensures
            r == rule_matches(*self, due, today),
    {
        if let Some(w) = self.due {
            return w.contains(due, today);
        }
        let offset = days_between(today, due);
        let lo_ok = match self.min_days {
            Some(lo) => offset >= lo,
            None => true,
        };
        let hi_ok = match self.max_days {
            Some(hi) => offset <= hi,
            None => true,
        };
        lo_ok && hi_ok
    }

    /// Check the rule at position `idx` (from 0) against the configured
    /// phase ids.
    pub fn validate(&self, idx: usize, valid_phases: &[String]) -> (r: Result<(), RescheduleError>)
        requires
            idx < usize::MAX,
        ensures
            match rule_problem(*self, idx + 1, texts(valid_phases@)) {
                None => r is Ok,
                Some(e) => r matches Err(x) && reschedule_error_view(x) == e,
            },
    {
        let n = idx + 1;
        let has_named = self.due.is_some();
        let has_range = self.min_days.is_some() || self.max_days.is_some();
        if has_named && has_range {
            return Err(RescheduleError::BothMatchers(n));
        }
        if !has_named && !has_range {
            return Err(RescheduleError::NoMatcher(n));
        }
        if let (Some(lo), Some(hi)) = (self.min_days, self.max_days) {
            if lo > hi {
                return Err(RescheduleError::InvertedRange(n, lo, hi));
            }
        }
        if is_blank(self.phase.as_str()) {
            return Err(RescheduleError::EmptyPhase(n));
        }
        if !phase_known(valid_phases, self.phase.as_str()) {
            return Err(RescheduleError::UnknownPhase(n, self.phase.clone()));
        }
        Ok(())
    }
}

/// The reschedule-rules file: the ordered rules and an `enabled` switch.
#[derive(Debug, Clone, PartialEq)]
pub struct RescheduleConfig {
    pub enabled: bool,
    pub rules: Vec<RescheduleRule>,
}

/// The first rule (below `k`) with a problem, as its error.
pub open spec fn first_rule_problem(rules: Seq<RescheduleRule>, phases: Seq<Seq<char>>, k: int) -> Option<RescheduleErrV>
    decreases k,
{
    if k <= 0 {
        None
    } else {
        match first_rule_problem(rules, phases, k - 1) {
            Some(e) => Some(e),
            None => rule_problem(rules[k - 1], k, phases),
        }
    }
}

impl RescheduleConfig {
    /// Validate every rule, in order, against the configured phase ids.
    pub fn validate(&self, valid_phases: &[String]) -> (r: Result<(), RescheduleError>)
        ensures
            match first_rule_problem(self.rules@, texts(valid_phases@), self.rules.len() as int) {
                None => r is Ok,
                Some(e) => r matches Err(x) && reschedule_error_view(x) == e,
            },
    {
        let mut i: usize = 0;
        while i < self.rules.len()
            invariant
                i <= self.rules.len(),
                first_rule_problem(self.rules@, texts(valid_phases@), i as int) is None,
            decreases self.rules.len() - i,
        {
            let r = self.rules[i].validate(i, valid_phases);
            if let Err(e) = r {
                proof {
                    lemma_first_problem_stays(self.rules@, texts(valid_phases@), i + 1, self.rules.len() as int);
                }
                return Err(e);
            }
            i += 1;
        }
        Ok(())
    }
}

/// Once found, the first problem stays the first problem.
proof fn lemma_first_problem_stays(rules: Seq<RescheduleRule>, phases: Seq<Seq<char>>, k: int, n: int)
    requires
        0 <= k <= n,
        first_rule_problem(rules, phases, k) is Some,
    ensures
        first_rule_problem(rules, phases, n) == first_rule_problem(rules, phases, k),
    decreases n - k,
{
    if k < n {
        lemma_first_problem_stays(rules, phases, k, n - 1);
    }
}

/// Index of the first rule matching a task due on `due`.
pub open spec fn first_match(rules: Seq<RescheduleRule>, due: Date, today: Date) -> Option<int>
    decreases rules.len(),
{
    if rules.len() == 0 {
        None
    } else if rule_matches(rules[0], due, today) {
        Some(0)
    } else {
        match first_match(rules.drop_first(), due, today) {
            Some(i) => Some(i + 1),
            None => None,
        }
    }
}

proof fn lemma_first_match(rules: Seq<RescheduleRule>, due: Date, today: Date)
    ensures
        first_match(rules, due, today) matches Some(i) ==> 0 <= i < rules.len() && rule_matches(rules[i], due, today)
            && forall|j: int| 0 <= j < i ==> !rule_matches(#[trigger] rules[j], due, today),
        first_match(rules, due, today) is None ==> forall|j: int|
            0 <= j < rules.len() ==> !rule_matches(#[trigger] rules[j], due, today),
    decreases rules.len(),
{
    if rules.len() > 0 && !rule_matches(rules[0], due, today) {
        lemma_first_match(rules.drop_first(), due, today);
        assert forall|j: int| 1 <= j < rules.len() implies #[trigger] rules[j] == rules.drop_first()[j - 1] by {}
    }
}

/// The target phase for a task due on `due`: the first matching rule's
/// phase, or `None` when no rule matches.
pub fn decide<'a>(due: Date, today: Date, rules: &'a [RescheduleRule]) -> (r: Option<&'a str>)
    requires
        due.wf(),
        today.wf(),
        rules_fit(rules@, today),
    ensures
        match first_match(rules@, due, today) {
            Some(i) => r matches Some(p) && p@ == rules@[i].phase@,
            None => r is None,
        },
{
    proof {
        lemma_first_match(rules@, due, today);
    }
    let mut i: usize = 0;
    while i < rules.len()
        invariant
            i <= rules.len(),
            due.wf(),
            today.wf(),
            rules_fit(rules@, today),
            forall|j: int| 0 <= j < i ==> !rule_matches(#[trigger] rules@[j], due, today),
            first_match(rules@, due, today) matches Some(k) ==> 0 <= k < rules.len() && rule_matches(rules@[k], due, today)
                && forall|j: int| 0 <= j < k ==> !rule_matches(#[trigger] rules@[j], due, today),
            first_match(rules@, due, today) is None ==> forall|j: int|
                0 <= j < rules.len() ==> !rule_matches(#[trigger] rules@[j], due, today),
        decreases rules.len() - i,
    {
        assert(rules@[i as int].due == Some(Window::NextWeek) ==> next_week_fits(today));
        if rules[i].matches(due, today) {
            return Some(rules[i].phase.as_str());
        }
        i += 1;
    }
    None
}

/// One phase move the plan decided on.
#[derive(Debug, Clone, PartialEq)]
pub struct PhaseMove {
    pub id: String,
    /// The task's phase before the move (`None` = unphased).
    pub from: Option<String>,
    pub to: String,
}

/// A move as (id, from, to).
pub open spec fn move_view(m: PhaseMove) -> (Seq<char>, Option<Seq<char>>, Seq<char>) {
    (m.id@, crate::text::opt_text(m.from), m.to@)
}

/// A date from its (year, month, day).
pub open spec fn date_from(p: (int, int, int)) -> Date {
    Date { year: p.0 as i32, month: p.1 as u32, day: p.2 as u32 }
}

pub open spec fn open_status(s: Status) -> bool {
    !(s == Status::Completed || s == Status::Cancelled)
}

/// The move a task needs: open, dated, matched by a rule whose phase differs
/// from the task's current one.
pub open spec fn move_for(t: Task, rules: Seq<RescheduleRule>, today: Date) -> Option<(Seq<char>, Option<Seq<char>>, Seq<char>)> {
    if !open_status(t.effective_status_spec()) {
        None
    } else {
        match t.date("due"@) {
            None => None,
            Some(p) => match first_match(rules, date_from(p), today) {
                None => None,
                Some(i) => if t.text("phase"@) == Some(rules[i].phase@) {
                    None
                } else {
                    Some((t.id_spec(), t.text("phase"@), rules[i].phase@))
                },
            },
        }
    }
}

/// The moves for the first `n` tasks, in task order.
pub open spec fn planned(ts: Seq<Task>, rules: Seq<RescheduleRule>, today: Date, n: int) -> Seq<(Seq<char>, Option<Seq<char>>, Seq<char>)>
    decreases n,
{
    if n <= 0 {
        Seq::empty()
    } else {
        let prev = planned(ts, rules, today, n - 1);
        match move_for(ts[n - 1], rules, today) {
            Some(m) => prev.push(m),
            None => prev,
        }
    }
}

/// Compute the moves for a scanned task set: every open task with a `due`
/// date whose first matching rule names a phase other than its current one.
pub fn plan(tasks: &[Task], rules: &[RescheduleRule], today: Date) -> (r: Vec<PhaseMove>)
    requires
        today.wf(),
        rules_fit(rules@, today),
    ensures
        r@.map_values(|m: PhaseMove| move_view(m)) == planned(tasks@, rules@, today, tasks.len() as int),
{
    let mut moves: Vec<PhaseMove> = Vec::new();
    let mut i: usize = 0;
    while i < tasks.len()
        invariant
            i <= tasks.len(),
            today.wf(),
            rules_fit(rules@, today),
            moves@.map_values(|m: PhaseMove| move_view(m)) == planned(tasks@, rules@, today, i as int),
        decreases tasks.len() - i,
    {
        let task = &tasks[i];
        let ghost before = moves@;
        if !task.effective_status().is_terminal() {
            if let Some(due) = task.due() {
                assert(date_from(task.date("due"@).unwrap()) == due);
                if let Some(target) = decide(due, today, rules) {
                    let from = task.phase();
                    let same = match &from {
                        Some(f) => str_eq(f.as_str(), target),
                        None => false,
                    };
                    if !same {
                        let m = PhaseMove { id: task.id(), from, to: target.to_owned() };
                        moves.push(m);
                        assert(moves@.map_values(|m: PhaseMove| move_view(m)) =~= before.map_values(
                            |m: PhaseMove| move_view(m),
                        ).push(move_view(m)));
                    }
                }
            }
        }
        i += 1;
    }
    moves
}

/// Why a run did not evaluate rules, or that it did.
#[derive(Debug, Clone, Copy, PartialEq, Eq, Structural)]
pub enum State {
    /// Rules were evaluated (see `moved`).
    Ran,
    /// No config file at the resolved path.
    NoConfig,
    /// Config present but `enabled: false`.
    Disabled,
}

/// What a reschedule run did.
#[derive(Debug, Clone, PartialEq)]
pub struct RescheduleReport {
    pub state: State,
    pub moved: Vec<PhaseMove>,
    /// Open tasks with a due date that were considered.
    pub considered: usize,
}

/// How many of the first `n` tasks are open and dated.
pub open spec fn open_dated(ts: Seq<Task>, n: int) -> int
    decreases n,
{
    if n <= 0 {
        0
    } else {
        open_dated(ts, n - 1) + if open_status(ts[n - 1].effective_status_spec()) && ts[n - 1].date("due"@) is Some {
            1int
        } else {
            0int
        }
    }
}

proof fn lemma_open_dated_bound(ts: Seq<Task>, n: int)
    requires
        0 <= n,
    ensures
        0 <= open_dated(ts, n) <= n,
    decreases n,
{
    if n > 0 {
        lemma_open_dated_bound(ts, n - 1);
    }
}

/// The report for a config that is present: `Disabled` when switched off;
/// else the rules are checked against the configured phases and planned
/// over the tasks.
pub fn assess(cfg: &RescheduleConfig, valid_phases: &[String], tasks: &[Task], today: Date) -> (r: Result<
    RescheduleReport,
    RescheduleError,
>)
    requires
        today.wf(),
        rules_fit(cfg.rules@, today),
    ensures
        !cfg.enabled ==> (r matches Ok(rep) && rep.state == State::Disabled && rep.moved.len() == 0 && rep.considered == 0),
        cfg.enabled ==> match first_rule_problem(cfg.rules@, texts(valid_phases@), cfg.rules.len() as int) {
            Some(e) => r matches Err(x) && reschedule_error_view(x) == e,
            None => r matches Ok(rep) && rep.state == State::Ran && rep.considered == open_dated(tasks@, tasks.len() as int)
                && rep.moved@.map_values(|m: PhaseMove| move_view(m)) == planned(tasks@, cfg.rules@, today, tasks.len() as int),
        },
{
    if !cfg.enabled {
        return Ok(RescheduleReport { state: State::Disabled, moved: Vec::new(), considered: 0 });
    }
    cfg.validate(valid_phases)?;
    let mut considered: usize = 0;
    let mut i: usize = 0;
    while i < tasks.len()
        invariant
            i <= tasks.len(),
            considered == open_dated(tasks@, i as int),
        decreases tasks.len() - i,
    {
        proof {
            lemma_open_dated_bound(tasks@, i as int);
        }
        if !tasks[i].effective_status().is_terminal() && tasks[i].due().is_some() {
            considered += 1;
        }
        i += 1;
    }
    let moved = plan(tasks, cfg.rules.as_slice(), today);
    Ok(RescheduleReport { state: State::Ran, moved, considered })
}

/// Rescheduling settles: once a task's planned move is applied (its `phase`
/// set to the target), planning it again with the same rules and day moves
/// nothing.
pub proof fn law_reschedule_settles(t: Task, moved: Task, rules: Seq<RescheduleRule>, today: Date)
    requires
        t.wf(),
        move_for(t, rules, today) is Some,
        moved.fm() == upsert(t.fm(), "phase"@, YamlV::Str(move_for(t, rules, today).unwrap().2)),
    ensures
        move_for(moved, rules, today) is None,
{
    let to = move_for(t, rules, today).unwrap().2;
    reveal_strlit("phase");
    reveal_strlit("status");
    reveal_strlit("due");
    assert("status"@[0] != "phase"@[0]);
    assert("due"@.len() != "phase"@.len());
    lemma_upsert(t.fm(), "phase"@, YamlV::Str(to));
    lemma_upsert_other(t.fm(), "phase"@, YamlV::Str(to), "status"@);
    lemma_upsert_other(t.fm(), "phase"@, YamlV::Str(to), "due"@);
    assert(moved.field("phase"@) == Some(YamlV::Str(to)));
    assert(moved.text("phase"@) == Some(to));
    assert(moved.effective_status_spec() == t.effective_status_spec());
    assert(moved.date("due"@) == t.date("due"@));
}

} // verus!
