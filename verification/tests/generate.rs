use karamd::date::Date;
use karamd::generate::{decide, marker_belongs, plan, DecideError, GenerateError};
use karamd::rule::{Rule, RuleField, Trigger, Week};
use karamd::task::ExistingTask;

fn day(y: i32, m: u32, d: u32) -> Date {
    Date::from_ymd(y, m, d).unwrap()
}

fn bare_rule(trigger: Trigger) -> Rule {
    Rule {
        key: "k".into(),
        title: "t".into(),
        trigger,
        every_days: None,
        annual: None,
        day_of_month: None,
        day_of_week: None,
        week: None,
        lead_days: None,
        phase: None,
        priority: None,
        tags: vec![],
        body: None,
    }
}

fn after() -> Rule {
    Rule { key: "checkin".into(), title: "Reach out".into(), every_days: Some(18), ..bare_rule(Trigger::AfterCompletion) }
}

fn cal() -> Rule {
    Rule { key: "bday".into(), title: "Birthday".into(), annual: Some("07-20".into()), lead_days: Some(10), ..bare_rule(Trigger::Calendar) }
}

fn monthly() -> Rule {
    Rule { key: "topup".into(), title: "Top up".into(), day_of_month: Some(12), lead_days: Some(7), ..bare_rule(Trigger::Monthly) }
}

fn existing(num_id: u32, status: &str, marker: &str, completed: Option<Date>, created: Option<Date>) -> ExistingTask {
    ExistingTask {
        num_id,
        status: status.into(),
        recurring: Some(marker.into()),
        completed_at: completed,
        cancelled_at: None,
        created_at: created,
    }
}

/// The tasks a run would create, as the next run sees them.
fn created_as_existing(rules: &[Rule], prior: &[ExistingTask], today: Date) -> Vec<ExistingTask> {
    let planned = plan(rules, prior, today).unwrap();
    let mut all = prior.to_vec();
    for p in planned {
        all.push(ExistingTask {
            num_id: p.id.parse().unwrap(),
            status: "pending".into(),
            recurring: Some(p.created.marker.clone()),
            completed_at: None,
            cancelled_at: None,
            created_at: Some(today),
        });
    }
    all
}

#[test]
fn marker_belongs_matches_correctly() {
    assert!(marker_belongs("checkin", &after()));
    assert!(!marker_belongs("checkin:2026", &after()));
    assert!(marker_belongs("bday:2026", &cal()));
    assert!(!marker_belongs("bday", &cal()));
    assert!(!marker_belongs("bday:20xx", &cal()));
    assert!(!marker_belongs("other:2026", &cal()));
    assert!(!marker_belongs("bday:2026-07", &cal()));
    assert!(marker_belongs("topup:2026-07", &monthly()));
    assert!(!marker_belongs("topup", &monthly()));
    assert!(!marker_belongs("topup:2026", &monthly()));
    assert!(!marker_belongs("topup:2026-7x", &monthly()));
    assert!(!marker_belongs("topup:20x6-07", &monthly()));
    assert!(!marker_belongs("topup:2026_07", &monthly()));
    assert!(!marker_belongs("other:2026-07", &monthly()));
}

#[test]
fn weekly_and_nth_markers_belong_by_shape() {
    let weekly = Rule { key: "w".into(), day_of_week: Some("mon".into()), ..bare_rule(Trigger::Weekly) };
    assert!(marker_belongs("w:2026-W27", &weekly));
    assert!(!marker_belongs("w:2026-27", &weekly));
    let nth = Rule { key: "n".into(), day_of_week: Some("fri".into()), week: Some(Week::Nth(1)), ..bare_rule(Trigger::NthWeekday) };
    assert!(marker_belongs("n:2026-07", &nth));
    assert!(!marker_belongs("n:2026-W27", &nth));
}

#[test]
fn generate_first_run_creates_after_completion() {
    let report = plan(&[after()], &[], day(2026, 7, 1)).unwrap();
    assert_eq!(report.len(), 1);
    assert_eq!(report[0].created.marker, "checkin");
    assert_eq!(report[0].created.filename, "001-reach-out.md");
    assert_eq!(report[0].id, "001");
}

#[test]
fn generate_is_idempotent_same_day() {
    let rules = vec![after(), cal(), monthly()];
    let today = day(2026, 7, 12);
    let first = plan(&rules, &[], today).unwrap();
    assert_eq!(first.len(), 3);
    let now = created_as_existing(&rules, &[], today);
    assert!(plan(&rules, &now, today).unwrap().is_empty());
}

#[test]
fn after_completion_waits_for_interval() {
    let done = existing(1, "completed", "checkin", Some(day(2026, 6, 1)), Some(day(2026, 5, 1)));
    assert_eq!(decide(&after(), &[done.clone()], day(2026, 6, 18)), Ok(None));
    assert_eq!(decide(&after(), &[done], day(2026, 6, 19)), Ok(Some("checkin".into())));
}

#[test]
fn after_completion_undated_completion_uses_created_at_not_refire_forever() {
    let undated = existing(1, "completed", "checkin", None, Some(day(2026, 6, 1)));
    assert!(plan(&[after()], &[undated.clone()], day(2026, 6, 5)).unwrap().is_empty());
    assert_eq!(plan(&[after()], &[undated], day(2026, 6, 20)).unwrap().len(), 1);
}

#[test]
fn calendar_creates_once_per_year_and_survives_early_completion() {
    let first = plan(&[cal()], &[], day(2026, 7, 12)).unwrap();
    assert_eq!(first.len(), 1);
    assert_eq!(first[0].created.marker, "bday:2026");
    let done = existing(1, "completed", "bday:2026", Some(day(2026, 7, 12)), None);
    assert!(plan(&[cal()], &[done], day(2026, 7, 15)).unwrap().is_empty());
}

#[test]
fn calendar_next_year_window_creates_again() {
    let old = existing(1, "completed", "bday:2026", Some(day(2026, 7, 18)), None);
    let r = plan(&[cal()], &[old], day(2027, 7, 12)).unwrap();
    assert_eq!(r.len(), 1);
    assert_eq!(r[0].created.marker, "bday:2027");
    assert_eq!(r[0].id, "002");
}

#[test]
fn calendar_outside_window_creates_nothing() {
    assert!(plan(&[cal()], &[], day(2026, 1, 1)).unwrap().is_empty());
}

#[test]
fn monthly_creates_once_per_month_and_survives_early_completion() {
    let r = plan(&[monthly()], &[], day(2026, 7, 6)).unwrap();
    assert_eq!(r.len(), 1);
    assert_eq!(r[0].created.marker, "topup:2026-07");
    let done = existing(1, "completed", "topup:2026-07", Some(day(2026, 7, 6)), None);
    assert!(plan(&[monthly()], &[done.clone()], day(2026, 7, 10)).unwrap().is_empty());
    let next = plan(&[monthly()], &[done], day(2026, 8, 5)).unwrap();
    assert_eq!(next.len(), 1);
    assert_eq!(next[0].created.marker, "topup:2026-08");
}

#[test]
fn monthly_outside_window_creates_nothing() {
    assert!(plan(&[monthly()], &[], day(2026, 7, 1)).unwrap().is_empty());
}

#[test]
fn generate_invalid_rule_errors() {
    let r = Rule { key: "k".into(), title: "t".into(), ..bare_rule(Trigger::AfterCompletion) };
    assert!(matches!(plan(&[r], &[], day(2026, 7, 1)), Err(GenerateError::Invalid(_))));
}

#[test]
fn generate_rejects_malformed_annual() {
    let r = Rule { annual: Some("99-99".into()), lead_days: Some(5), ..bare_rule(Trigger::Calendar) };
    assert!(plan(&[r], &[], day(2026, 7, 1)).is_err());
}

#[test]
fn generate_rejects_duplicate_keys() {
    let a = Rule { title: "a".into(), every_days: Some(3), ..bare_rule(Trigger::AfterCompletion) };
    let b = Rule { title: "b".into(), every_days: Some(5), ..bare_rule(Trigger::AfterCompletion) };
    assert!(plan(&[a, b], &[], day(2026, 7, 1)).is_err());
}

#[test]
fn decide_after_completion_missing_every_days_errors() {
    assert_eq!(decide(&bare_rule(Trigger::AfterCompletion), &[], day(2026, 7, 1)), Err(DecideError::Missing(RuleField::EveryDays)));
}

#[test]
fn decide_calendar_missing_annual_errors() {
    let mut r = bare_rule(Trigger::Calendar);
    r.lead_days = Some(10);
    assert!(decide(&r, &[], day(2026, 7, 1)).is_err());
}

#[test]
fn decide_calendar_missing_lead_days_errors() {
    let mut r = bare_rule(Trigger::Calendar);
    r.annual = Some("07-20".into());
    assert!(decide(&r, &[], day(2026, 7, 1)).is_err());
}

#[test]
fn decide_calendar_bad_annual_errors() {
    let mut r = bare_rule(Trigger::Calendar);
    r.annual = Some("not-a-date".into());
    r.lead_days = Some(10);
    assert!(decide(&r, &[], day(2026, 7, 1)).is_err());
}

#[test]
fn decide_monthly_missing_day_of_month_errors() {
    let mut r = bare_rule(Trigger::Monthly);
    r.lead_days = Some(7);
    assert!(decide(&r, &[], day(2026, 7, 1)).is_err());
}

#[test]
fn decide_monthly_missing_lead_days_errors() {
    let mut r = bare_rule(Trigger::Monthly);
    r.day_of_month = Some(12);
    assert!(decide(&r, &[], day(2026, 7, 1)).is_err());
}

#[test]
fn weekly_and_nth_weekday_rules_are_decided() {
    let weekly = Rule { key: "w".into(), day_of_week: Some("wed".into()), ..bare_rule(Trigger::Weekly) };
    assert_eq!(decide(&weekly, &[], day(2026, 7, 1)), Ok(Some("w:2026-W27".into())));
    assert_eq!(decide(&weekly, &[], day(2026, 6, 30)), Ok(None));
    let nth = Rule { key: "n".into(), day_of_week: Some("fri".into()), week: Some(Week::Keyword("last".into())), ..bare_rule(Trigger::NthWeekday) };
    assert_eq!(decide(&nth, &[], day(2026, 7, 31)), Ok(Some("n:2026-07".into())));
    assert_eq!(decide(&nth, &[], day(2026, 7, 30)), Ok(None));
}

#[test]
fn ids_count_up_from_the_highest_existing() {
    let prior = vec![existing(41, "completed", "other", None, None)];
    let r = plan(&[after(), monthly()], &prior, day(2026, 7, 6)).unwrap();
    assert_eq!(r.len(), 2);
    assert_eq!(r[0].id, "042");
    assert_eq!(r[1].id, "043");
    assert_eq!(r[1].created.filename, "043-top-up.md");
}
