use karamd::rule::{validate_all, Rule, RuleError, Trigger, Week};

fn rule(key: &str, title: &str, trigger: Trigger) -> Rule {
    Rule {
        key: key.to_string(),
        title: title.to_string(),
        trigger,
        every_days: None,
        annual: None,
        day_of_month: None,
        day_of_week: None,
        week: None,
        lead_days: None,
        phase: None,
        priority: None,
        tags: Vec::new(),
        body: None,
    }
}

/// The four rules of the sample rules file.
fn sample() -> Vec<Rule> {
    let mut a = rule("periodic-checkin", "Reach out to [[Someone]]", Trigger::AfterCompletion);
    a.every_days = Some(18);
    a.phase = Some("next".to_string());
    a.priority = Some("medium".to_string());
    a.tags = vec!["personal".to_string()];
    let mut b = rule("annual-birthday", "Birthday", Trigger::Calendar);
    b.annual = Some("07-20".to_string());
    b.lead_days = Some(10);
    b.priority = Some("high".to_string());
    let mut c = rule("monthly-topup", "Top up account", Trigger::Monthly);
    c.day_of_month = Some(12);
    c.lead_days = Some(7);
    let mut d = rule("linkedin-weekly", "Evaluate and schedule LinkedIn posts", Trigger::Weekly);
    d.day_of_week = Some("fri".to_string());
    vec![a, b, c, d]
}

fn err_text(r: &Rule) -> String {
    let e: RuleError = r.validate().unwrap_err();
    e.message()
}

#[test]
fn validate_accepts_complete_rules() {
    for rule in sample() {
        rule.validate().unwrap();
    }
}

#[test]
fn validate_rejects_after_completion_without_every_days() {
    let r = rule("k", "t", Trigger::AfterCompletion);
    assert!(err_text(&r).contains("every_days"));
}

#[test]
fn validate_rejects_calendar_without_annual() {
    let mut r = rule("k", "t", Trigger::Calendar);
    r.lead_days = Some(5);
    assert!(err_text(&r).contains("annual"));
}

#[test]
fn validate_rejects_calendar_without_lead_days() {
    let mut r = rule("k", "t", Trigger::Calendar);
    r.annual = Some("01-01".to_string());
    assert!(err_text(&r).contains("lead_days"));
}

#[test]
fn validate_rejects_malformed_annual() {
    let mut r = rule("k", "t", Trigger::Calendar);
    r.annual = Some("99-99".to_string());
    r.lead_days = Some(5);
    assert!(err_text(&r).contains("annual"));
}

#[test]
fn validate_rejects_monthly_without_day_of_month() {
    let mut r = rule("k", "t", Trigger::Monthly);
    r.lead_days = Some(7);
    assert!(err_text(&r).contains("day_of_month"));
}

#[test]
fn validate_rejects_monthly_without_lead_days() {
    let mut r = rule("k", "t", Trigger::Monthly);
    r.day_of_month = Some(12);
    assert!(err_text(&r).contains("lead_days"));
}

#[test]
fn validate_rejects_monthly_day_out_of_range() {
    for day in [0u32, 32] {
        let mut r = rule("k", "t", Trigger::Monthly);
        r.day_of_month = Some(day);
        r.lead_days = Some(7);
        assert!(err_text(&r).contains("day_of_month"));
    }
}

#[test]
fn validate_rejects_monthly_lead_out_of_range() {
    for lead in [-1i64, 28] {
        let mut r = rule("k", "t", Trigger::Monthly);
        r.day_of_month = Some(12);
        r.lead_days = Some(lead);
        assert!(err_text(&r).contains("lead_days"));
    }
}

#[test]
fn validate_accepts_monthly_bounds() {
    for (day, lead) in [(1u32, 0i64), (31, 27)] {
        let mut r = rule("k", "t", Trigger::Monthly);
        r.day_of_month = Some(day);
        r.lead_days = Some(lead);
        r.validate().unwrap();
    }
}

#[test]
fn validate_rejects_weekly_without_day_of_week() {
    let r = rule("k", "t", Trigger::Weekly);
    assert!(err_text(&r).contains("day_of_week"));
}

#[test]
fn validate_rejects_weekly_invalid_day_of_week() {
    for bad in ["friday", "Fri", "5", "xyz"] {
        let mut r = rule("k", "t", Trigger::Weekly);
        r.day_of_week = Some(bad.to_string());
        assert!(err_text(&r).contains("day_of_week"));
    }
}

#[test]
fn validate_accepts_weekly_all_weekdays() {
    for dow in ["mon", "tue", "wed", "thu", "fri", "sat", "sun"] {
        let mut r = rule("k", "t", Trigger::Weekly);
        r.day_of_week = Some(dow.to_string());
        r.validate().unwrap();
    }
}

#[test]
fn validate_rejects_foreign_trigger_fields() {
    fn with(trigger: Trigger, f: &dyn Fn(&mut Rule)) -> Rule {
        let mut r = rule("k", "t", trigger);
        f(&mut r);
        r
    }
    let cases: Vec<(Rule, &str)> = vec![
        (with(Trigger::AfterCompletion, &|r| { r.every_days = Some(3); r.annual = Some("01-01".into()); }), "annual"),
        (with(Trigger::AfterCompletion, &|r| { r.every_days = Some(3); r.day_of_month = Some(5); }), "day_of_month"),
        (with(Trigger::AfterCompletion, &|r| { r.every_days = Some(3); r.day_of_week = Some("fri".into()); }), "day_of_week"),
        (with(Trigger::AfterCompletion, &|r| { r.every_days = Some(3); r.lead_days = Some(2); }), "lead_days"),
        (with(Trigger::Calendar, &|r| { r.annual = Some("01-01".into()); r.lead_days = Some(2); r.every_days = Some(3); }), "every_days"),
        (with(Trigger::Calendar, &|r| { r.annual = Some("01-01".into()); r.lead_days = Some(2); r.day_of_week = Some("fri".into()); }), "day_of_week"),
        (with(Trigger::Monthly, &|r| { r.day_of_month = Some(5); r.lead_days = Some(2); r.annual = Some("01-01".into()); }), "annual"),
        (with(Trigger::Weekly, &|r| { r.day_of_week = Some("fri".into()); r.day_of_month = Some(5); }), "day_of_month"),
        (with(Trigger::Weekly, &|r| { r.day_of_week = Some("fri".into()); r.lead_days = Some(2); }), "lead_days"),
        (with(Trigger::Weekly, &|r| { r.day_of_week = Some("fri".into()); r.every_days = Some(3); }), "every_days"),
        (with(Trigger::Weekly, &|r| { r.day_of_week = Some("fri".into()); r.week = Some(Week::Nth(1)); }), "week"),
        (with(Trigger::NthWeekday, &|r| { r.day_of_week = Some("mon".into()); r.week = Some(Week::Nth(1)); r.day_of_month = Some(5); }), "day_of_month"),
        (with(Trigger::Monthly, &|r| { r.day_of_month = Some(5); r.lead_days = Some(2); r.week = Some(Week::Keyword("last".into())); }), "week"),
    ];
    for (r, field) in cases {
        let msg = err_text(&r);
        assert!(msg.contains(field), "expected `{field}` in: {msg}");
        assert!(msg.contains("is not valid for"), "wrong message: {msg}");
    }
}

#[test]
fn validate_still_accepts_rules_with_only_owned_fields() {
    validate_all(&sample()).unwrap();
}

#[test]
fn validate_rejects_nth_weekday_without_day_of_week() {
    let mut r = rule("k", "t", Trigger::NthWeekday);
    r.week = Some(Week::Nth(1));
    assert!(err_text(&r).contains("day_of_week"));
}

#[test]
fn validate_rejects_nth_weekday_invalid_day_of_week() {
    let mut r = rule("k", "t", Trigger::NthWeekday);
    r.day_of_week = Some("friday".to_string());
    r.week = Some(Week::Nth(1));
    assert!(err_text(&r).contains("day_of_week"));
}

#[test]
fn validate_rejects_nth_weekday_without_week() {
    let mut r = rule("k", "t", Trigger::NthWeekday);
    r.day_of_week = Some("mon".to_string());
    assert!(err_text(&r).contains("week"));
}

#[test]
fn validate_rejects_nth_weekday_out_of_range_week() {
    for w in [Week::Nth(0), Week::Nth(5), Week::Keyword("first".to_string())] {
        let mut r = rule("k", "t", Trigger::NthWeekday);
        r.day_of_week = Some("mon".to_string());
        r.week = Some(w.clone());
        assert!(err_text(&r).contains("week"), "for week={w:?}");
    }
}

#[test]
fn validate_accepts_nth_weekday_bounds() {
    for w in [Week::Nth(1), Week::Nth(4), Week::Keyword("last".to_string())] {
        let mut r = rule("k", "t", Trigger::NthWeekday);
        r.day_of_week = Some("mon".to_string());
        r.week = Some(w);
        r.validate().unwrap();
    }
}

#[test]
fn validate_accepts_leap_day_annual() {
    let mut r = rule("k", "t", Trigger::Calendar);
    r.annual = Some("02-29".to_string());
    r.lead_days = Some(5);
    r.validate().unwrap();
}

#[test]
fn validate_all_rejects_duplicate_keys() {
    let mut a = rule("dup", "a", Trigger::AfterCompletion);
    a.every_days = Some(3);
    let mut b = rule("dup", "b", Trigger::AfterCompletion);
    b.every_days = Some(5);
    let err = validate_all(&[a, b]).unwrap_err();
    assert!(err.message().contains("duplicate rule key `dup`"));
}

#[test]
fn validate_all_accepts_unique_valid_rules() {
    validate_all(&sample()).unwrap();
}

#[test]
fn validate_rejects_empty_body() {
    let mut r = rule("k", "t", Trigger::AfterCompletion);
    r.every_days = Some(3);
    r.body = Some("   ".to_string());
    assert!(err_text(&r).contains("body"));
}

#[test]
fn validate_accepts_non_empty_body() {
    let mut r = rule("k", "t", Trigger::AfterCompletion);
    r.every_days = Some(3);
    r.body = Some("real".to_string());
    r.validate().unwrap();
}

#[test]
fn rule_error_messages_are_exact() {
    let r = rule("k", "t", Trigger::AfterCompletion);
    assert_eq!(err_text(&r), "rule `k`: after_completion requires `every_days`");
    let mut m = rule("m", "t", Trigger::Monthly);
    m.day_of_month = Some(40);
    m.lead_days = Some(3);
    assert_eq!(err_text(&m), "rule `m`: `day_of_month` must be 1-31");
    let mut w = rule("w", "t", Trigger::Weekly);
    w.day_of_week = Some("fri".into());
    w.lead_days = Some(1);
    assert_eq!(err_text(&w), "rule `w`: `lead_days` is not valid for a weekly trigger");
}
