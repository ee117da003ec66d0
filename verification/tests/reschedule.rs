use karamd::date::Date;
use karamd::reschedule::{
    assess, decide, plan, PhaseMove, RescheduleConfig, RescheduleError, RescheduleRule, State, Window,
};
use karamd::taskmd::Task;

fn d(y: i32, m: u32, day: u32) -> Date {
    Date::from_ymd(y, m, day).unwrap()
}

fn rule(phase: &str, due: Option<Window>, min: Option<i64>, max: Option<i64>) -> RescheduleRule {
    RescheduleRule { phase: phase.into(), due, min_days: min, max_days: max }
}

fn task(frontmatter: &str) -> Task {
    Task::parse_required(&format!("---\n{frontmatter}---\n\n# t\n")).unwrap()
}

fn phases() -> Vec<String> {
    vec!["now".to_string(), "next".to_string(), "soon".to_string()]
}

#[test]
fn window_overdue_and_today() {
    let today = d(2026, 7, 15);
    assert!(Window::Overdue.contains(d(2026, 7, 14), today));
    assert!(!Window::Overdue.contains(today, today));
    assert!(Window::Today.contains(today, today));
    assert!(!Window::Today.contains(d(2026, 7, 16), today));
}

#[test]
fn window_this_and_next_week() {
    let today = d(2026, 7, 15);
    assert!(Window::ThisWeek.contains(d(2026, 7, 19), today));
    assert!(!Window::ThisWeek.contains(d(2026, 7, 20), today));
    assert!(Window::NextWeek.contains(d(2026, 7, 20), today));
    assert!(!Window::NextWeek.contains(d(2026, 7, 19), today));
    assert!(!Window::NextWeek.contains(d(2026, 7, 27), today));
}

#[test]
fn window_this_and_next_month() {
    let today = d(2026, 7, 15);
    assert!(Window::ThisMonth.contains(d(2026, 7, 1), today));
    assert!(!Window::ThisMonth.contains(d(2026, 8, 1), today));
    assert!(!Window::ThisMonth.contains(d(2025, 7, 1), today));
    assert!(Window::NextMonth.contains(d(2026, 8, 31), today));
    assert!(!Window::NextMonth.contains(d(2026, 9, 1), today));
}

#[test]
fn window_next_month_rolls_over_year() {
    let today = d(2026, 12, 15);
    assert!(Window::NextMonth.contains(d(2027, 1, 5), today));
    assert!(!Window::NextMonth.contains(d(2026, 12, 31), today));
}

#[test]
fn window_next_week_across_year_end() {
    // Wed 2026-12-30 is in ISO 2026-W53; the next week starts Mon 2027-01-04.
    let today = d(2026, 12, 30);
    assert!(Window::NextWeek.contains(d(2027, 1, 4), today));
    assert!(!Window::NextWeek.contains(d(2027, 1, 3), today));
    assert!(Window::ThisWeek.contains(d(2027, 1, 3), today));
}

#[test]
fn matches_named_window() {
    let r = rule("now", Some(Window::Today), None, None);
    assert!(r.matches(d(2026, 7, 15), d(2026, 7, 15)));
    assert!(!r.matches(d(2026, 7, 16), d(2026, 7, 15)));
}

#[test]
fn matches_numeric_ranges() {
    let today = d(2026, 7, 15);
    let both = rule("next", None, Some(1), Some(7));
    assert!(both.matches(d(2026, 7, 20), today));
    assert!(!both.matches(today, today));
    assert!(!both.matches(d(2026, 7, 23), today));
    let max = rule("now", None, None, Some(0));
    assert!(max.matches(d(2026, 7, 10), today));
    assert!(max.matches(today, today));
    assert!(!max.matches(d(2026, 7, 16), today));
    let min = rule("soon", None, Some(8), None);
    assert!(min.matches(d(2026, 7, 23), today));
    assert!(!min.matches(d(2026, 7, 20), today));
}

#[test]
fn decide_first_match_wins() {
    let today = d(2026, 7, 15);
    let rules = vec![
        rule("now", Some(Window::Today), None, None),
        rule("next", Some(Window::ThisWeek), None, None),
        rule("soon", Some(Window::NextWeek), None, None),
    ];
    assert_eq!(decide(today, today, &rules), Some("now"));
    assert_eq!(decide(d(2026, 7, 17), today, &rules), Some("next"));
    assert_eq!(decide(d(2026, 7, 21), today, &rules), Some("soon"));
    assert_eq!(decide(d(2026, 9, 1), today, &rules), None);
}

#[test]
fn validate_accepts_named_and_numeric() {
    rule("now", Some(Window::Today), None, None).validate(0, &phases()).unwrap();
    rule("next", None, Some(1), Some(7)).validate(0, &phases()).unwrap();
}

#[test]
fn validate_rejects_both_matchers() {
    let err = rule("now", Some(Window::Today), Some(0), None).validate(2, &phases()).unwrap_err();
    let msg = err.message();
    assert!(msg.contains("rule #3"), "{msg}");
    assert!(msg.contains("cannot combine"), "{msg}");
}

#[test]
fn validate_rejects_no_matcher() {
    let err = rule("now", None, None, None).validate(0, &phases()).unwrap_err();
    assert!(err.message().contains("needs a `due` window"));
}

#[test]
fn validate_rejects_inverted_range() {
    let err = rule("now", None, Some(5), Some(1)).validate(0, &phases()).unwrap_err();
    assert!(err.message().contains("must be <= `max_days`"));
    assert_eq!(err, RescheduleError::InvertedRange(1, 5, 1));
    assert_eq!(err.message(), "reschedule rule #1: `min_days` (5) must be <= `max_days` (1)");
}

#[test]
fn validate_rejects_empty_phase() {
    let err = rule("  ", Some(Window::Today), None, None).validate(0, &phases()).unwrap_err();
    assert!(err.message().contains("`phase` must not be empty"));
}

#[test]
fn validate_rejects_unknown_phase() {
    let err = rule("backlog", Some(Window::Today), None, None).validate(0, &phases()).unwrap_err();
    let msg = err.message();
    assert!(msg.contains("not a configured phase"), "{msg}");
    assert!(msg.contains("backlog"), "{msg}");
}

#[test]
fn config_validate_walks_all_rules() {
    let cfg = RescheduleConfig {
        enabled: true,
        rules: vec![rule("now", Some(Window::Today), None, None), rule("nope", Some(Window::ThisWeek), None, None)],
    };
    assert!(cfg.validate(&phases()).unwrap_err().message().contains("rule #2"));
}

fn mixed_tasks() -> Vec<Task> {
    vec![
        task("id: \"001\"\ntitle: a\nstatus: pending\nphase: later\ndue: 2026-07-15\n"),
        task("id: \"002\"\ntitle: b\nstatus: pending\ndue: 2026-07-15\n"),
        task("id: \"003\"\ntitle: c\nstatus: pending\nphase: now\ndue: 2026-07-15\n"),
        task("id: \"004\"\ntitle: d\nstatus: pending\nphase: later\n"),
        task("id: \"005\"\ntitle: e\nstatus: pending\ndue: 2026-09-01\n"),
        task("id: \"006\"\ntitle: f\nstatus: completed\ndue: 2026-07-15\n"),
    ]
}

#[test]
fn plan_moves_open_dated_tasks_and_skips_the_rest() {
    let today = d(2026, 7, 15);
    let rules = vec![rule("now", Some(Window::Today), None, None), rule("soon", Some(Window::NextWeek), None, None)];
    let moves = plan(&mixed_tasks(), &rules, today);
    assert_eq!(
        moves,
        vec![
            PhaseMove { id: "001".into(), from: Some("later".into()), to: "now".into() },
            PhaseMove { id: "002".into(), from: None, to: "now".into() },
        ]
    );
}

#[test]
fn plan_moves_both_directions() {
    let today = d(2026, 7, 15);
    let rules = vec![rule("soon", Some(Window::NextWeek), None, None)];
    let tasks = vec![task("id: \"001\"\ntitle: a\nstatus: pending\nphase: now\ndue: 2026-07-21\n")];
    let moves = plan(&tasks, &rules, today);
    assert_eq!(moves.len(), 1);
    assert_eq!(moves[0].to, "soon");
    assert_eq!(moves[0].from.as_deref(), Some("now"));
}

#[test]
fn assess_counts_considered_and_plans() {
    let today = d(2026, 7, 15);
    let cfg = RescheduleConfig {
        enabled: true,
        rules: vec![rule("now", Some(Window::Today), None, None), rule("soon", Some(Window::NextWeek), None, None)],
    };
    let report = assess(&cfg, &phases(), &mixed_tasks(), today).unwrap();
    assert_eq!(report.state, State::Ran);
    // Open and dated: 001, 002, 003, 005.
    assert_eq!(report.considered, 4);
    assert_eq!(report.moved.len(), 2);
    // Running again over the moved tasks is a no-op.
    let moved: Vec<Task> = vec![
        task("id: \"001\"\ntitle: a\nstatus: pending\nphase: now\ndue: 2026-07-15\n"),
        task("id: \"002\"\ntitle: b\nstatus: pending\nphase: now\ndue: 2026-07-15\n"),
    ];
    assert!(assess(&cfg, &phases(), &moved, today).unwrap().moved.is_empty());
}

#[test]
fn assess_disabled_config_is_no_op() {
    let cfg = RescheduleConfig { enabled: false, rules: vec![rule("nope", Some(Window::Today), None, None)] };
    let report = assess(&cfg, &phases(), &mixed_tasks(), d(2026, 7, 15)).unwrap();
    assert_eq!(report.state, State::Disabled);
    assert!(report.moved.is_empty());
    assert_eq!(report.considered, 0);
}

#[test]
fn assess_propagates_validation_error() {
    let cfg = RescheduleConfig { enabled: true, rules: vec![rule("nope", Some(Window::Today), None, None)] };
    let err = assess(&cfg, &phases(), &[], d(2026, 7, 15)).unwrap_err();
    assert!(err.message().contains("not a configured phase"));
}
