use karamd::date::Date;
use karamd::rule::{Rule, Trigger};
use karamd::task::{file_num_id, frontmatter_block, next_id, parse_task, render_tags, render_task, slugify, yaml_quote, ExistingTask, Frontmatter};

fn day(y: i32, m: u32, d: u32) -> Date {
    Date::from_ymd(y, m, d).unwrap()
}

fn rule() -> Rule {
    Rule {
        key: "periodic-checkin".into(),
        title: "Reach out to [[Someone]]".into(),
        trigger: Trigger::AfterCompletion,
        every_days: Some(18),
        annual: None,
        day_of_month: None,
        day_of_week: None,
        week: None,
        lead_days: None,
        phase: Some("next".into()),
        priority: Some("high".into()),
        tags: vec!["personal".into(), "work".into()],
        body: None,
    }
}

fn fm(status: Option<&str>, recurring: Option<&str>, completed: Option<&str>, cancelled: Option<&str>, created: Option<&str>) -> Option<Frontmatter> {
    Some(Frontmatter {
        status: status.map(String::from),
        recurring: recurring.map(String::from),
        completed_at: completed.map(String::from),
        cancelled_at: cancelled.map(String::from),
        created_at: created.map(String::from),
    })
}

#[test]
fn slugify_matches_taskmd() {
    assert_eq!(slugify("Reach out to [[Someone]]"), "reach-out-to-someone");
    assert_eq!(slugify("Monatszusammenfassung prüfen: [[2026-06 June]]"), "monatszusammenfassung-pr-fen-2026-06-june");
}

#[test]
fn yaml_quote_escapes() {
    assert_eq!(yaml_quote(r#"a"b\c"#), r#""a\"b\\c""#);
}

#[test]
fn next_id_from_empty_is_one() {
    assert_eq!(next_id(&[]), 1);
}

#[test]
fn next_id_is_one_past_max() {
    let tasks = vec![
        ExistingTask { num_id: 1, status: "pending".into(), ..Default::default() },
        ExistingTask { num_id: 6, status: "completed".into(), ..Default::default() },
        ExistingTask { num_id: 3, status: "pending".into(), ..Default::default() },
    ];
    assert_eq!(next_id(&tasks), 7);
}

#[test]
fn is_open_terminal_statuses() {
    let mut t = ExistingTask { num_id: 1, status: "pending".into(), ..Default::default() };
    assert!(t.is_open());
    t.status = "in-progress".into();
    assert!(t.is_open());
    t.status = "completed".into();
    assert!(!t.is_open());
    t.status = "cancelled".into();
    assert!(!t.is_open());
}

#[test]
fn parse_task_reads_fields() {
    let content = "---\nid: \"007\"\nstatus: completed\nrecurring: \"periodic-checkin\"\ncompleted_at: 2026-06-13\n---\n\n# body\n";
    assert_eq!(frontmatter_block(content), Some("id: \"007\"\nstatus: completed\nrecurring: \"periodic-checkin\"\ncompleted_at: 2026-06-13"));
    let t = parse_task(7, fm(Some("completed"), Some("periodic-checkin"), Some("2026-06-13"), None, None));
    assert_eq!(t.status, "completed");
    assert_eq!(t.recurring.as_deref(), Some("periodic-checkin"));
    assert_eq!(t.completed_at, Date::from_ymd(2026, 6, 13));
}

#[test]
fn parse_task_quoted_completed_at() {
    assert_eq!(parse_task(1, fm(Some("completed"), None, Some("\"2026-06-13\""), None, None)).completed_at, Date::from_ymd(2026, 6, 13));
}

#[test]
fn parse_task_without_frontmatter_is_empty() {
    assert_eq!(frontmatter_block("no frontmatter here"), None);
    let t = parse_task(9, None);
    assert_eq!(t.num_id, 9);
    assert_eq!(t.status, "");
    assert_eq!(t.recurring, None);
    assert_eq!(t.completed_at, None);
}

#[test]
fn parse_task_unterminated_frontmatter_is_empty() {
    assert_eq!(frontmatter_block("---\nstatus: pending\nno closing fence\n"), None);
    assert_eq!(parse_task(3, None).status, "");
}

#[test]
fn parse_task_bad_completed_at_is_none() {
    assert_eq!(parse_task(1, fm(Some("completed"), None, Some("not-a-date"), None, None)).completed_at, None);
}

#[test]
fn parse_task_crlf_frontmatter_survives() {
    let content = "---\r\nid: \"007\"\r\nstatus: completed\r\nrecurring: \"checkin\"\r\ncompleted_at: 2026-06-13\r\n---\r\n\r\n# body\r\n";
    assert_eq!(frontmatter_block(content), Some("id: \"007\"\r\nstatus: completed\r\nrecurring: \"checkin\"\r\ncompleted_at: 2026-06-13\r"));
    let t = parse_task(7, fm(Some("completed"), Some("checkin"), Some("2026-06-13\r"), None, None));
    assert_eq!(t.status, "completed");
    assert_eq!(t.recurring.as_deref(), Some("checkin"));
    assert_eq!(t.completed_at, Date::from_ymd(2026, 6, 13));
}

#[test]
fn parse_task_reads_cancelled_and_created() {
    let t = parse_task(1, fm(Some("cancelled"), None, None, Some("2026-06-10"), Some("2026-05-01")));
    assert_eq!(t.cancelled_at, Date::from_ymd(2026, 6, 10));
    assert_eq!(t.created_at, Date::from_ymd(2026, 5, 1));
}

#[test]
fn parse_task_unparseable_frontmatter_falls_back() {
    assert_eq!(frontmatter_block("---\n: : bad\n---\n"), Some(": : bad"));
    assert_eq!(parse_task(2, None).status, "");
}

#[test]
fn occurrence_date_prefers_completed_then_cancelled_then_created() {
    let base = ExistingTask { created_at: Date::from_ymd(2026, 1, 1), ..Default::default() };
    assert_eq!(base.occurrence_date(), Date::from_ymd(2026, 1, 1));
    let cancelled = ExistingTask { cancelled_at: Date::from_ymd(2026, 2, 2), ..base.clone() };
    assert_eq!(cancelled.occurrence_date(), Date::from_ymd(2026, 2, 2));
    let completed = ExistingTask { completed_at: Date::from_ymd(2026, 3, 3), ..cancelled };
    assert_eq!(completed.occurrence_date(), Date::from_ymd(2026, 3, 3));
    assert_eq!(ExistingTask::default().occurrence_date(), None);
}

#[test]
fn task_file_names_carry_numeric_ids() {
    assert_eq!(file_num_id("001-a.md"), Some(1));
    assert_eq!(file_num_id("42.md"), None);
    assert_eq!(file_num_id("42-.md"), Some(42));
    assert_eq!(file_num_id("notes.txt"), None);
    assert_eq!(file_num_id("no-number.md"), None);
    assert_eq!(file_num_id("007-x.txt"), None);
}

#[test]
fn render_task_has_frontmatter_and_marker() {
    let out = render_task(&rule(), "007", "periodic-checkin", day(2026, 7, 1));
    assert!(out.starts_with("---\n"));
    assert!(out.contains("id: \"007\""));
    assert!(out.contains("title: \"Reach out to [[Someone]]\""));
    assert!(out.contains("status: pending"));
    assert!(out.contains("priority: high"));
    assert!(out.contains("phase: next"));
    assert!(out.contains("dependencies: []"));
    assert!(out.contains("tags: [\"personal\", \"work\"]"));
    assert!(out.contains("created_at: 2026-07-01"));
    assert!(out.contains("recurring: \"periodic-checkin\""));
    assert!(out.contains("# Reach out to [[Someone]]"));
}

#[test]
fn render_task_defaults_priority_and_omits_phase() {
    let mut r = rule();
    r.priority = None;
    r.phase = None;
    r.tags = vec![];
    let out = render_task(&r, "001", "k:2026", day(2026, 7, 1));
    assert!(out.contains("priority: medium"));
    assert!(!out.contains("phase:"));
    assert!(out.contains("tags: []"));
    assert!(out.contains("recurring: \"k:2026\""));
}

#[test]
fn render_task_stub_has_provenance() {
    let out = render_task(&rule(), "007", "periodic-checkin", day(2026, 7, 1));
    assert!(out.contains("<!-- Generated by karamd for recurring rule `periodic-checkin`. -->"));
    assert!(out.contains("- [ ] TODO"));
}

#[test]
fn render_task_with_body_replaces_stub() {
    let mut r = rule();
    r.body = Some("\n\n## Objective\n\nCall the dentist.\n\n".into());
    let out = render_task(&r, "007", "periodic-checkin", day(2026, 7, 1));
    assert!(out.contains("-->\n\n## Objective"));
    assert!(out.starts_with("---\n"));
    assert!(out.contains("recurring: \"periodic-checkin\""));
    assert!(out.contains("# Reach out to [[Someone]]"));
    assert!(out.contains("<!-- Generated by karamd for recurring rule `periodic-checkin`. -->"));
    assert!(out.contains("Call the dentist."));
    assert!(!out.contains("TODO"));
    assert!(out.ends_with("Call the dentist.\n"));
    assert!(!out.ends_with("\n\n"));
}

#[test]
fn render_tags_quotes_each() {
    assert_eq!(render_tags(&[]), "[]");
    assert_eq!(render_tags(&["a\"b".to_string()]), "[\"a\\\"b\"]");
    assert_eq!(render_tags(&["x".to_string(), "y".to_string(), "z".to_string()]), "[\"x\", \"y\", \"z\"]");
}

#[test]
fn render_task_exact_stub_layout() {
    let mut r = rule();
    r.phase = None;
    r.tags = vec!["t".into()];
    let out = render_task(&r, "002", "m", day(2026, 1, 9));
    assert_eq!(
        out,
        "---\nid: \"002\"\ntitle: \"Reach out to [[Someone]]\"\nstatus: pending\npriority: high\ndependencies: []\ntags: [\"t\"]\ncreated_at: 2026-01-09\nrecurring: \"m\"\n---\n\n# Reach out to [[Someone]]\n\n## Objective\n\n<!-- Generated by karamd for recurring rule `periodic-checkin`. -->\n\n## Tasks\n\n- [ ] TODO\n\n## Acceptance Criteria\n\n- TODO\n"
    );
}

#[test]
fn slug_is_well_formed_and_slugifies_to_itself() {
    for title in ["  Hello,  World!! ", "ÄBC--déf", "--x--", "Straße 42", "ǅungla"] {
        let s = slugify(title);
        assert!(s.chars().all(|c| c.is_ascii_lowercase() || c.is_ascii_digit() || c == '-'));
        assert!(!s.starts_with('-') && !s.ends_with('-') && !s.contains("--"));
        assert_eq!(slugify(&s), s);
    }
}
