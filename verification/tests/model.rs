use karamd::date::Date;
use karamd::taskmd::model::{split_frontmatter, Effort, ParseOutcome, Priority, Status, Task, TaskType, VerifyCheck};

fn day(y: i32, m: u32, d: u32) -> Date {
    Date::from_ymd(y, m, d).unwrap()
}

const FULL: &str = r#"---
id: "015"
title: "Implement user authentication"
status: in-progress
priority: high
effort: large
type: feature
phase: "v1.0"
dependencies: ["012", "013"]
parent: "012"
tags:
  - auth
  - security
owner: patrick
group: web
touches:
  - cli/graph
context:
  - "docs/api-design.md"
pr: ["https://example.com/pull/42"]
external_id: "PROJ-123"
created_at: 2026-02-08
custom_field: keep me
recurring: "checkin"
verify:
  - type: bash
    run: "cargo test"
    dir: "."
  - type: assert
    check: "Tokens expire"
  - type: mystery
    what: ever
---

# Implement User Authentication

Body text.
"#;

#[test]
fn enum_string_round_trips() {
    for s in Status::all() {
        assert_eq!(Status::parse(s.as_str()), Some(s));
    }
    for p in Priority::all() {
        assert_eq!(Priority::parse(p.as_str()), Some(p));
    }
    for e in Effort::all() {
        assert_eq!(Effort::parse(e.as_str()), Some(e));
    }
    for t in TaskType::all() {
        assert_eq!(TaskType::parse(t.as_str()), Some(t));
    }
    assert_eq!(Status::parse("done"), None);
}

#[test]
fn enum_ordering_for_comparisons() {
    assert!(Priority::Critical > Priority::High);
    assert!(Priority::High > Priority::Medium);
    assert!(Priority::Medium > Priority::Low);
    assert!(Effort::Large > Effort::Medium);
    assert!(Effort::Medium > Effort::Small);
}

#[test]
fn status_terminality() {
    assert!(Status::Completed.is_terminal());
    assert!(Status::Cancelled.is_terminal());
    assert!(!Status::Pending.is_terminal());
    assert!(!Status::InProgress.is_terminal());
    assert!(!Status::InReview.is_terminal());
    assert!(!Status::Blocked.is_terminal());
}

#[test]
fn split_frontmatter_edge_cases() {
    assert!(split_frontmatter("---\na: 1\n----\n").is_none());
    let (fm, body) = split_frontmatter("---\na: 1\n---").unwrap();
    assert_eq!(fm, "a: 1\n");
    assert_eq!(body, "");
    let (fm, body) = split_frontmatter("---\r\na: 1\r\n---\r\nbody").unwrap();
    assert_eq!(fm, "a: 1\r\n");
    assert_eq!(body, "body");
}

#[test]
fn parses_every_field() {
    let t = Task::parse_required(FULL).unwrap();
    assert_eq!(t.id(), "015");
    assert_eq!(t.title(), "Implement user authentication");
    assert_eq!(t.status(), Some(Status::InProgress));
    assert_eq!(t.priority(), Some(Priority::High));
    assert_eq!(t.effort(), Some(Effort::Large));
    assert_eq!(t.task_type(), Some(TaskType::Feature));
    assert_eq!(t.phase().as_deref(), Some("v1.0"));
    assert_eq!(t.dependencies(), vec!["012", "013"]);
    assert_eq!(t.parent().as_deref(), Some("012"));
    assert_eq!(t.tags(), vec!["auth", "security"]);
    assert_eq!(t.owner().as_deref(), Some("patrick"));
    assert_eq!(t.group().as_deref(), Some("web"));
    assert_eq!(t.touches(), vec!["cli/graph"]);
    assert_eq!(t.context(), vec!["docs/api-design.md"]);
    assert_eq!(t.pr(), vec!["https://example.com/pull/42"]);
    assert_eq!(t.external_id().as_deref(), Some("PROJ-123"));
    assert_eq!(t.created_at(), Some(day(2026, 2, 8)));
    assert_eq!(t.recurring().as_deref(), Some("checkin"));
    assert!(t.body.contains("# Implement User Authentication"));
}

#[test]
fn verify_checks_parse_typed_and_unknown() {
    let t = Task::parse_required(FULL).unwrap();
    assert_eq!(
        t.verify(),
        vec![
            VerifyCheck::Bash { run: "cargo test".into(), dir: Some(".".into()) },
            VerifyCheck::Assert { check: "Tokens expire".into() },
            VerifyCheck::Unknown { kind: Some("mystery".into()) },
        ]
    );
}

#[test]
fn verify_missing_or_malformed_entries() {
    let raw = "---\nid: \"1\"\ntitle: t\nverify:\n  - type: bash\n  - just-a-string\n---\n";
    let t = Task::parse_required(raw).unwrap();
    assert_eq!(
        t.verify(),
        vec![VerifyCheck::Unknown { kind: Some("bash".into()) }, VerifyCheck::Unknown { kind: None }]
    );
    let t2 = Task::parse_required("---\nid: \"1\"\ntitle: t\n---\n").unwrap();
    assert!(t2.verify().is_empty());
}

#[test]
fn round_trip_preserves_unknown_fields_and_order() {
    let t = Task::parse_required(FULL).unwrap();
    let out = t.to_markdown();
    let t2 = Task::parse_required(&out).unwrap();
    assert_eq!(t.keys(), t2.keys());
    assert_eq!(t2.get_str("custom_field").as_deref(), Some("keep me"));
    assert_eq!(t2.recurring().as_deref(), Some("checkin"));
    assert_eq!(t.body, t2.body);
    assert_eq!(out, t2.to_markdown());
}

#[test]
fn round_trip_keeps_numeric_looking_id_a_string() {
    let t = Task::parse_required("---\nid: \"001\"\ntitle: t\n---\n\nx\n").unwrap();
    let out = t.to_markdown();
    let t2 = Task::parse_required(&out).unwrap();
    assert_eq!(t2.id(), "001");
}

#[test]
fn unquoted_numeric_id_reads_as_string() {
    let t = Task::parse_required("---\nid: 42\ntitle: t\n---\n").unwrap();
    assert_eq!(t.id(), "42");
}

#[test]
fn crlf_content_parses_and_fields_survive() {
    let raw = "---\r\nid: \"007\"\r\ntitle: \"T\"\r\nstatus: completed\r\nrecurring: \"k\"\r\ncompleted_at: 2026-06-13\r\n---\r\n\r\n# T\r\n";
    let t = Task::parse_required(raw).unwrap();
    assert_eq!(t.id(), "007");
    assert_eq!(t.status(), Some(Status::Completed));
    assert_eq!(t.recurring().as_deref(), Some("k"));
    assert_eq!(t.completed_at(), Some(day(2026, 6, 13)));
    assert!(t.body.contains("# T\r\n"));
}

#[test]
fn created_alias_is_accepted() {
    let t = Task::parse_required("---\nid: \"1\"\ntitle: t\ncreated: 2026-01-02\n---\n").unwrap();
    assert_eq!(t.created_at(), Some(day(2026, 1, 2)));
    let t2 = Task::parse_required("---\nid: \"1\"\ntitle: t\ncreated_at: 2026-03-04\ncreated: 2026-01-02\n---\n").unwrap();
    assert_eq!(t2.created_at(), Some(day(2026, 3, 4)));
}

#[test]
fn no_frontmatter_is_not_a_task() {
    assert_eq!(Task::parse("# taskmd Specification\n"), ParseOutcome::NotATask);
    assert_eq!(Task::parse(""), ParseOutcome::NotATask);
}

#[test]
fn fenced_yaml_example_in_body_is_not_a_task() {
    let doc = "# Spec\n\n```yaml\n---\nid: \"001\"\ntitle: \"X\"\n---\n```\n";
    assert_eq!(Task::parse(doc), ParseOutcome::NotATask);
}

#[test]
fn unrelated_frontmatter_is_not_a_task() {
    let doc = "---\nlayout: post\ndate: 2026-01-01\n---\n\nHello\n";
    assert_eq!(Task::parse(doc), ParseOutcome::NotATask);
}

#[test]
fn frontmatter_rulers_are_not_a_task() {
    assert_eq!(Task::parse("---\njust prose\n---\n"), ParseOutcome::NotATask);
}

#[test]
fn unterminated_frontmatter_is_not_a_task() {
    assert_eq!(Task::parse("---\nid: \"1\"\ntitle: t\nno closing fence\n"), ParseOutcome::NotATask);
}

#[test]
fn missing_id_or_title_is_invalid() {
    let no_id = "---\ntitle: \"X\"\nstatus: pending\n---\n";
    assert!(matches!(Task::parse(no_id), ParseOutcome::Invalid(r) if r.contains("`id`")));
    let no_title = "---\nid: \"001\"\nstatus: pending\n---\n";
    assert!(matches!(Task::parse(no_title), ParseOutcome::Invalid(r) if r.contains("`title`")));
    let empty_id = "---\nid: \"\"\ntitle: \"X\"\n---\n";
    assert!(matches!(Task::parse(empty_id), ParseOutcome::Invalid(_)));
}

#[test]
fn malformed_yaml_with_fences_is_invalid() {
    let doc = "---\nid: \"1\"\ntitle: [unclosed\n---\n";
    assert!(matches!(Task::parse(doc), ParseOutcome::Invalid(r) if r.contains("malformed frontmatter")));
}

#[test]
fn parse_required_errors() {
    assert!(Task::parse_required("no fm").is_err());
    assert!(Task::parse_required("---\ntitle: only\n---\n").is_err());
    assert!(Task::parse_required(FULL).is_ok());
}

#[test]
fn new_task_has_canonical_frontmatter() {
    let t = Task::new("009", "Do the thing", day(2026, 7, 2));
    assert_eq!(t.id(), "009");
    assert_eq!(t.title(), "Do the thing");
    assert_eq!(t.effective_status(), Status::Pending);
    assert_eq!(t.created_at(), Some(day(2026, 7, 2)));
    let out = t.to_markdown();
    assert!(out.starts_with("---\n"));
    assert!(out.contains("id: '009'"), "got:\n{out}");
    assert!(out.contains("# Do the thing"));
    assert!(matches!(Task::parse(&out), ParseOutcome::Task(_)));
}

#[test]
fn effective_defaults() {
    let t = Task::parse_required("---\nid: \"1\"\ntitle: t\n---\n").unwrap();
    assert_eq!(t.status(), None);
    assert_eq!(t.effective_status(), Status::Pending);
    assert_eq!(t.priority(), None);
    assert_eq!(t.effective_priority(), Priority::Medium);
    assert_eq!(t.effort(), None);
    assert_eq!(t.task_type(), None);
    assert!(t.dependencies().is_empty());
    assert!(t.tags().is_empty());
    assert_eq!(t.group(), None);
    assert_eq!(t.owner(), None);
    assert_eq!(t.parent(), None);
    assert_eq!(t.created_at(), None);
}

#[test]
fn invalid_enum_values_read_as_none_but_raw_survives() {
    let t = Task::parse_required("---\nid: \"1\"\ntitle: t\nstatus: done\npriority: urgent\neffort: epic\ntype: story\n---\n").unwrap();
    assert_eq!(t.status(), None);
    assert_eq!(t.status_raw().as_deref(), Some("done"));
    assert_eq!(t.priority(), None);
    assert_eq!(t.priority_raw().as_deref(), Some("urgent"));
    assert_eq!(t.effort(), None);
    assert_eq!(t.effort_raw().as_deref(), Some("epic"));
    assert_eq!(t.task_type(), None);
    assert_eq!(t.task_type_raw().as_deref(), Some("story"));
}

#[test]
fn scalar_where_list_expected_reads_as_one_entry() {
    let t = Task::parse_required("---\nid: \"1\"\ntitle: t\ntags: solo\n---\n").unwrap();
    assert_eq!(t.tags(), vec!["solo"]);
}

#[test]
fn status_transitions_maintain_timestamps() {
    let mut t = Task::new("1", "t", day(2026, 7, 1));
    t.set_status(Status::Completed, day(2026, 7, 2));
    assert_eq!(t.completed_at(), Some(day(2026, 7, 2)));
    assert_eq!(t.cancelled_at(), None);
    t.set_status(Status::Completed, day(2026, 7, 9));
    assert_eq!(t.completed_at(), Some(day(2026, 7, 2)));
    t.set_status(Status::Pending, day(2026, 7, 3));
    assert_eq!(t.status(), Some(Status::Pending));
    assert_eq!(t.completed_at(), None);
    t.set_status(Status::Cancelled, day(2026, 7, 4));
    assert_eq!(t.cancelled_at(), Some(day(2026, 7, 4)));
    assert_eq!(t.completed_at(), None);
    t.set_status(Status::Cancelled, day(2026, 7, 8));
    assert_eq!(t.cancelled_at(), Some(day(2026, 7, 4)));
    t.set_status(Status::Completed, day(2026, 7, 5));
    assert_eq!(t.completed_at(), Some(day(2026, 7, 5)));
    assert_eq!(t.cancelled_at(), None);
    t.set_status(Status::InProgress, day(2026, 7, 6));
    assert_eq!(t.completed_at(), None);
    assert_eq!(t.cancelled_at(), None);
}

#[test]
fn typed_mutators_write_through() {
    let mut t = Task::new("1", "old", day(2026, 7, 1));
    t.set_title("new title");
    t.set_priority(Priority::Critical);
    t.set_effort(Effort::Small);
    t.set_task_type(TaskType::Bug);
    t.set_phase(Some("v1"));
    t.set_owner(Some("patrick"));
    t.set_parent(Some("045"));
    t.set_tags(&["a".into(), "b".into()]);
    t.set_dependencies(&["002".into()]);
    t.add_pr("https://x/1");
    t.add_pr("https://x/1");
    t.add_pr("https://x/2");
    let out = t.to_markdown();
    let t2 = Task::parse_required(&out).unwrap();
    assert_eq!(t2.title(), "new title");
    assert_eq!(t2.priority(), Some(Priority::Critical));
    assert_eq!(t2.effort(), Some(Effort::Small));
    assert_eq!(t2.task_type(), Some(TaskType::Bug));
    assert_eq!(t2.phase().as_deref(), Some("v1"));
    assert_eq!(t2.owner().as_deref(), Some("patrick"));
    assert_eq!(t2.parent().as_deref(), Some("045"));
    assert_eq!(t2.tags(), vec!["a", "b"]);
    assert_eq!(t2.dependencies(), vec!["002"]);
    assert_eq!(t2.pr(), vec!["https://x/1", "https://x/2"]);
    t.set_phase(None);
    t.set_owner(None);
    t.set_parent(None);
    let out = t.to_markdown();
    assert!(!out.contains("phase:"));
    assert!(!out.contains("owner:"));
    assert!(!out.contains("parent:"));
}

#[test]
fn due_accessors_and_setter_round_trip() {
    let mut t = Task::new("1", "t", day(2026, 7, 1));
    assert_eq!(t.due_raw(), None);
    assert_eq!(t.due(), None);
    t.set_due(Some("2026-08-01"));
    let t2 = Task::parse_required(&t.to_markdown()).unwrap();
    assert_eq!(t2.due_raw().as_deref(), Some("2026-08-01"));
    assert_eq!(t2.due(), Some(day(2026, 8, 1)));
    t.set_due(Some("not-a-date"));
    assert_eq!(t.due_raw().as_deref(), Some("not-a-date"));
    assert_eq!(t.due(), None);
    t.set_due(None);
    assert!(!t.to_markdown().contains("due:"));
}

#[test]
fn set_body_normalizes_whitespace() {
    let mut t = Task::new("1", "t", day(2026, 7, 1));
    t.set_body("\n\n# Heading\n\ncontent\n\n\n");
    assert_eq!(t.body, "\n# Heading\n\ncontent\n");
    t.set_body("   ");
    assert_eq!(t.body, "\n");
    assert!(t.to_markdown().ends_with("---\n\n"));
}

#[test]
fn value_str_coercions() {
    let t = Task::parse_required("---\nid: \"1\"\ntitle: t\nflag: true\nnothing: ~\ntags: [1, 2]\n---\n").unwrap();
    assert_eq!(t.get_str("flag").as_deref(), Some("true"));
    assert_eq!(t.get_str("nothing"), None);
    assert_eq!(t.tags(), vec!["1", "2"]);
}

#[test]
fn get_and_keys_expose_the_doc() {
    let t = Task::parse_required("---\nid: \"1\"\ntitle: t\nweird: [1]\n---\n").unwrap();
    assert!(t.get("weird").is_some());
    assert!(t.get("absent").is_none());
    assert_eq!(t.keys(), vec!["id", "title", "weird"]);
}

#[test]
fn removing_a_key_moves_the_last_into_its_place() {
    let mut t = Task::parse_required("---\nid: \"1\"\ntitle: t\nphase: p\nowner: o\n---\n").unwrap();
    t.set_phase(None);
    assert_eq!(t.keys(), vec!["id", "title", "owner"]);
    t.remove("id");
    assert_eq!(t.keys(), vec!["owner", "title"]);
}

#[test]
fn try_to_markdown_matches_to_markdown() {
    let t = Task::new("5", "Five", day(2026, 1, 5));
    assert_eq!(t.try_to_markdown(), Some(t.to_markdown()));
}
