use karamd::date::Date;
use karamd::taskmd::template::{apply, resolve, Template};
use karamd::taskmd::{Priority, Task, TaskType};

fn day(y: i32, m: u32, d: u32) -> Date {
    Date::from_ymd(y, m, d).unwrap()
}

#[test]
fn builtins_match_taskmd() {
    let feature = resolve(None, "feature").unwrap();
    assert_eq!(feature.priority, Some(Priority::Medium));
    assert_eq!(feature.task_type, Some(TaskType::Feature));
    assert!(feature.body.starts_with("## Objective"));
    assert!(feature.body.ends_with("- TODO"));

    let bug = resolve(None, "bug").unwrap();
    assert_eq!(bug.priority, Some(Priority::High));
    assert_eq!(bug.task_type, Some(TaskType::Bug));
    assert!(bug.body.starts_with("## Steps to Reproduce"));
    assert!(bug.body.ends_with("- Version:"));

    let chore = resolve(None, "chore").unwrap();
    assert_eq!(chore.priority, Some(Priority::Low));
    assert_eq!(chore.task_type, Some(TaskType::Chore));
    assert!(chore.body.starts_with("## Description"));
}

#[test]
fn unknown_template_errors() {
    let err = resolve(None, "epic").unwrap_err();
    assert!(err.message().contains("unknown template `epic`"));
}

#[test]
fn custom_template_overrides_builtin() {
    let raw = "---\npriority: critical\ntype: bug\n---\n\n## Custom repro\n\n- TODO\n";
    let t = resolve(Some(raw), "bug").unwrap();
    assert_eq!(t.priority, Some(Priority::Critical));
    assert_eq!(t.task_type, Some(TaskType::Bug));
    assert_eq!(t.body, "## Custom repro\n\n- TODO");
}

#[test]
fn custom_template_without_frontmatter_is_all_body() {
    let t = resolve(Some("just a body\n"), "plain").unwrap();
    assert_eq!(t.priority, None);
    assert_eq!(t.task_type, None);
    assert_eq!(t.body, "just a body");
}

#[test]
fn custom_template_with_bad_frontmatter_still_yields_body() {
    let t = resolve(Some("---\n: : bad\n---\n\nbody text\n"), "odd").unwrap();
    assert_eq!(t.priority, None);
    assert_eq!(t.body, "body text");
}

#[test]
fn apply_sets_defaults_and_body() {
    let mut task = Task::new("001", "T", day(2026, 7, 2));
    let t = resolve(None, "bug").unwrap();
    apply(&t, &mut task);
    assert_eq!(task.priority(), Some(Priority::High));
    assert_eq!(task.task_type(), Some(TaskType::Bug));
    assert!(task.body.contains("## Steps to Reproduce"));
    // Explicit values set after apply win.
    task.set_priority(Priority::Low);
    assert_eq!(task.priority(), Some(Priority::Low));
}

#[test]
fn apply_without_defaults_changes_only_body() {
    let mut task = Task::new("001", "T", day(2026, 7, 2));
    let t = Template { priority: None, task_type: None, body: "b".into() };
    apply(&t, &mut task);
    assert_eq!(task.priority(), None);
    assert_eq!(task.task_type(), None);
    assert_eq!(task.body, "\nb\n");
}
