use karamd::taskmd::config::{Config, Phase, Scope};
use karamd::taskmd::store::{classify_file, FileScan, Scan};
use karamd::validate::{render_human, validate, Report, Severity};

/// What a scan of these `tasks/` files finds, in path order.
fn scan_of(files: &[(&str, &str)]) -> Scan {
    let mut sorted: Vec<(&str, &str)> = files.to_vec();
    sorted.sort_by(|a, b| a.0.cmp(b.0));
    let mut scan = Scan::default();
    for (rel, content) in sorted {
        match classify_file(rel, content) {
            FileScan::Task(t) => scan.tasks.push(t),
            FileScan::Invalid(f) => scan.invalid.push(f),
            FileScan::Skipped => {}
        }
    }
    scan
}

fn run(files: &[(&str, &str)]) -> Report {
    validate(&Config::default(), &scan_of(files))
}

fn configured() -> Config {
    let mut c = Config::default();
    c.phases = vec![Phase {
        id: Some("v1".to_string()),
        name: "V1".to_string(),
        description: None,
        due: None,
    }];
    c.scopes = vec![(
        "cli/core".to_string(),
        Scope {
            description: None,
            paths: vec![],
        },
    )];
    c
}

fn messages(report: &Report, severity: Severity) -> Vec<String> {
    report
        .findings
        .iter()
        .filter(|f| f.severity == severity)
        .map(|f| f.message.clone())
        .collect()
}

#[test]
fn clean_vault_reports_nothing() {
    let r = run(&[(
        "001-a.md",
        "---\nid: \"001\"\ntitle: A\nstatus: pending\ncreated_at: 2026-07-01\n---\n",
    )]);
    assert_eq!(r.checked, 1);
    assert!(r.findings.is_empty());
    assert_eq!(r.exit_code(false), 0);
    assert_eq!(r.exit_code(true), 0);
}

#[test]
fn broken_files_are_errors() {
    let r = run(&[
        ("001-a.md", "---\nid: \"001\"\nstatus: pending\n---\n"),
        ("002-b.md", "---\nid: \"002\"\ntitle: [unclosed\n---\n"),
    ]);
    assert_eq!(r.errors(), 2);
    assert_eq!(r.checked, 0);
    assert_eq!(r.exit_code(false), 1);
}

#[test]
fn invalid_enums_are_errors() {
    let r = run(&[(
        "001-a.md",
        "---\nid: \"001\"\ntitle: A\nstatus: done\npriority: urgent\neffort: epic\ntype: story\ncreated_at: 2026-07-01\n---\n",
    )]);
    let errs = messages(&r, Severity::Error);
    assert_eq!(errs.len(), 4);
    assert!(errs[0].contains("invalid status `done`"));
    assert!(errs[1].contains("invalid priority `urgent`"));
    assert!(errs[2].contains("invalid effort `epic`"));
    assert!(errs[3].contains("invalid type `story`"));
}

#[test]
fn invalid_due_is_an_error() {
    let r = run(&[
        (
            "001-a.md",
            "---\nid: \"001\"\ntitle: A\ndue: someday\ncreated_at: 2026-07-01\n---\n",
        ),
        (
            "002-b.md",
            "---\nid: \"002\"\ntitle: B\ndue: 2026-08-01\ncreated_at: 2026-07-01\n---\n",
        ),
    ]);
    let errs = messages(&r, Severity::Error);
    assert!(errs.iter().any(|m| m.contains("invalid due `someday`")));
    assert!(!errs.iter().any(|m| m.contains("invalid due `2026-08-01`")));
}

#[test]
fn duplicate_ids_are_errors() {
    let r = run(&[
        ("001-a.md", "---\nid: \"001\"\ntitle: A\ncreated_at: 2026-07-01\n---\n"),
        ("001-b.md", "---\nid: \"001\"\ntitle: B\ncreated_at: 2026-07-01\n---\n"),
        ("002-c.md", "---\nid: \"002\"\ntitle: C\ncreated_at: 2026-07-01\n---\n"),
        ("002-d.md", "---\nid: \"002\"\ntitle: D\ncreated_at: 2026-07-01\n---\n"),
    ]);
    let errs = messages(&r, Severity::Error);
    assert_eq!(errs.len(), 2);
    assert!(errs[0].contains("duplicate id"));
    assert!(errs[0].contains("001-a.md"));
    assert!(errs[0].contains("001-b.md"));
    assert!(errs[1].contains("002-c.md"));
}

#[test]
fn reference_defects_are_errors() {
    let r = run(&[
        (
            "001-a.md",
            "---\nid: \"001\"\ntitle: A\ndependencies: [\"404\"]\nparent: \"001\"\ncreated_at: 2026-07-01\n---\n",
        ),
        (
            "002-b.md",
            "---\nid: \"002\"\ntitle: B\ndependencies: [\"003\"]\ncreated_at: 2026-07-01\n---\n",
        ),
        (
            "003-c.md",
            "---\nid: \"003\"\ntitle: C\ndependencies: [\"002\"]\nparent: \"404\"\ncreated_at: 2026-07-01\n---\n",
        ),
    ]);
    let errs = messages(&r, Severity::Error);
    assert!(errs.iter().any(|m| m.contains("dependency `404` does not exist")));
    assert!(errs.iter().any(|m| m.contains("dependency cycle: 002 -> 003")));
    assert!(errs.iter().any(|m| m.contains("task is its own parent")));
    assert!(errs.iter().any(|m| m.contains("parent `404` does not exist")));
}

#[test]
fn parent_cycle_is_an_error() {
    let r = run(&[
        (
            "001-a.md",
            "---\nid: \"001\"\ntitle: A\nparent: \"002\"\ncreated_at: 2026-07-01\n---\n",
        ),
        (
            "002-b.md",
            "---\nid: \"002\"\ntitle: B\nparent: \"001\"\ncreated_at: 2026-07-01\n---\n",
        ),
    ]);
    assert!(messages(&r, Severity::Error)
        .iter()
        .any(|m| m.contains("parent cycle")));
}

#[test]
fn unconfigured_phase_and_scope_warn_only_when_configured() {
    let files = [(
        "001-a.md",
        "---\nid: \"001\"\ntitle: A\nphase: ghost\ntouches: [x/y]\ncreated_at: 2026-07-01\n---\n",
    )];
    let r = run(&files);
    assert!(r.findings.is_empty());

    let r = validate(&configured(), &scan_of(&files));
    let warns = messages(&r, Severity::Warning);
    assert_eq!(r.errors(), 0);
    assert!(warns.iter().any(|m| m.contains("phase `ghost`")));
    assert!(warns.iter().any(|m| m.contains("unknown scope `x/y`")));
    assert_eq!(r.exit_code(false), 0);
    assert_eq!(r.exit_code(true), 2);
}

#[test]
fn configured_phase_and_scope_do_not_warn() {
    let files = [(
        "001-a.md",
        "---\nid: \"001\"\ntitle: A\nphase: v1\ntouches: [cli/core]\ncreated_at: 2026-07-01\n---\n",
    )];
    assert!(validate(&configured(), &scan_of(&files)).findings.is_empty());
}

#[test]
fn missing_created_at_and_bad_filename_warn() {
    let r = run(&[("999-wrong.md", "---\nid: \"001\"\ntitle: A\n---\n")]);
    let warns = messages(&r, Severity::Warning);
    assert!(warns.iter().any(|m| m.contains("missing created_at")));
    assert!(warns
        .iter()
        .any(|m| m.contains("`999-wrong.md` does not follow `001-<slug>.md`")));
}

#[test]
fn non_task_files_are_never_flagged() {
    let r = run(&[
        ("README.md", "# docs, no frontmatter\n"),
        (
            "NOTES.md",
            "# Notes\n\n```yaml\n---\nid: \"9\"\ntitle: X\n---\n```\n",
        ),
        ("001-a.md", "---\nid: \"001\"\ntitle: A\ncreated_at: 2026-07-01\n---\n"),
    ]);
    assert_eq!(r.checked, 1);
    assert!(r.findings.is_empty());
}

#[test]
fn human_rendering_formats_findings() {
    let r = run(&[
        ("001-a.md", "---\nid: \"001\"\ntitle: A\nstatus: done\n---\n"),
        ("002-b.md", "---\nid: \"002\"\nstatus: pending\n---\n"),
    ]);
    let out = render_human(&r);
    assert!(out.contains("error: 002-b.md: missing required field `title`"));
    assert!(out.contains("error: 001-a.md (task 001): invalid status `done`"));
    assert!(out.contains("warning: 001-a.md (task 001): missing created_at"));
    assert!(out.contains("1 task(s) checked:"));
    assert!(out.contains("error(s)"));
}

#[test]
fn human_rendering_task_without_file() {
    let r = run(&[
        ("001-a.md", "---\nid: \"001\"\ntitle: A\ncreated_at: 2026-07-01\n---\n"),
        ("001-b.md", "---\nid: \"001\"\ntitle: B\ncreated_at: 2026-07-01\n---\n"),
    ]);
    let out = render_human(&r);
    assert!(out.contains("error: task 001: duplicate id"));
}

#[test]
fn summary_line_counts_exactly() {
    let r = run(&[("001-a.md", "---\nid: \"001\"\ntitle: A\nstatus: done\n---\n")]);
    let out = render_human(&r);
    assert!(out.ends_with("1 task(s) checked: 1 error(s), 1 warning(s)"), "{out}");
}

#[test]
fn findings_come_in_fixed_section_order() {
    // Broken file first, then per-task checks, then duplicates, then graph.
    let r = run(&[
        ("000-x.md", "---\nid: \"000\"\n---\n"),
        (
            "001-a.md",
            "---\nid: \"001\"\ntitle: A\nstatus: done\ndependencies: [\"404\"]\ncreated_at: 2026-07-01\n---\n",
        ),
        ("001-b.md", "---\nid: \"001\"\ntitle: B\ncreated_at: 2026-07-01\n---\n"),
    ]);
    let msgs: Vec<&str> = r.findings.iter().map(|f| f.message.as_str()).collect();
    assert_eq!(msgs.len(), 4, "{msgs:?}");
    assert!(msgs[0].contains("missing required field `title`"));
    assert!(msgs[1].contains("invalid status `done`"));
    assert!(msgs[2].contains("duplicate id in 001-a.md, 001-b.md"));
    assert!(msgs[3].contains("dependency `404` does not exist"));
}
