use karamd::date::Date;
use karamd::output::TaskView;
use karamd::query::parse;
use karamd::taskmd::config::Workflow;
use karamd::taskmd::graph::Graph;
use karamd::taskmd::store::{classify_file, find_unique, FileScan, FindError, Scan};
use karamd::taskmd::{Status, Task};
use karamd::verbs::{apply_edit, build_task, complete, create, edit, list, search, show, CreateSpec, EditSpec};

fn day(y: i32, m: u32, d: u32) -> Date {
    Date::from_ymd(y, m, d).unwrap()
}

fn scan_of(files: &[(&str, &str)]) -> Scan {
    let mut scan = Scan::default();
    for (rel, content) in files {
        match classify_file(rel, content) {
            FileScan::Task(t) => scan.tasks.push(t),
            FileScan::Invalid(f) => scan.invalid.push(f),
            FileScan::Skipped => {}
        }
    }
    scan
}

fn spec(title: &str) -> CreateSpec {
    CreateSpec { title: title.into(), ..CreateSpec::default() }
}

/// Create a task the way the command does: check, then fill a new task.
fn created(tasks: &[Task], s: &CreateSpec, id: &str, today: Date) -> TaskView {
    let plan = create(s, None, tasks).unwrap();
    let mut t = Task::new(id, s.title.trim(), today);
    build_task(&mut t, s, &plan);
    let mut all = tasks.to_vec();
    all.push(t.clone());
    let g = Graph::build(&all);
    TaskView::build(&t, &g, true)
}

fn view_in(tasks: &[Task], t: &Task) -> TaskView {
    let g = Graph::build(tasks);
    TaskView::build(t, &g, true)
}

#[test]
fn create_minimal_task() {
    let v = created(&[], &spec("Do the thing"), "001", day(2026, 7, 2));
    assert_eq!(v.id, "001");
    assert_eq!(v.status, "pending");
    assert_eq!(v.created_at.as_deref(), Some("2026-07-02"));
}

#[test]
fn create_full_task_with_flags() {
    let scan = scan_of(&[("001-dep.md", "---\nid: \"001\"\ntitle: Dep\nstatus: completed\n---\n")]);
    let s = CreateSpec {
        title: "Full".into(),
        priority: Some("critical".into()),
        effort: Some("small".into()),
        task_type: Some("bug".into()),
        phase: Some("v1".into()),
        tags: vec!["a".into(), "b".into()],
        dependencies: vec!["001".into()],
        template: None,
        body: Some("## My body\n\n- [ ] step".into()),
    };
    let v = created(&scan.tasks, &s, "002", day(2026, 7, 2));
    assert_eq!(v.id, "002");
    assert_eq!(v.priority, "critical");
    assert_eq!(v.effort.as_deref(), Some("small"));
    assert_eq!(v.task_type.as_deref(), Some("bug"));
    assert_eq!(v.phase.as_deref(), Some("v1"));
    assert_eq!(v.tags, vec!["a", "b"]);
    assert_eq!(v.dependencies, vec!["001"]);
    assert!(v.ready);
    assert!(v.body.as_deref().unwrap().contains("## My body"));
}

#[test]
fn create_with_template_and_overrides() {
    let s = CreateSpec {
        title: "Broken".into(),
        template: Some("bug".into()),
        priority: Some("low".into()),
        ..CreateSpec::default()
    };
    let v = created(&[], &s, "001", day(2026, 7, 2));
    assert_eq!(v.priority, "low");
    assert_eq!(v.task_type.as_deref(), Some("bug"));
    assert!(v.body.as_deref().unwrap().contains("## Steps to Reproduce"));
}

#[test]
fn create_uses_custom_template_text() {
    let s = CreateSpec { title: "X".into(), template: Some("mine".into()), ..CreateSpec::default() };
    let plan = create(&s, Some("---\npriority: high\n---\n\ncustom\n"), &[]).unwrap();
    let mut t = Task::new("001", "X", day(2026, 7, 2));
    build_task(&mut t, &s, &plan);
    assert_eq!(t.priority_raw().as_deref(), Some("high"));
    assert_eq!(t.body, "\ncustom\n");
}

#[test]
fn create_rejects_bad_inputs() {
    let cases: Vec<(CreateSpec, &str)> = vec![
        (spec("  "), "title"),
        (CreateSpec { priority: Some("urgent".into()), ..spec("X") }, "invalid priority"),
        (CreateSpec { effort: Some("epic".into()), ..spec("X") }, "invalid effort"),
        (CreateSpec { task_type: Some("story".into()), ..spec("X") }, "invalid type"),
        (CreateSpec { template: Some("nope".into()), ..spec("X") }, "unknown template"),
        (CreateSpec { dependencies: vec!["404".into()], ..spec("X") }, "dependency `404` does not exist"),
    ];
    for (s, needle) in cases {
        let err = create(&s, None, &[]).unwrap_err();
        let msg = err.message();
        assert!(msg.contains(needle), "expected `{needle}` in `{msg}`");
    }
}

fn three() -> Scan {
    scan_of(&[
        ("001-a.md", "---\nid: \"001\"\ntitle: A\nstatus: completed\npriority: high\n---\n"),
        ("002-b.md", "---\nid: \"002\"\ntitle: B\nstatus: pending\ndependencies: [\"001\"]\n---\n"),
        ("003-c.md", "---\nid: \"003\"\ntitle: C\nstatus: pending\ndependencies: [\"002\"]\n---\n"),
    ])
}

#[test]
fn list_all_and_filtered() {
    let scan = three();
    let (all, invalid) = list(&scan, None);
    assert_eq!(all.len(), 3);
    assert_eq!(invalid, 0);

    let q = parse("status:pending").unwrap();
    let (pending, _) = list(&scan, Some(&q));
    assert_eq!(pending.len(), 2);

    let q = parse("status:pending AND ready:true").unwrap();
    let (ready, _) = list(&scan, Some(&q));
    assert_eq!(ready.len(), 1);
    assert_eq!(ready[0].id, "002");
}

#[test]
fn list_counts_invalid_files() {
    let scan = scan_of(&[("001-broken.md", "---\nid: \"001\"\nstatus: pending\n---\n")]);
    let (views, invalid) = list(&scan, None);
    assert!(views.is_empty());
    assert_eq!(invalid, 1);
}

#[test]
fn list_bad_query_errors() {
    assert!(parse("bogus:x").is_err());
}

#[test]
fn search_matches_title_and_body() {
    let scan = scan_of(&[
        ("001-a.md", "---\nid: \"001\"\ntitle: Fix the Login\n---\n\n# Fix the Login\n\nnothing special\n"),
        ("002-b.md", "---\nid: \"002\"\ntitle: Unrelated\n---\n\n# Unrelated\n\nmentions login in the body\n"),
        ("003-c.md", "---\nid: \"003\"\ntitle: Nope\n---\n\n# Nope\n\nnope\n"),
    ]);
    let (hits, invalid) = search(&scan, "LOGIN");
    let ids: Vec<&str> = hits.iter().map(|v| v.id.as_str()).collect();
    assert_eq!(ids, vec!["001", "002"]);
    assert_eq!(invalid, 0);
    assert!(search(&scan, "zzz").0.is_empty());
}

#[test]
fn show_returns_body() {
    let scan = scan_of(&[("001-a.md", "---\nid: \"001\"\ntitle: A\n---\n\n# A\n\ndetails\n")]);
    let v = show(&scan, "001").unwrap();
    assert!(v.body.as_deref().unwrap().contains("details"));
    assert!(show(&scan, "404").is_err());
    assert_eq!(show(&scan, "404").unwrap_err().message(), "no task with id `404`");
}

#[test]
fn set_status_full_enum_with_timestamps() {
    let scan = scan_of(&[("001-a.md", "---\nid: \"001\"\ntitle: A\nstatus: pending\n---\n")]);
    let mut t = scan.tasks[0].clone();
    t.set_status(Status::InProgress, day(2026, 7, 2));
    assert_eq!(view_in(&[t.clone()], &t).status, "in-progress");
    t.set_status(Status::Blocked, day(2026, 7, 2));
    assert_eq!(view_in(&[t.clone()], &t).status, "blocked");
    t.set_status(Status::Cancelled, day(2026, 7, 3));
    let v = view_in(&[t.clone()], &t);
    assert_eq!(v.status, "cancelled");
    assert_eq!(v.cancelled_at.as_deref(), Some("2026-07-03"));
    t.set_status(Status::Pending, day(2026, 7, 4));
    let v = view_in(&[t.clone()], &t);
    assert_eq!(v.status, "pending");
    assert_eq!(v.cancelled_at, None);
}

#[test]
fn complete_solo_marks_completed() {
    let scan = scan_of(&[("001-a.md", "---\nid: \"001\"\ntitle: A\nstatus: in-progress\n---\n")]);
    let mut t = scan.tasks[0].clone();
    complete(&mut t, Workflow::Solo, None, day(2026, 7, 2));
    let v = view_in(&[t.clone()], &t);
    assert_eq!(v.status, "completed");
    assert_eq!(v.completed_at.as_deref(), Some("2026-07-02"));
}

#[test]
fn complete_pr_review_marks_in_review_and_records_pr() {
    let scan = scan_of(&[("001-a.md", "---\nid: \"001\"\ntitle: A\nstatus: in-progress\n---\n")]);
    let mut t = scan.tasks[0].clone();
    complete(&mut t, Workflow::PrReview, Some("https://x/pull/1"), day(2026, 7, 2));
    let v = view_in(&[t.clone()], &t);
    assert_eq!(v.status, "in-review");
    assert_eq!(v.completed_at, None);
    assert_eq!(t.pr(), vec!["https://x/pull/1".to_string()]);
}

#[test]
fn edit_updates_fields_and_can_clear() {
    let scan = scan_of(&[
        ("001-dep.md", "---\nid: \"001\"\ntitle: Dep\nstatus: completed\n---\n"),
        (
            "002-a.md",
            "---\nid: \"002\"\ntitle: Old\nstatus: pending\nphase: v1\nowner: nobody\n---\n\n# Old\n\nold body\n",
        ),
    ]);
    let spec = EditSpec {
        title: Some("New title".into()),
        priority: Some("high".into()),
        effort: Some("small".into()),
        task_type: Some("bug".into()),
        phase: Some(None),
        owner: Some(Some("me".into())),
        tags: Some(vec!["x".into()]),
        dependencies: Some(vec!["001".into()]),
        body: Some("new body".into()),
    };
    let plan = edit("002", &spec, &scan.tasks).unwrap();
    let mut tasks = scan.tasks.clone();
    apply_edit(&mut tasks[1], &spec, &plan);
    let v = view_in(&tasks, &tasks[1]);
    assert_eq!(v.title, "New title");
    assert_eq!(v.priority, "high");
    assert_eq!(v.effort.as_deref(), Some("small"));
    assert_eq!(v.task_type.as_deref(), Some("bug"));
    assert_eq!(v.phase, None);
    assert_eq!(v.owner.as_deref(), Some("me"));
    assert_eq!(v.tags, vec!["x"]);
    assert_eq!(v.dependencies, vec!["001"]);
    assert!(v.ready);
    assert!(v.body.as_deref().unwrap().contains("new body"));
}

#[test]
fn edit_no_op_leaves_task_intact() {
    let scan = scan_of(&[(
        "001-a.md",
        "---\nid: \"001\"\ntitle: Keep\nstatus: pending\nphase: v1\nrecurring: \"k\"\n---\n\n# Keep\n\nbody\n",
    )]);
    let spec = EditSpec::default();
    let plan = edit("001", &spec, &scan.tasks).unwrap();
    let mut t = scan.tasks[0].clone();
    apply_edit(&mut t, &spec, &plan);
    assert_eq!(t.title(), "Keep");
    assert_eq!(t.phase().as_deref(), Some("v1"));
    assert_eq!(t.recurring().as_deref(), Some("k"));
    assert!(t.body.contains("body"));
}

#[test]
fn edit_rejects_bad_inputs() {
    let scan = scan_of(&[("001-a.md", "---\nid: \"001\"\ntitle: A\nstatus: pending\n---\n")]);
    let cases: Vec<(EditSpec, &str)> = vec![
        (EditSpec { title: Some("   ".into()), ..EditSpec::default() }, "title must not be empty"),
        (EditSpec { priority: Some("urgent".into()), ..EditSpec::default() }, "invalid priority"),
        (EditSpec { effort: Some("epic".into()), ..EditSpec::default() }, "invalid effort"),
        (EditSpec { task_type: Some("story".into()), ..EditSpec::default() }, "invalid type"),
        (EditSpec { dependencies: Some(vec!["404".into()]), ..EditSpec::default() }, "does not exist"),
        (EditSpec { dependencies: Some(vec!["001".into()]), ..EditSpec::default() }, "cannot depend on itself"),
    ];
    for (s, needle) in cases {
        let msg = edit("001", &s, &scan.tasks).unwrap_err().message();
        assert!(msg.contains(needle), "expected `{needle}` in `{msg}`");
    }
}

#[test]
fn edit_missing_task_errors() {
    // The task an edit applies to is looked up the way every mutation does.
    let scan = three();
    assert_eq!(find_unique(&scan.tasks, "404"), Err(FindError::NotFound));
    assert_eq!(find_unique(&scan.tasks, "002"), Ok(1));
}

#[test]
fn mutations_preserve_custom_fields() {
    let scan = scan_of(&[(
        "001-a.md",
        "---\nid: \"001\"\ntitle: A\nstatus: pending\nrecurring: \"checkin\"\nweird: [1, 2]\n---\n",
    )]);
    let mut t = scan.tasks[0].clone();
    complete(&mut t, Workflow::Solo, None, day(2026, 7, 2));
    let keys = t.keys();
    assert!(keys.iter().any(|k| k == "recurring"));
    assert!(keys.iter().any(|k| k == "weird"));
}

#[test]
fn missing_task_errors_on_mutations() {
    let scan = three();
    assert!(show(&scan, "404").is_err());
    assert_eq!(find_unique(&scan.tasks, "404"), Err(FindError::NotFound));
}
