use karamd::taskmd::graph::Graph;
use karamd::taskmd::model::Task;
use karamd::output::{task_table, Format, TaskView};

fn task(yaml: &str) -> Task {
    Task::parse_required(&format!("---\n{yaml}\n---\n\n# body here\n")).unwrap()
}

#[test]
fn format_from_flags() {
    assert_eq!(Format::from_flags(false, false), Format::Human);
    assert_eq!(Format::from_flags(true, false), Format::Json);
    assert_eq!(Format::from_flags(false, true), Format::Yaml);
}

#[test]
fn table_empty_case() {
    assert_eq!(task_table(&[]), "no tasks match");
}

#[test]
fn view_fills_defaults_and_graph_state() {
    let tasks = vec![
        task("id: \"001\"\ntitle: Dep\nstatus: in-progress"),
        task("id: \"002\"\ntitle: Blocked one\ndependencies: [\"001\"]"),
    ];
    let graph = Graph::build(&tasks);
    let v = TaskView::build(&tasks[1], &graph, false);
    assert_eq!(v.id, "002");
    assert_eq!(v.status, "pending");
    assert_eq!(v.priority, "medium");
    assert!(!v.ready);
    assert_eq!(v.blockers, vec!["001"]);
    assert_eq!(v.body, None);
    let detail = TaskView::build(&tasks[1], &graph, true);
    assert_eq!(detail.body.as_deref(), Some("# body here"));
}

#[test]
fn view_shows_invalid_raw_enums_verbatim() {
    let tasks = vec![task("id: \"001\"\ntitle: T\nstatus: done\npriority: urgent")];
    let graph = Graph::build(&tasks);
    let v = TaskView::build(&tasks[0], &graph, false);
    assert_eq!(v.status, "done");
    assert_eq!(v.priority, "urgent");
}

#[test]
fn table_lists_columns_and_blockers() {
    let tasks = vec![
        task("id: \"001\"\ntitle: First\nstatus: in-progress\npriority: high\nphase: v1"),
        task("id: \"002\"\ntitle: Second\ndependencies: [\"001\"]"),
    ];
    let graph = Graph::build(&tasks);
    let views: Vec<TaskView> = tasks.iter().map(|t| TaskView::build(t, &graph, false)).collect();
    let table = task_table(&views);
    assert!(table.starts_with("id "));
    assert!(table.contains("in-progress"));
    assert!(table.contains("First"));
    assert!(table.contains("Second [waits on 001]"));
}

#[test]
fn table_exact_layout() {
    let tasks = vec![
        task("id: \"001\"\ntitle: First\nstatus: in-progress\npriority: high\nphase: v1"),
        task("id: \"002\"\ntitle: Second\ndependencies: [\"001\"]"),
    ];
    let graph = Graph::build(&tasks);
    let views: Vec<TaskView> = tasks.iter().map(|t| TaskView::build(t, &graph, false)).collect();
    assert_eq!(
        task_table(&views),
        "id   status       prio    phase  title\n--   ------       ----    -----  -----\n001  in-progress  high    v1     First\n002  pending      medium         Second [waits on 001]"
    );
}

#[test]
fn view_maps_every_field() {
    let mut t = task("id: \"009\"\ntitle: Full\nstatus: completed\npriority: low\neffort: small\ntype: docs\nphase: v2\ndue: 2026-09-09\ntags: [x]\ndependencies: []\ngroup: g\nowner: o\nparent: \"001\"\ncreated_at: 2026-01-01\ncompleted_at: 2026-02-02\nrecurring: \"k\"");
    t.rel_path = Some("009-full.md".into());
    let binding = vec![t];
    let graph = Graph::build(&binding);
    let v = TaskView::build(&binding[0], &graph, false);
    assert_eq!(v.effort.as_deref(), Some("small"));
    assert_eq!(v.task_type.as_deref(), Some("docs"));
    assert_eq!(v.phase.as_deref(), Some("v2"));
    assert_eq!(v.due.as_deref(), Some("2026-09-09"));
    assert_eq!(v.group.as_deref(), Some("g"));
    assert_eq!(v.owner.as_deref(), Some("o"));
    assert_eq!(v.parent.as_deref(), Some("001"));
    assert_eq!(v.created_at.as_deref(), Some("2026-01-01"));
    assert_eq!(v.completed_at.as_deref(), Some("2026-02-02"));
    assert_eq!(v.recurring.as_deref(), Some("k"));
    assert_eq!(v.file.as_deref(), Some("009-full.md"));
}

#[test]
fn cancelled_at_is_mapped() {
    let tasks = vec![task("id: \"001\"\ntitle: T\nstatus: cancelled\ncancelled_at: 2026-03-03")];
    let graph = Graph::build(&tasks);
    let v = TaskView::build(&tasks[0], &graph, false);
    assert_eq!(v.cancelled_at.as_deref(), Some("2026-03-03"));
}

#[test]
fn table_has_header_dashes_and_one_line_per_view() {
    let tasks = vec![
        task("id: \"001\"\ntitle: First\nstatus: in-progress"),
        task("id: \"002\"\ntitle: Second\ndependencies: [\"001\"]"),
        task("id: \"003\"\ntitle: Third"),
    ];
    let graph = Graph::build(&tasks);
    let views: Vec<TaskView> = tasks.iter().map(|t| TaskView::build(t, &graph, false)).collect();
    let table = task_table(&views);
    assert_eq!(table.lines().count(), views.len() + 2);
    assert_eq!(table.matches('\n').count(), views.len() + 1);
    let lines: Vec<&str> = table.lines().collect();
    for (i, v) in views.iter().enumerate() {
        assert!(lines[i + 2].starts_with(&v.id));
    }
}
