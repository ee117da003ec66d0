use karamd::analyze::{render_stats, to_dot, GraphView, StatsView};
use karamd::taskmd::graph::Graph;
use karamd::taskmd::Task;

fn task(yaml: &str) -> Task {
    Task::parse_required(&format!("---\n{yaml}\n---\n\n# body\n")).unwrap()
}

fn count(v: &[(String, usize)], k: &str) -> usize {
    v.iter().find(|(x, _)| x == k).map(|(_, c)| *c).unwrap()
}

#[test]
fn graph_view_maps_nodes_edges_and_readiness() {
    let tasks = vec![
        task("id: \"001\"\ntitle: Dep\nstatus: completed"),
        task("id: \"002\"\ntitle: Mid\nstatus: pending\ndependencies: [\"001\"]"),
        task("id: \"003\"\ntitle: Late\nstatus: pending\ndependencies: [\"002\"]"),
    ];
    let graph = Graph::build(&tasks);
    let view = GraphView::build(&tasks, &graph);
    assert_eq!(view.nodes.len(), 3);
    let mid = view.nodes.iter().find(|n| n.id == "002").unwrap();
    assert!(mid.ready);
    assert!(mid.blockers.is_empty());
    assert_eq!(mid.dependencies, vec!["001"]);
    let late = view.nodes.iter().find(|n| n.id == "003").unwrap();
    assert!(!late.ready);
    assert_eq!(late.blockers, vec!["002"]);
}

#[test]
fn dot_export_has_nodes_and_edges_and_escapes() {
    let tasks = vec![
        task("id: \"001\"\ntitle: 'A \"quoted\" one'\nstatus: pending"),
        task("id: \"002\"\ntitle: B\nstatus: pending\ndependencies: [\"001\"]"),
    ];
    let graph = Graph::build(&tasks);
    let dot = to_dot(&GraphView::build(&tasks, &graph));
    assert!(dot.starts_with("digraph tasks {"));
    assert!(dot.contains("\"001\" -> \"002\";"));
    assert!(dot.contains("\\\"quoted\\\""));
    assert!(dot.trim_end().ends_with('}'));
}

#[test]
fn dot_is_exact() {
    let tasks = vec![task("id: \"001\"\ntitle: A\nstatus: pending"), task("id: \"002\"\ntitle: B\ndependencies: [\"001\"]")];
    let graph = Graph::build(&tasks);
    let dot = to_dot(&GraphView::build(&tasks, &graph));
    assert_eq!(
        dot,
        "digraph tasks {\n  rankdir=LR;\n  \"001\" [label=\"001: A\"];\n  \"002\" [label=\"002: B\"];\n  \"001\" -> \"002\";\n}"
    );
}

#[test]
fn dot_escapes_backslashes() {
    let tasks = vec![task("id: \"001\"\ntitle: 'a\\\\b'\nstatus: pending")];
    let graph = Graph::build(&tasks);
    let dot = to_dot(&GraphView::build(&tasks, &graph));
    assert!(dot.contains("\\\\"));
}

#[test]
fn stats_counts_and_groups() {
    let tasks = vec![
        task("id: \"001\"\ntitle: A\nstatus: completed\npriority: high\nphase: v1"),
        task("id: \"002\"\ntitle: B\nstatus: pending\npriority: high\ndependencies: [\"001\"]"),
        task("id: \"003\"\ntitle: C\nstatus: pending\ndependencies: [\"002\"]"),
        task("id: \"004\"\ntitle: D"),
    ];
    let graph = Graph::build(&tasks);
    let s = StatsView::build(&tasks, &graph, 2);
    assert_eq!(s.total, 4);
    assert_eq!(s.invalid, 2);
    assert_eq!(count(&s.by_status, "pending"), 3);
    assert_eq!(count(&s.by_status, "completed"), 1);
    assert_eq!(count(&s.by_priority, "high"), 2);
    assert_eq!(count(&s.by_priority, "medium"), 2);
    assert_eq!(count(&s.by_phase, "v1"), 1);
    assert_eq!(count(&s.by_phase, "(none)"), 3);
    assert_eq!(s.ready, 2);
    assert_eq!(s.blocked, 1);
    // Keys come in sorted order, each once.
    let keys: Vec<&str> = s.by_status.iter().map(|(k, _)| k.as_str()).collect();
    assert_eq!(keys, vec!["completed", "pending"]);
}

#[test]
fn render_stats_is_readable() {
    let tasks = vec![task("id: \"001\"\ntitle: A\nstatus: pending")];
    let graph = Graph::build(&tasks);
    let out = render_stats(&StatsView::build(&tasks, &graph, 1));
    assert!(out.contains("1 task(s)"));
    assert!(out.contains("broken file(s)"));
    assert!(out.contains("by status:"));
    assert!(out.contains("ready: 1"));
    assert_eq!(
        out,
        "1 task(s) (1 broken file(s))\nby status:\n  pending: 1\nby priority:\n  medium: 1\nby phase:\n  (none): 1\nready: 1\nblocked: 0"
    );
}

#[test]
fn render_stats_without_invalid_omits_broken_note() {
    let tasks = vec![task("id: \"001\"\ntitle: A\nstatus: pending")];
    let graph = Graph::build(&tasks);
    let out = render_stats(&StatsView::build(&tasks, &graph, 0));
    assert!(!out.contains("broken"));
}
