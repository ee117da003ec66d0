use karamd::date::Date;
use karamd::taskmd::graph::{Graph, GraphIssue};
use karamd::taskmd::model::{Status, Task};

fn task(id: &str, deps: &[&str], status: &str) -> Task {
    let mut t = Task::new(
        id,
        &format!("Task {id}"),
        Date::from_ymd(2026, 7, 1).unwrap(),
    );
    t.set("status", serde_norway::Value::String(status.into()));
    if !deps.is_empty() {
        t.set_dependencies(&deps.iter().map(|d| d.to_string()).collect::<Vec<_>>());
    }
    t
}

fn with_parent(mut t: Task, parent: &str) -> Task {
    t.set_parent(Some(parent));
    t
}

#[test]
fn readiness_requires_all_deps_completed() {
    let tasks = vec![
        task("001", &[], "completed"),
        task("002", &[], "pending"),
        task("003", &["001"], "pending"),
        task("004", &["001", "002"], "pending"),
    ];
    let g = Graph::build(&tasks);
    assert!(g.is_ready(g.get("002").unwrap()));
    assert!(g.is_ready(g.get("003").unwrap()));
    assert!(!g.is_ready(g.get("004").unwrap()));
}

#[test]
fn cancelled_dependency_does_not_satisfy_readiness() {
    let tasks = vec![
        task("001", &[], "cancelled"),
        task("002", &["001"], "pending"),
    ];
    let g = Graph::build(&tasks);
    assert!(!g.is_ready(g.get("002").unwrap()));
    assert_eq!(g.blockers(g.get("002").unwrap()).len(), 1);
}

#[test]
fn dangling_dependency_makes_task_unready() {
    let tasks = vec![task("002", &["404"], "pending")];
    let g = Graph::build(&tasks);
    assert!(!g.is_ready(g.get("002").unwrap()));
    assert!(g.blockers(g.get("002").unwrap()).is_empty());
    assert_eq!(
        g.issues(),
        vec![GraphIssue::DanglingDependency {
            task: "002".into(),
            missing: "404".into(),
        }]
    );
}

#[test]
fn blockers_lists_open_dependencies() {
    let tasks = vec![
        task("001", &[], "completed"),
        task("002", &[], "in-progress"),
        task("003", &[], "blocked"),
        task("004", &["001", "002", "003"], "pending"),
    ];
    let g = Graph::build(&tasks);
    let blockers = g.blockers(g.get("004").unwrap());
    let ids: Vec<String> = blockers.iter().map(|t| t.id()).collect();
    assert_eq!(ids, vec!["002", "003"]);
}

#[test]
fn dependents_and_downstream_count_are_transitive() {
    let tasks = vec![
        task("001", &[], "pending"),
        task("002", &["001"], "pending"),
        task("003", &["002"], "pending"),
        task("004", &["001"], "pending"),
    ];
    let g = Graph::build(&tasks);
    let direct: Vec<String> = g.direct_dependents("001").iter().map(|t| t.id()).collect();
    assert_eq!(direct, vec!["002", "004"]);
    assert_eq!(g.downstream_count("001"), 3);
    assert_eq!(g.downstream_count("002"), 1);
    assert_eq!(g.downstream_count("003"), 0);
    assert_eq!(g.downstream_depth("001"), 2);
    assert_eq!(g.downstream_depth("003"), 0);
}

#[test]
fn downstream_depth_memoizes_shared_paths() {
    let tasks = vec![
        task("001", &[], "pending"),
        task("002", &["001"], "pending"),
        task("003", &["001"], "pending"),
        task("004", &["002", "003"], "pending"),
    ];
    let g = Graph::build(&tasks);
    assert_eq!(g.downstream_depth("001"), 2);
    assert_eq!(g.downstream_count("001"), 3);
}

#[test]
fn downstream_is_cycle_safe() {
    let tasks = vec![
        task("001", &["002"], "pending"),
        task("002", &["001"], "pending"),
    ];
    let g = Graph::build(&tasks);
    assert_eq!(g.downstream_count("001"), 1);
    let _ = g.downstream_depth("001");
}

#[test]
fn dependency_cycle_detected_once() {
    let tasks = vec![
        task("001", &["002"], "pending"),
        task("002", &["003"], "pending"),
        task("003", &["001"], "pending"),
        task("004", &["001"], "pending"),
    ];
    let g = Graph::build(&tasks);
    let cycles: Vec<GraphIssue> = g
        .issues()
        .into_iter()
        .filter(|i| matches!(i, GraphIssue::DependencyCycle { .. }))
        .collect();
    assert_eq!(
        cycles,
        vec![GraphIssue::DependencyCycle {
            ids: vec!["001".into(), "002".into(), "003".into()],
        }]
    );
}

#[test]
fn self_dependency_is_a_cycle() {
    let tasks = vec![task("001", &["001"], "pending")];
    let g = Graph::build(&tasks);
    assert!(g.issues().iter().any(
        |i| matches!(i, GraphIssue::DependencyCycle { ids } if ids == &vec!["001".to_string()])
    ));
}

#[test]
fn acyclic_graph_has_no_issues() {
    let tasks = vec![
        task("001", &[], "completed"),
        task("002", &["001"], "pending"),
        with_parent(task("003", &[], "pending"), "001"),
    ];
    let g = Graph::build(&tasks);
    assert!(g.issues().is_empty());
}

#[test]
fn parent_issues_detected() {
    let tasks = vec![
        with_parent(task("001", &[], "pending"), "404"),
        with_parent(task("002", &[], "pending"), "002"),
        with_parent(task("003", &[], "pending"), "004"),
        with_parent(task("004", &[], "pending"), "003"),
    ];
    let g = Graph::build(&tasks);
    let issues = g.issues();
    assert!(issues.contains(&GraphIssue::MissingParent {
        task: "001".into(),
        parent: "404".into(),
    }));
    assert!(issues.contains(&GraphIssue::SelfParent { task: "002".into() }));
    assert!(issues
        .iter()
        .any(|i| matches!(i, GraphIssue::ParentCycle { ids } if ids.len() == 2)));
    assert_eq!(
        issues
            .iter()
            .filter(|i| matches!(i, GraphIssue::ParentCycle { .. }))
            .count(),
        1
    );
}

#[test]
fn children_computed_from_parent_fields() {
    let tasks = vec![
        task("001", &[], "pending"),
        with_parent(task("002", &[], "pending"), "001"),
        with_parent(task("003", &[], "pending"), "001"),
    ];
    let g = Graph::build(&tasks);
    let kids: Vec<String> = g.children("001").iter().map(|t| t.id()).collect();
    assert_eq!(kids, vec!["002", "003"]);
    assert!(g.children("002").is_empty());
}

#[test]
fn duplicate_ids_first_file_wins_without_panic() {
    let tasks = vec![task("001", &[], "pending"), task("001", &[], "completed")];
    let g = Graph::build(&tasks);
    assert_eq!(g.get("001").unwrap().effective_status(), Status::Pending);
}

#[test]
fn get_missing_is_none() {
    let tasks: Vec<Task> = vec![];
    let g = Graph::build(&tasks);
    assert!(g.get("404").is_none());
    assert_eq!(g.downstream_count("404"), 0);
    assert!(g.direct_dependents("404").is_empty());
    assert!(g.children("404").is_empty());
    assert!(g.issues().is_empty());
}

#[test]
fn issues_come_sorted_by_task_id() {
    let tasks = vec![
        task("003", &["909"], "pending"),
        task("001", &["808"], "pending"),
    ];
    let g = Graph::build(&tasks);
    assert_eq!(
        g.issues(),
        vec![
            GraphIssue::DanglingDependency { task: "001".into(), missing: "808".into() },
            GraphIssue::DanglingDependency { task: "003".into(), missing: "909".into() },
        ]
    );
}

#[test]
fn two_node_dependency_cycle_reported_once_from_smallest_id() {
    let tasks = vec![
        task("002", &["001"], "pending"),
        task("001", &["002"], "pending"),
    ];
    let g = Graph::build(&tasks);
    assert_eq!(
        g.issues(),
        vec![GraphIssue::DependencyCycle { ids: vec!["001".into(), "002".into()] }]
    );
}

#[test]
fn every_separate_dependency_cycle_is_reported() {
    let tasks = vec![
        task("001", &["002"], "pending"),
        task("002", &["001"], "pending"),
        task("003", &["004"], "pending"),
        task("004", &["003"], "pending"),
        task("005", &["005"], "pending"),
    ];
    let g = Graph::build(&tasks);
    assert_eq!(
        g.issues(),
        vec![
            GraphIssue::DependencyCycle { ids: vec!["001".into(), "002".into()] },
            GraphIssue::DependencyCycle { ids: vec!["003".into(), "004".into()] },
            GraphIssue::DependencyCycle { ids: vec!["005".into()] },
        ]
    );
}
