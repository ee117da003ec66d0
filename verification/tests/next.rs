use karamd::next::{recommend, render_human, NextReport, Options};
use karamd::taskmd::Task;

/// Fixture builder; adds `status: pending` when the yaml has no status
/// (taskmd's actionability requires an explicit one).
fn task(yaml: &str) -> Task {
    let yaml = if yaml.contains("status:") {
        yaml.to_string()
    } else {
        format!("{yaml}\nstatus: pending")
    };
    let content = format!("---\n{yaml}\n---\n");
    let mut t = Task::parse_required(&content).unwrap();
    t.rel_path = Some(format!("{}-t.md", t.id()));
    t
}

fn recommend_all(tasks: &[Task]) -> NextReport {
    recommend(tasks, &[], &Options::default())
}

fn score_of(report: &NextReport, id: &str) -> i64 {
    report
        .recommendations
        .iter()
        .find(|r| r.id == id)
        .unwrap()
        .score
}


#[test]
fn priority_bases_match_taskmd() {
    // Empirical: 4 isolated tasks -> all on the (trivial) critical path,
    // multiplier 0.25 (no downstream): low 13, medium 23, high 33,
    // critical 43.
    let tasks = vec![
        task("id: \"001\"\ntitle: L\npriority: low"),
        task("id: \"002\"\ntitle: M\npriority: medium"),
        task("id: \"003\"\ntitle: H\npriority: high"),
        task("id: \"004\"\ntitle: C\npriority: critical"),
    ];
    let r = recommend_all(&tasks);
    assert_eq!(score_of(&r, "001"), 13);
    assert_eq!(score_of(&r, "002"), 23);
    assert_eq!(score_of(&r, "003"), 33);
    assert_eq!(score_of(&r, "004"), 43);
    // Order: score desc.
    let ids: Vec<&str> = r.recommendations.iter().map(|x| x.id.as_str()).collect();
    assert_eq!(ids, vec!["004", "003", "002", "001"]);
}

#[test]
fn downstream_and_critical_path_match_taskmd() {
    // Empirical probe: chain 001<-002<-003 plus hub 004<-{005,006} plus
    // isolated 007 (all explicitly medium): 001 -> 30 (cp), 004 -> 23,
    // 007 -> 20.
    let tasks = vec![
        task("id: \"001\"\ntitle: A\npriority: medium"),
        task("id: \"002\"\ntitle: B\npriority: medium\ndependencies: [\"001\"]"),
        task("id: \"003\"\ntitle: C\npriority: medium\ndependencies: [\"002\"]"),
        task("id: \"004\"\ntitle: D\npriority: medium"),
        task("id: \"005\"\ntitle: E\npriority: medium\ndependencies: [\"004\"]"),
        task("id: \"006\"\ntitle: F\npriority: medium\ndependencies: [\"004\"]"),
        task("id: \"007\"\ntitle: G\npriority: medium"),
    ];
    let r = recommend_all(&tasks);
    assert_eq!(score_of(&r, "001"), 30);
    assert_eq!(score_of(&r, "004"), 23);
    assert_eq!(score_of(&r, "007"), 20);
    let one = r.recommendations.iter().find(|x| x.id == "001").unwrap();
    assert!(one.on_critical_path);
    assert_eq!(one.downstream_count, 2);
    assert_eq!(one.reasons, vec!["on critical path", "unblocks 2 tasks"]);
}

#[test]
fn downstream_cap_and_multiplier_match_taskmd() {
    // Empirical: hubs with 4/8 medium dependents score 33/34
    // (cap 15 * multiplier 0.5, cp 15 * 0.5 = 7).
    let mut tasks = vec![task("id: \"100\"\ntitle: Hub4\npriority: medium")];
    for i in 101..=104 {
        tasks.push(task(&format!(
            "id: \"{i}\"\ntitle: D{i}\npriority: medium\ndependencies: [\"100\"]"
        )));
    }
    let mut more = vec![task("id: \"300\"\ntitle: Hub8\npriority: medium")];
    for i in 301..=308 {
        more.push(task(&format!(
            "id: \"{i}\"\ntitle: D{i}\npriority: medium\ndependencies: [\"300\"]"
        )));
    }
    tasks.extend(more);
    let r = recommend_all(&tasks);
    assert_eq!(score_of(&r, "100"), 33); // 20 + 7(cp) + 6(ds 12*0.5)
    assert_eq!(score_of(&r, "300"), 34); // 20 + 7(cp) + 7(ds capped 15*0.5)
}

#[test]
fn high_priority_downstream_scales_bonuses_up() {
    // The real-vault case: high task unblocking 8 incl. high-priority
    // downstream scored 60 = 30 + 15 + 15.
    let mut tasks = vec![task("id: \"008\"\ntitle: Root\npriority: high")];
    for i in 9..=16 {
        tasks.push(task(&format!(
            "id: \"{i:03}\"\ntitle: D{i}\npriority: high\ndependencies: [\"008\"]"
        )));
    }
    let r = recommend_all(&tasks);
    assert_eq!(score_of(&r, "008"), 60);
}

#[test]
fn effort_bonuses_and_quick_wins_filter() {
    let tasks = vec![
        task("id: \"001\"\ntitle: S\npriority: medium\neffort: small"),
        task("id: \"002\"\ntitle: M\npriority: medium\neffort: medium"),
        task("id: \"003\"\ntitle: L\npriority: medium\neffort: large"),
    ];
    let r = recommend_all(&tasks);
    // All isolated -> cp bonus 3 each (mult 0.25); small +5, medium +2.
    assert_eq!(score_of(&r, "001"), 28);
    assert_eq!(score_of(&r, "002"), 25);
    assert_eq!(score_of(&r, "003"), 23);
    assert!(
        r.recommendations
            .iter()
            .find(|x| x.id == "001")
            .unwrap()
            .reasons
            .contains(&"quick win".to_string())
    );

    let quick = recommend(
        &tasks,
        &[],
        &Options {
            quick_wins: true,
            ..Options::default()
        },
    );
    let ids: Vec<&str> = quick
        .recommendations
        .iter()
        .map(|x| x.id.as_str())
        .collect();
    assert_eq!(ids, vec!["001"]);
}

#[test]
fn phase_bonus_decays_with_order() {
    let tasks = vec![
        task("id: \"001\"\ntitle: A\npriority: medium\nphase: alpha"),
        task("id: \"002\"\ntitle: B\npriority: medium\nphase: beta"),
        task("id: \"003\"\ntitle: C\npriority: medium\nphase: unknown"),
        task("id: \"004\"\ntitle: D\npriority: medium"),
    ];
    let order = vec!["alpha".to_string(), "beta".to_string()];
    let r = recommend(&tasks, &order, &Options::default());
    // base 20 + cp 3 (all trivial-critical) + phase bonus 25 / 20 / 0 / 0.
    assert_eq!(score_of(&r, "001"), 48);
    assert_eq!(score_of(&r, "002"), 43);
    assert_eq!(score_of(&r, "003"), 23);
    assert_eq!(score_of(&r, "004"), 23);
    assert!(
        r.recommendations
            .iter()
            .find(|x| x.id == "001")
            .unwrap()
            .reasons
            .contains(&"phase alpha".to_string())
    );
}

#[test]
fn phase_bonus_never_negative() {
    // Index 5 -> 25 - 25 = 0 -> no bonus, no reason.
    let tasks = vec![task("id: \"001\"\ntitle: A\npriority: medium\nphase: f")];
    let order: Vec<String> = ["a", "b", "c", "d", "e", "f"]
        .iter()
        .map(|s| s.to_string())
        .collect();
    let r = recommend(&tasks, &order, &Options::default());
    assert_eq!(score_of(&r, "001"), 23);
}

#[test]
fn readiness_is_a_hard_gate() {
    let tasks = vec![
        task("id: \"001\"\ntitle: Open dep"),
        task(
            "id: \"002\"\ntitle: Critical blocked\npriority: critical\ndependencies: [\"001\"]",
        ),
    ];
    let r = recommend_all(&tasks);
    // 002 is critical but blocked: never recommended, whatever its score.
    assert!(r.recommendations.iter().all(|x| x.id != "002"));
    // ...and it appears in the blocker view with its open dependency.
    assert_eq!(r.blocked.len(), 1);
    assert_eq!(r.blocked[0].id, "002");
    assert_eq!(r.blocked[0].blocked_on, vec!["001 (pending)"]);
    // The suggested unblocker is the task carrying the downstream work.
    assert_eq!(r.suggested_unblocker.as_deref(), Some("001"));
}

#[test]
fn cancelled_dependency_blocks_forever() {
    let tasks = vec![
        task("id: \"001\"\ntitle: Dead\nstatus: cancelled"),
        task("id: \"002\"\ntitle: Waits\npriority: high\ndependencies: [\"001\"]"),
    ];
    let r = recommend_all(&tasks);
    assert!(r.recommendations.is_empty());
    assert_eq!(r.blocked[0].blocked_on, vec!["001 (cancelled)"]);
}

#[test]
fn missing_dependency_blocks_and_is_labelled() {
    let tasks = vec![task(
        "id: \"002\"\ntitle: Waits\npriority: high\ndependencies: [\"404\"]",
    )];
    let r = recommend_all(&tasks);
    assert!(r.recommendations.is_empty());
    assert_eq!(r.blocked[0].blocked_on, vec!["404 (missing)"]);
}

#[test]
fn parent_with_open_children_is_not_actionable() {
    let tasks = vec![
        task("id: \"001\"\ntitle: Parent"),
        task("id: \"002\"\ntitle: Child\nparent: \"001\""),
    ];
    let r = recommend_all(&tasks);
    let ids: Vec<&str> = r.recommendations.iter().map(|x| x.id.as_str()).collect();
    assert_eq!(ids, vec!["002"]); // parent gated, child fine
    // Once the child resolves, the parent becomes actionable.
    let tasks2 = vec![
        task("id: \"001\"\ntitle: Parent"),
        task("id: \"002\"\ntitle: Child\nstatus: completed\nparent: \"001\""),
    ];
    let r2 = recommend_all(&tasks2);
    let ids2: Vec<&str> = r2.recommendations.iter().map(|x| x.id.as_str()).collect();
    assert_eq!(ids2, vec!["001"]);
}

#[test]
fn only_pending_and_in_progress_are_actionable() {
    let tasks = vec![
        task("id: \"001\"\ntitle: P\nstatus: pending"),
        task("id: \"002\"\ntitle: I\nstatus: in-progress"),
        task("id: \"003\"\ntitle: R\nstatus: in-review"),
        task("id: \"004\"\ntitle: B\nstatus: blocked"),
        task("id: \"005\"\ntitle: C\nstatus: completed"),
        task("id: \"006\"\ntitle: X\nstatus: cancelled"),
    ];
    let r = recommend_all(&tasks);
    let mut ids: Vec<&str> = r.recommendations.iter().map(|x| x.id.as_str()).collect();
    ids.sort();
    assert_eq!(ids, vec!["001", "002"]);
}

#[test]
fn resolved_dependencies_do_not_stretch_the_critical_path() {
    // A completed dep contributes no depth: 002 sits at depth 1 like 003.
    let tasks = vec![
        task("id: \"001\"\ntitle: Done\nstatus: completed"),
        task("id: \"002\"\ntitle: Next\ndependencies: [\"001\"]"),
        task("id: \"003\"\ntitle: Fresh"),
    ];
    let r = recommend_all(&tasks);
    assert_eq!(score_of(&r, "002"), score_of(&r, "003"));
}

#[test]
fn limit_and_default_limit() {
    let tasks: Vec<Task> = (1..=8)
        .map(|i| task(&format!("id: \"{i:03}\"\ntitle: T{i}")))
        .collect();
    assert_eq!(recommend_all(&tasks).recommendations.len(), 5); // default
    let two = recommend(
        &tasks,
        &[],
        &Options {
            limit: 2,
            ..Options::default()
        },
    );
    assert_eq!(two.recommendations.len(), 2);
    assert_eq!(two.recommendations[0].rank, 1);
    assert_eq!(two.recommendations[1].rank, 2);
}

#[test]
fn critical_and_phase_filters() {
    let tasks = vec![
        task("id: \"001\"\ntitle: A\nphase: v1"),
        task("id: \"002\"\ntitle: B\ndependencies: [\"001\"]"),
        task("id: \"003\"\ntitle: C\nphase: v2"),
    ];
    let crit = recommend(
        &tasks,
        &[],
        &Options {
            critical: true,
            ..Options::default()
        },
    );
    let ids: Vec<&str> = crit.recommendations.iter().map(|x| x.id.as_str()).collect();
    assert_eq!(ids, vec!["001"]); // only the chain head is actionable + on path
    let phased = recommend(
        &tasks,
        &[],
        &Options {
            phase: Some("v2".into()),
            ..Options::default()
        },
    );
    let ids: Vec<&str> = phased
        .recommendations
        .iter()
        .map(|x| x.id.as_str())
        .collect();
    assert_eq!(ids, vec!["003"]);
}

#[test]
fn strict_phases_orders_by_phase_before_score() {
    let tasks = vec![
        task("id: \"001\"\ntitle: LaterPhase\npriority: critical\nphase: beta"),
        task("id: \"002\"\ntitle: EarlyPhase\npriority: low\nphase: alpha"),
        task("id: \"003\"\ntitle: NoPhase\npriority: critical"),
    ];
    let order = vec!["alpha".to_string(), "beta".to_string()];
    let strict = recommend(
        &tasks,
        &order,
        &Options {
            strict_phases: true,
            ..Options::default()
        },
    );
    let ids: Vec<&str> = strict
        .recommendations
        .iter()
        .map(|x| x.id.as_str())
        .collect();
    // alpha first despite lower score; no-phase last.
    assert_eq!(ids, vec!["002", "001", "003"]);
    // Without strict, pure score order wins.
    let loose = recommend(&tasks, &order, &Options::default());
    let ids: Vec<&str> = loose
        .recommendations
        .iter()
        .map(|x| x.id.as_str())
        .collect();
    assert_eq!(ids, vec!["001", "003", "002"]);
    // Same phase under strict ordering falls through to score.
    let same_phase = vec![
        task("id: \"001\"\ntitle: A\npriority: low\nphase: alpha"),
        task("id: \"002\"\ntitle: B\npriority: high\nphase: alpha"),
    ];
    let r = recommend(
        &same_phase,
        &order,
        &Options {
            strict_phases: true,
            ..Options::default()
        },
    );
    let ids: Vec<&str> = r.recommendations.iter().map(|x| x.id.as_str()).collect();
    assert_eq!(ids, vec!["002", "001"]);
}

#[test]
fn tie_breaks_by_id() {
    let tasks = vec![task("id: \"002\"\ntitle: B"), task("id: \"001\"\ntitle: A")];
    let r = recommend_all(&tasks);
    let ids: Vec<&str> = r.recommendations.iter().map(|x| x.id.as_str()).collect();
    assert_eq!(ids, vec!["001", "002"]);
}

#[test]
fn cycles_do_not_hang_scoring() {
    let tasks = vec![
        task("id: \"001\"\ntitle: A\ndependencies: [\"002\"]"),
        task("id: \"002\"\ntitle: B\ndependencies: [\"001\"]"),
        task("id: \"003\"\ntitle: C"),
    ];
    let r = recommend_all(&tasks);
    // The cycle members are never ready; 003 is recommended.
    let ids: Vec<&str> = r.recommendations.iter().map(|x| x.id.as_str()).collect();
    assert_eq!(ids, vec!["003"]);
}

#[test]
fn human_rendering() {
    let tasks = vec![
        task("id: \"001\"\ntitle: Open dep"),
        task("id: \"002\"\ntitle: Blocked\npriority: high\ndependencies: [\"001\"]"),
    ];
    let out = render_human(&recommend_all(&tasks));
    assert!(out.contains("1. 001 Open dep [score"));
    assert!(out.contains("blocked high-priority work:"));
    assert!(out.contains("002 Blocked [high] waits on 001 (pending)"));
    assert!(out.contains("-> doing 001 unblocks the most work"));
    // Empty vault.
    assert_eq!(render_human(&recommend_all(&[])), "no actionable tasks");
    // Recommendations without blockers render no blocked section.
    let solo = vec![task("id: \"001\"\ntitle: A")];
    let out = render_human(&recommend_all(&solo));
    assert!(!out.contains("blocked"));
    // A blocked section without any unblocker to suggest (the only
    // recommendation unblocks nothing).
    let stuck = vec![
        task("id: \"001\"\ntitle: Free"),
        task("id: \"002\"\ntitle: Dead\nstatus: cancelled"),
        task("id: \"003\"\ntitle: Stuck\npriority: high\ndependencies: [\"002\"]"),
    ];
    let report = recommend_all(&stuck);
    assert_eq!(report.suggested_unblocker, None);
    let out = render_human(&report);
    assert!(out.contains("blocked high-priority work:"));
    assert!(!out.contains("unblocks the most work"));
    // A recommendation with no reasons at all renders without the
    // parenthesis suffix: off the critical path, nothing downstream.
    let plain = vec![
        task("id: \"001\"\ntitle: Deep"),
        task("id: \"002\"\ntitle: Deeper\ndependencies: [\"001\"]"),
        task("id: \"003\"\ntitle: Plain"),
    ];
    let out = render_human(&recommend_all(&plain));
    assert!(out.contains("003 Plain [score 10]\n") || out.ends_with("003 Plain [score 10]"));
    assert!(!out.contains("003 Plain [score 10]  ("));
}

