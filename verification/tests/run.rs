use karamd::date::Date;
use karamd::run::{
    cap_reached, clear_running, is_runnable, is_running_stale, is_stale, mark_running, next_to_run, outcome_label,
    read_attempts, record_failure, record_success, render_prompt, render_result_line, resolve_agent,
    resolve_working_dir, run_log_filename, runnable_ids, settle, stale_ids, substitute_prompt, AgentOutcome,
    prune_plan, agent_name_of, run_agent, run_record, AgentRunner, RunReport, RunResult, Timestamp, FAILED_TAG,
};
use karamd::taskmd::config::{AgentSpec, PromptVia, RunConfig};
use karamd::taskmd::{Status, Task};

fn stamp(text: &str) -> Timestamp {
    let d = chrono::DateTime::parse_from_rfc3339(text).unwrap();
    Timestamp { secs: d.timestamp(), nanos: d.timestamp_subsec_nanos() }
}

fn now() -> Timestamp {
    stamp("2026-07-09T12:00:00Z")
}

fn now_text() -> String {
    chrono::DateTime::from_timestamp(now().secs, now().nanos).unwrap().to_rfc3339()
}

fn today() -> Date {
    Date::from_ymd(2026, 7, 9).unwrap()
}

fn cfg() -> RunConfig {
    RunConfig {
        enabled: true,
        agent: "agent".to_string(),
        agents: vec![(
            "agent".to_string(),
            AgentSpec {
                command: vec!["agent".to_string(), "-p".to_string(), "{prompt}".to_string()],
                prompt_via: PromptVia::Arg,
            },
        )],
        timeout_secs: 100,
        max_attempts: 2,
        prompt_template: "do {id}: {title}\n{body}\npath={path}".to_string(),
        ..RunConfig::default()
    }
}

fn parse(text: &str) -> Task {
    Task::parse_required(text).unwrap()
}

fn runnable_task(id: &str) -> Task {
    parse(&format!("---\nid: \"{id}\"\ntitle: Fetch {id}\nstatus: pending\ntags: [ai-runnable]\n---\n\nbody {id}\n"))
}

#[test]
fn read_attempts_number_string_and_missing() {
    let num = parse("---\nid: \"1\"\ntitle: t\nai_attempts: 3\n---\n");
    assert_eq!(read_attempts(&num), 3);
    let s = parse("---\nid: \"1\"\ntitle: t\nai_attempts: \"2\"\n---\n");
    assert_eq!(read_attempts(&s), 2);
    let missing = parse("---\nid: \"1\"\ntitle: t\n---\n");
    assert_eq!(read_attempts(&missing), 0);
    let weird = parse("---\nid: \"1\"\ntitle: t\nai_attempts: [x]\n---\n");
    assert_eq!(read_attempts(&weird), 0);
}

#[test]
fn read_attempts_looks_through_tags_and_cuts_to_32_bits() {
    let tagged = parse("---\nid: \"1\"\ntitle: t\nai_attempts: !n 4\n---\n");
    assert_eq!(read_attempts(&tagged), 4);
    let big = parse("---\nid: \"1\"\ntitle: t\nai_attempts: 4294967297\n---\n");
    assert_eq!(read_attempts(&big), 1);
    let neg = parse("---\nid: \"1\"\ntitle: t\nai_attempts: -2\n---\n");
    assert_eq!(read_attempts(&neg), 0);
}

#[test]
fn is_stale_fresh_old_and_missing() {
    let fresh = now_text();
    assert!(!is_stale(Some(&fresh), now(), 100));
    assert!(is_stale(Some("2026-07-01T00:00:00Z"), now(), 100));
    assert!(is_stale(None, now(), 100));
    assert!(is_stale(Some("not-a-timestamp"), now(), 100));
    // Exactly twice the timeout is stale; a second less is not.
    assert!(is_stale(Some("2026-07-09T11:56:40Z"), now(), 100));
    assert!(!is_stale(Some("2026-07-09T11:56:41Z"), now(), 100));
}

#[test]
fn render_prompt_interpolates_all_tokens() {
    let t = parse("---\nid: \"007\"\ntitle: Do it\n---\n\n# Do it\n\nthe body\n");
    let out = render_prompt("id={id} title={title} path={path}\n{body}", &t, "/abs/007.md");
    assert_eq!(out, "id=007 title=Do it path=/abs/007.md\n# Do it\n\nthe body");
}

#[test]
fn resolve_working_dir_precedence() {
    let with_override = parse("---\nid: \"1\"\ntitle: t\nai_working_dir: /repo\n---\n");
    assert_eq!(resolve_working_dir(&with_override, &RunConfig::default(), "/vault"), "/repo");
    let plain = parse("---\nid: \"1\"\ntitle: t\n---\n");
    let c = RunConfig { working_dir: Some("/cfgdir".into()), ..RunConfig::default() };
    assert_eq!(resolve_working_dir(&plain, &c, "/vault"), "/cfgdir");
    assert_eq!(resolve_working_dir(&plain, &RunConfig::default(), "/vault"), "/vault");
}

#[test]
fn resolve_agent_default_override_and_unknown() {
    let c = cfg();
    let plain = parse("---\nid: \"1\"\ntitle: t\n---\n");
    assert_eq!(resolve_agent(&c, &plain).unwrap().command[0], "agent");
    let bad = parse("---\nid: \"1\"\ntitle: t\nai_agent: ghost\n---\n");
    let err = resolve_agent(&c, &bad).unwrap_err();
    assert!(err.contains("unknown agent `ghost`"));
    assert_eq!(err, "unknown agent `ghost` (not configured in run.agents)");
}

#[test]
fn substitute_prompt_replaces_token() {
    let args = vec!["agent".to_string(), "{prompt}".to_string(), "x".to_string()];
    assert_eq!(substitute_prompt(&args, "{prompt}", "hello world"), vec!["agent", "hello world", "x"]);
}

#[test]
fn substitute_prompt_matches_str_replace() {
    let args = vec!["a{p}b{p}".to_string(), "{p}{p}{".to_string(), "abc".to_string()];
    for token in ["{p}", "", "b"] {
        let got = substitute_prompt(&args, token, "-");
        let want: Vec<String> = args.iter().map(|a| a.replace(token, "-")).collect();
        assert_eq!(got, want, "token {token:?}");
    }
}

#[test]
fn record_failure_park_is_idempotent_on_tag() {
    let mut t = parse("---\nid: \"1\"\ntitle: t\ntags: [ai-runnable, ai-failed]\nai_attempts: 2\n---\n");
    record_failure(&mut t, "boom", today(), 2);
    assert_eq!(t.tags().iter().filter(|x| *x == FAILED_TAG).count(), 1, "tag not duplicated");
}

#[test]
fn record_failure_parks_at_cap_and_stamps() {
    let mut t = parse("---\nid: \"1\"\ntitle: t\ntags: [ai-runnable]\nai_attempts: 2\nai_run_started: x\n---\n");
    record_failure(&mut t, "boom", today(), 2);
    assert_eq!(t.tags(), vec!["ai-runnable".to_string(), "ai-failed".to_string()]);
    assert_eq!(t.get_str("ai_status").as_deref(), Some("failed"));
    assert_eq!(t.get_str("ai_last_error").as_deref(), Some("boom"));
    assert_eq!(t.get_str("ai_last_run").as_deref(), Some("2026-07-09"));
    assert_eq!(t.get_str("ai_run_started"), None);
    // Under the cap: stamped, not parked.
    let mut u = parse("---\nid: \"1\"\ntitle: t\ntags: [ai-runnable]\nai_attempts: 1\n---\n");
    record_failure(&mut u, "boom", today(), 2);
    assert_eq!(u.tags(), vec!["ai-runnable".to_string()]);
}

#[test]
fn mark_running_counts_and_locks_then_success_clears() {
    let mut t = parse("---\nid: \"1\"\ntitle: t\nai_attempts: 1\nai_agent: agent\n---\n");
    mark_running(&mut t, now());
    assert_eq!(read_attempts(&t), 2);
    assert_eq!(t.get_str("ai_status").as_deref(), Some("running"));
    assert_eq!(t.get_str("ai_run_started"), Some(now_text()));
    record_success(&mut t);
    assert_eq!(t.get_str("ai_status"), None);
    assert_eq!(t.get_str("ai_attempts"), None);
    assert_eq!(t.get_str("ai_agent").as_deref(), Some("agent"));
}

#[test]
fn render_result_line_variants() {
    let ok = RunResult { id: "1".into(), succeeded: true, detail: String::new(), parked: false };
    assert!(render_result_line(&ok).contains("-> completed"));
    let parked = RunResult { id: "2".into(), succeeded: false, detail: "x".into(), parked: true };
    assert!(render_result_line(&parked).contains("parked (ai-failed)"));
    let failed = RunResult { id: "3".into(), succeeded: false, detail: "y".into(), parked: false };
    let line = render_result_line(&failed);
    assert!(line.contains("-> failed: y") && !line.contains("parked"));
    assert_eq!(line, "karamd: ran 3 -> failed: y");
}

#[test]
fn plan_selects_only_runnable() {
    let tasks = vec![
        runnable_task("001"),
        parse("---\nid: \"002\"\ntitle: t\nstatus: pending\n---\n"),
        parse("---\nid: \"003\"\ntitle: t\nstatus: completed\ntags: [ai-runnable]\n---\n"),
        parse("---\nid: \"004\"\ntitle: t\nstatus: pending\ntags: [ai-runnable, ai-failed]\n---\n"),
        parse("---\nid: \"005\"\ntitle: t\nstatus: pending\ntags: [ai-runnable]\nai_attempts: 2\n---\n"),
    ];
    assert_eq!(runnable_ids(&tasks, &cfg(), now()), vec!["001"]);
    let off = RunConfig { enabled: false, ..cfg() };
    assert!(runnable_ids(&tasks, &off, now()).is_empty());
}

#[test]
fn locked_fresh_skipped_stale_run() {
    let fresh = parse(&format!(
        "---\nid: \"001\"\ntitle: t\nstatus: pending\ntags: [ai-runnable]\nai_status: running\nai_run_started: {}\n---\n",
        now_text()
    ));
    let stale = parse("---\nid: \"002\"\ntitle: t\nstatus: pending\ntags: [ai-runnable]\nai_status: running\nai_run_started: 2026-07-01T00:00:00Z\n---\n");
    assert!(!is_runnable(&fresh, &cfg(), now()));
    assert_eq!(runnable_ids(&[fresh, stale], &cfg(), now()), vec!["002"]);
}

#[test]
fn is_running_stale_detects_dead_runs() {
    let fresh = parse(&format!("---\nid: \"1\"\ntitle: t\nai_status: running\nai_run_started: {}\n---\n", now_text()));
    assert!(!is_running_stale(&fresh, 100, now()));
    let stale = parse("---\nid: \"1\"\ntitle: t\nai_status: running\nai_run_started: 2026-07-01T00:00:00Z\n---\n");
    assert!(is_running_stale(&stale, 100, now()));
    let failed = parse("---\nid: \"1\"\ntitle: t\nai_status: failed\nai_run_started: 2026-07-01T00:00:00Z\n---\n");
    assert!(!is_running_stale(&failed, 100, now()));
}

#[test]
fn reconcile_stale_clears_ghost_markers_keeping_attempts() {
    let stale = parse("---\nid: \"001\"\ntitle: t\nstatus: pending\ntags: [ai-runnable]\nai_status: running\nai_run_started: 2026-07-01T00:00:00Z\nai_attempts: 2\n---\n");
    let fresh = parse(&format!(
        "---\nid: \"002\"\ntitle: t\nstatus: pending\ntags: [ai-runnable]\nai_status: running\nai_run_started: {}\n---\n",
        now_text()
    ));
    let tasks = vec![stale, fresh];
    assert_eq!(stale_ids(&tasks, 100, now()), vec!["001"]);
    let mut t = tasks[0].clone();
    clear_running(&mut t);
    assert_eq!(t.get_str("ai_status"), None);
    assert_eq!(t.get_str("ai_run_started"), None);
    assert_eq!(read_attempts(&t), 2);
}

#[test]
fn settle_success_needs_terminal_status() {
    let ok = AgentOutcome { success: true, detail: String::new(), exit_code: Some(0), duration_s: 7 };
    let mut done = parse("---\nid: \"001\"\ntitle: t\nstatus: completed\ntags: [ai-runnable]\nai_attempts: 1\nai_status: running\n---\n");
    let (r, attempt) = settle(&mut done, "001", &ok, today(), 2);
    assert!(r.succeeded && !r.parked && r.detail.is_empty());
    assert_eq!(attempt, 1);
    assert_eq!(done.get_str("ai_attempts"), None);
    assert_eq!(outcome_label(r.succeeded, r.parked), "completed");

    let mut open = parse("---\nid: \"002\"\ntitle: t\nstatus: pending\ntags: [ai-runnable]\nai_attempts: 2\nai_status: running\n---\n");
    let (r, attempt) = settle(&mut open, "002", &ok, today(), 2);
    assert!(!r.succeeded);
    assert_eq!(r.detail, "agent exited 0 but did not mark the task complete");
    assert!(r.parked);
    assert_eq!(attempt, 2);
    assert_eq!(outcome_label(r.succeeded, r.parked), "parked");
    assert!(!is_runnable(&open, &cfg(), now()));

    let fail = AgentOutcome { success: false, detail: "boom".into(), exit_code: Some(1), duration_s: 3 };
    let mut first = parse("---\nid: \"003\"\ntitle: t\nstatus: pending\ntags: [ai-runnable]\nai_attempts: 1\n---\n");
    let (r, _) = settle(&mut first, "003", &fail, today(), 2);
    assert_eq!(r.detail, "boom");
    assert!(!r.parked);
    assert_eq!(outcome_label(r.succeeded, r.parked), "failed");
}

#[test]
fn next_to_run_skips_done_and_honours_cap() {
    let tasks = vec![runnable_task("001"), runnable_task("002")];
    assert_eq!(next_to_run(&tasks, &cfg(), now(), &vec![]), Some("001".to_string()));
    assert_eq!(next_to_run(&tasks, &cfg(), now(), &vec!["001".to_string()]), Some("002".to_string()));
    assert_eq!(next_to_run(&tasks, &cfg(), now(), &vec!["001".to_string(), "002".to_string()]), None);
    assert!(cap_reached(1, 1));
    assert!(!cap_reached(0, 5));
    assert!(!cap_reached(2, 1));
}

#[test]
fn run_log_filename_is_timestamp_and_id() {
    assert_eq!(run_log_filename(now(), "042"), "20260709T120000Z-042.log");
}

#[test]
fn status_change_by_the_agent_is_what_settles_success() {
    let mut t = runnable_task("001");
    mark_running(&mut t, now());
    t.set_status(Status::Completed, today());
    let ok = AgentOutcome { success: true, detail: String::new(), exit_code: Some(0), duration_s: 1 };
    let (r, attempt) = settle(&mut t, "001", &ok, today(), 3);
    assert!(r.succeeded);
    assert_eq!(attempt, 1);
}

fn strings(v: &[&str]) -> Vec<String> {
    v.iter().map(|s| s.to_string()).collect()
}

#[test]
fn prune_logs_keeps_recent_and_deletes_orphans() {
    let lines = strings(&["r1", "r2", "r3"]);
    let files = vec![Some("a.log".to_string()), Some("b.log".to_string()), Some("c.log".to_string())];
    let p = prune_plan(&lines, &files, 1).unwrap();
    assert_eq!(p.index, "r3\n");
    assert_eq!(p.delete, vec!["a.log", "b.log"]);
}

#[test]
fn prune_logs_zero_noop_and_leaves_foreign_files() {
    let lines = strings(&["r1"]);
    let files = vec![Some("a.log".to_string())];
    assert_eq!(prune_plan(&lines, &files, 0), None);
    assert_eq!(prune_plan(&lines, &files, 5), None);
}

#[test]
fn prune_logs_deletes_only_dropped_and_keeps_referenced() {
    let lines = strings(&["{not json", "r1", "r2", "r3"]);
    let files = vec![None, Some("shared.log".to_string()), Some("shared.log".to_string()), Some("c.log".to_string())];
    let p = prune_plan(&lines, &files, 2).unwrap();
    assert!(p.delete.is_empty());
    assert_eq!(p.index, "r2\nr3\n");
}

#[test]
fn run_record_stamps_start_end_and_outcome() {
    let outcome = AgentOutcome { success: false, detail: "boom".to_string(), exit_code: Some(3), duration_s: 90 };
    let result = RunResult { id: "007".to_string(), succeeded: false, detail: "boom".to_string(), parked: true };
    let rec = run_record(
        "007",
        "agent".to_string(),
        strings(&["agent", "-p", "x"]),
        "/vault".to_string(),
        now(),
        &outcome,
        2,
        &result,
        "20260709T120000Z-007.log".to_string(),
    );
    assert_eq!(rec.id, "007");
    assert_eq!(rec.started_at, "2026-07-09T12:00:00+00:00");
    assert_eq!(rec.ended_at, "2026-07-09T12:01:30+00:00");
    assert_eq!(rec.duration_s, 90);
    assert_eq!(rec.attempt, 2);
    assert_eq!(rec.exit_code, Some(3));
    assert_eq!(rec.outcome, "parked");
    assert_eq!(rec.last_error.as_deref(), Some("boom"));
    assert_eq!(rec.command, strings(&["agent", "-p", "x"]));
    assert_eq!(rec.log_file, "20260709T120000Z-007.log");

    let ok = AgentOutcome { success: true, detail: String::new(), exit_code: Some(0), duration_s: 0 };
    let done = RunResult { id: "007".to_string(), succeeded: true, detail: String::new(), parked: false };
    let rec = run_record("007", "agent".to_string(), Vec::new(), "/v".to_string(), now(), &ok, 1, &done, "f.log".to_string());
    assert_eq!(rec.ended_at, rec.started_at);
    assert_eq!(rec.outcome, "completed");
    assert_eq!(rec.last_error, None);
}

struct Canned {
    seen: std::cell::RefCell<Vec<String>>,
}

impl AgentRunner for Canned {
    fn run(
        &self,
        spec: &AgentSpec,
        prompt: &str,
        working_dir: &str,
        timeout_secs: u64,
        log_path: Option<&str>,
    ) -> AgentOutcome {
        self.seen.borrow_mut().push(format!(
            "{}|{}|{}|{}|{}",
            spec.command.join(" "),
            prompt,
            working_dir,
            timeout_secs,
            log_path.unwrap_or("-")
        ));
        AgentOutcome { success: true, detail: String::new(), exit_code: Some(0), duration_s: 4 }
    }
}

#[test]
fn run_agent_spawns_configured_agent_only() {
    let runner = Canned { seen: std::cell::RefCell::new(Vec::new()) };
    let task = runnable_task("001");
    let (outcome, command) = run_agent(&runner, &cfg(), &task, "do it", "/work", "/logs/a.log");
    assert!(outcome.success);
    assert_eq!(outcome.duration_s, 4);
    assert_eq!(command, strings(&["agent", "-p", "{prompt}"]));
    assert_eq!(runner.seen.borrow().as_slice(), &["agent -p {prompt}|do it|/work|100|/logs/a.log".to_string()]);

    let rogue = parse("---\nid: \"002\"\ntitle: t\nai_agent: rogue\ntags: [ai-runnable]\n---\n");
    let (outcome, command) = run_agent(&runner, &cfg(), &rogue, "do it", "/work", "/logs/b.log");
    assert!(!outcome.success);
    assert_eq!(outcome.detail, "unknown agent `rogue` (not configured in run.agents)");
    assert_eq!(outcome.exit_code, None);
    assert!(command.is_empty());
    assert_eq!(runner.seen.borrow().len(), 1);
}

#[test]
fn run_report_starts_empty() {
    assert!(RunReport::default().ran.is_empty());
}

#[test]
fn agent_name_of_prefers_the_task_override() {
    assert_eq!(agent_name_of(&runnable_task("001"), &cfg()), "agent");
    let t = parse("---\nid: \"002\"\ntitle: t\nai_agent: other\n---\n");
    assert_eq!(agent_name_of(&t, &cfg()), "other");
}

#[test]
fn unknown_agent_run_fails_without_spawning_and_counts_the_attempt() {
    let runner = Canned { seen: std::cell::RefCell::new(Vec::new()) };
    let mut staged = parse("---\nid: \"004\"\ntitle: t\nstatus: pending\ntags: [ai-runnable]\nai_attempts: 1\nai_agent: ghost\n---\n");
    mark_running(&mut staged, now());
    let (outcome, command) = run_agent(&runner, &cfg(), &staged, "p", "/w", "/l.log");
    assert!(runner.seen.borrow().is_empty());
    assert!(command.is_empty());
    let mut after = staged.clone();
    let (r, attempt) = settle(&mut after, "004", &outcome, today(), 2);
    assert!(!r.succeeded);
    assert!(r.detail.contains("unknown agent `ghost`"));
    assert_eq!(attempt, 2);
    assert!(r.parked);
    assert_eq!(read_attempts(&after), 2);
    assert_eq!(after.get_str("ai_status").as_deref(), Some("failed"));
    assert_eq!(after.get_str("ai_last_run").as_deref(), Some("2026-07-09"));
    assert_eq!(after.get_str("ai_run_started"), None);
}
