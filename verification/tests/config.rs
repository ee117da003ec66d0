use karamd::taskmd::config::{Config, IdStrategy, Phase, RunConfig, WebConfig, Workflow};

#[test]
fn defaults_match_spec() {
    let c = Config::default();
    assert_eq!(c.dir, "tasks");
    assert_eq!(c.workflow, Workflow::Solo);
    assert_eq!(c.id.strategy, IdStrategy::Sequential);
    assert_eq!(c.id.length, 6);
    assert_eq!(c.id.padding, 3);
    assert!(c.phases.is_empty());
    assert!(c.scopes.is_empty());
}

#[test]
fn tasks_dir_default() {
    let c = Config::default();
    assert_eq!(c.tasks_dir("/v"), "/v/tasks");
}

#[test]
fn tasks_dir_strips_leading_dot_slash() {
    let mut c = Config::default();
    c.dir = "./work/tasks".into();
    assert_eq!(c.tasks_dir("/v"), "/v/work/tasks");
    c.dir = "/abs/tasks".into();
    assert_eq!(c.tasks_dir("/v"), "/abs/tasks");
}

fn phase(id: Option<&str>, name: &str) -> Phase {
    Phase { id: id.map(String::from), name: name.into(), description: None, due: None }
}

#[test]
fn phase_index_orders_by_config() {
    let mut c = Config::default();
    c.phases = vec![phase(Some("core-cli"), "Core CLI"), phase(None, "Web Dashboard")];
    assert_eq!(c.phases[0].key(), "core-cli");
    assert_eq!(c.phases[1].key(), "Web Dashboard");
    assert_eq!(c.phase_index("core-cli"), Some(0));
    assert_eq!(c.phase_index("Web Dashboard"), Some(1));
    assert_eq!(c.phase_index("nope"), None);
    assert_eq!(Config::default().phase_index("anything"), None);
}

#[test]
fn web_today_defaults_when_absent() {
    let c = Config::default();
    assert_eq!(c.web.today, None);
    assert_eq!(c.web.today_phases(), vec!["ongoing", "now"]);
}

#[test]
fn web_today_parsed_in_order() {
    let w = WebConfig { today: Some(vec!["now".into(), "ongoing".into(), "triage".into()]) };
    assert_eq!(w.today_phases(), vec!["now", "ongoing", "triage"]);
}

#[test]
fn web_today_empty_list_is_respected() {
    let w = WebConfig { today: Some(Vec::new()) };
    assert!(w.today_phases().is_empty());
}

#[test]
fn run_config_defaults_are_off() {
    let c = Config::default();
    assert!(!c.run.enabled);
    assert_eq!(c.run.agent, "agent");
    assert!(c.run.agents.is_empty());
    assert_eq!(c.run.working_dir, None);
    assert_eq!(c.run.timeout_secs, 900);
    assert_eq!(c.run.max_attempts, 3);
    assert!(c.run.prompt_template.contains("{id}"));
    assert_eq!(c.run.log_dir, None);
    assert_eq!(c.run.log_retention, 1000);
    assert_eq!(c.run.resolve_log_dir("/v"), "/v/.karamd/runs");
}

#[test]
fn run_config_parses_log_knobs() {
    let mut r = RunConfig::default();
    r.log_dir = Some("/var/log/karamd".into());
    r.log_retention = 50;
    assert_eq!(r.resolve_log_dir("/v"), "/var/log/karamd");
}

#[test]
fn generator_tasks_dir_defaults_and_drops_dot_slash() {
    assert_eq!(karamd::taskmd::config::generator_tasks_dir("/v", None), "/v/tasks");
    assert_eq!(karamd::taskmd::config::generator_tasks_dir("/v", Some("././work")), "/v/work");
    assert_eq!(karamd::taskmd::config::dir_under("/v", "./a/b"), "/v/a/b");
}
