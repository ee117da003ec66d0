use karamd::query::{eval, parse, EvalCtx, Expr, Field, Op};
use karamd::taskmd::Task;

fn task(yaml: &str) -> Task {
    Task::parse_required(&format!("---\n{yaml}\n---\n")).unwrap()
}

fn matches(query: &str, yaml: &str) -> bool {
    matches_ctx(query, yaml, true)
}

fn matches_ctx(query: &str, yaml: &str, ready: bool) -> bool {
    let expr = parse(query).unwrap();
    eval(&expr, &task(yaml), &EvalCtx { ready })
}

const T: &str = r#"id: "015"
title: "Implement user auth"
status: in-progress
priority: high
effort: large
type: feature
phase: v1
tags: [auth, api]
touches: [cli/graph]
dependencies: ["012"]
owner: patrick
created_at: 2026-02-08
"#;

#[test]
fn simple_field_terms() {
    assert!(matches("status:in-progress", T));
    assert!(!matches("status:pending", T));
    assert!(matches("priority:high", T));
    assert!(matches("effort:large", T));
    assert!(matches("type:feature", T));
    assert!(matches("phase:v1", T));
    assert!(matches("tag:auth", T));
    assert!(matches("tags:api", T));
    assert!(!matches("tag:web", T));
    assert!(matches("owner:patrick", T));
    assert!(matches("scope:cli/graph", T));
    assert!(matches("touches:cli/graph", T));
    assert!(matches("id:015", T));
    assert!(matches("depends:012", T));
    assert!(!matches("depends:404", T));
}

#[test]
fn title_is_case_insensitive_substring() {
    assert!(matches("title:USER", T));
    assert!(matches("title:\"user auth\"", T));
    assert!(!matches("title:database", T));
}

#[test]
fn priority_and_effort_comparisons() {
    assert!(matches("priority>=high", T));
    assert!(matches("priority>=medium", T));
    assert!(!matches("priority>=critical", T));
    assert!(matches("priority>medium", T));
    assert!(!matches("priority>high", T));
    assert!(matches("priority<=high", T));
    assert!(!matches("priority<high", T));
    assert!(matches("effort>medium", T));
    assert!(matches("effort>=large", T));
    assert!(!matches("effort<large", T));
}

#[test]
fn missing_priority_defaults_to_medium_but_missing_effort_never_matches() {
    let bare = "id: \"1\"\ntitle: t";
    assert!(matches("priority:medium", bare));
    assert!(matches("priority>=medium", bare));
    assert!(!matches("priority>=high", bare));
    assert!(!matches("effort:small", bare));
    assert!(!matches("effort<=large", bare));
    assert!(!matches("type:bug", bare));
    assert!(!matches("owner:patrick", bare));
    assert!(!matches("phase:v1", bare));
}

#[test]
fn status_defaults_to_pending() {
    assert!(matches("status:pending", "id: \"1\"\ntitle: t"));
}

#[test]
fn ready_uses_graph_context() {
    assert!(matches_ctx("ready:true", T, true));
    assert!(!matches_ctx("ready:true", T, false));
    assert!(matches_ctx("ready:false", T, false));
}

#[test]
fn open_matches_non_terminal_status() {
    assert!(matches("open:true", T));
    assert!(!matches("open:false", T));
    let bare = "id: \"1\"\ntitle: t";
    assert!(matches("open:true", bare));
    let done = "id: \"1\"\ntitle: t\nstatus: completed";
    assert!(!matches("open:true", done));
    assert!(matches("open:false", done));
    let gone = "id: \"1\"\ntitle: t\nstatus: cancelled";
    assert!(!matches("open:true", gone));
    assert!(matches("open:false", gone));
    assert!(matches("open:true AND tag:auth", T));
}

#[test]
fn date_comparisons() {
    assert!(matches("created:2026-02-08", T));
    assert!(matches("created>=2026-01-01", T));
    assert!(matches("created<2026-03-01", T));
    assert!(!matches("created>2026-02-08", T));
    assert!(matches("created_at:2026-02-08", T));
    assert!(!matches("completed>=2020-01-01", T));
    assert!(!matches("cancelled:2026-01-01", T));
}

#[test]
fn completed_and_cancelled_dates_match_when_present() {
    let done = "id: \"1\"\ntitle: t\nstatus: completed\ncompleted_at: 2026-06-30";
    assert!(matches("completed>=2026-06-01", done));
    let gone = "id: \"1\"\ntitle: t\nstatus: cancelled\ncancelled_at: 2026-06-30";
    assert!(matches("cancelled:2026-06-30", gone));
}

#[test]
fn boolean_combinators_and_precedence() {
    assert!(matches("status:in-progress AND priority>=high", T));
    assert!(!matches("status:pending AND priority>=high", T));
    assert!(matches("status:pending OR priority>=high", T));
    assert!(matches("status:pending OR status:in-progress AND tag:auth", T));
    assert!(!matches("(status:pending OR status:blocked) AND tag:auth", T));
    assert!(matches("(status:pending OR status:in-progress) AND tag:auth", T));
    assert!(matches("NOT status:pending", T));
    assert!(!matches("NOT tag:auth", T));
    assert!(matches("NOT (status:pending AND tag:auth)", T));
    assert!(matches("not status:pending and tag:auth or id:404", T));
}

#[test]
fn group_field_matches_explicit_group() {
    assert!(matches("group:web", "id: \"1\"\ntitle: t\ngroup: web"));
    assert!(!matches("group:web", "id: \"1\"\ntitle: t"));
}

#[test]
fn parse_errors_are_loud_and_specific() {
    for (query, needle) in [
        ("", "empty query"),
        ("   ", "empty query"),
        ("bogus:x", "unknown field `bogus`"),
        ("status:", "empty value"),
        ("pending", "expected `field:value`"),
        ("status:done", "invalid status `done`"),
        ("priority:urgent", "invalid priority"),
        ("effort:epic", "invalid effort"),
        ("type:story", "invalid type"),
        ("ready:maybe", "`ready` takes true or false"),
        ("open:maybe", "`open` takes true or false"),
        ("created:tomorrow", "invalid date"),
        ("title>=x", "only supports `:`"),
        ("status>pending", "only supports `:`"),
        ("(status:pending", "missing closing"),
        ("status:pending)", "unexpected trailing"),
        ("status:pending AND", "expected a term"),
        ("AND status:pending", "expected a term"),
        ("title:\"unterminated", "unterminated quote"),
    ] {
        let err = parse(query).unwrap_err().message();
        assert!(err.contains(needle), "query `{query}`: got `{err}`");
    }
}

#[test]
fn quoted_values_can_contain_spaces_and_parens() {
    assert!(matches("title:\"user auth\"", T));
    let t = "id: \"1\"\ntitle: \"weird (thing)\"";
    assert!(matches("title:\"(thing)\"", t));
}

#[test]
fn nested_parentheses() {
    assert!(matches(
        "((status:in-progress OR status:pending) AND (tag:auth OR tag:web))",
        T
    ));
}

#[test]
fn double_not_cancels() {
    assert!(matches("NOT NOT tag:auth", T));
}

#[test]
fn and_binds_tighter_than_or_in_the_tree() {
    match parse("status:pending OR tag:a AND tag:b").unwrap() {
        Expr::Or(l, r) => {
            assert!(matches!(*l, Expr::Term(ref t) if t.field == Field::Status));
            assert!(matches!(*r, Expr::And(_, _)));
        }
        other => panic!("unexpected tree {other:?}"),
    }
}

#[test]
fn first_operator_found_wins_in_term_split() {
    // `>` is searched for before `:`, so the field text is "title:a".
    let err = parse("title:a>b").unwrap_err().message();
    assert!(err.contains("unknown field `title:a`"), "{err}");
}

#[test]
fn quoted_value_loses_its_quotes_and_keywords_ignore_case() {
    match parse("title:\"a b\"").unwrap() {
        Expr::Term(t) => {
            assert_eq!(t.value, "a b");
            assert_eq!(t.op, Op::Eq);
        }
        other => panic!("unexpected tree {other:?}"),
    }
    assert!(matches("NoT tag:web aNd tag:auth", T));
}
