//! Autonomous task execution: which tasks an agent may run, the prompt and
//! working directory it gets, and the frontmatter markers that track runs.
//!
//! Three locks guard a run: `run.enabled` in the config, the task's
//! [`RUNNABLE_TAG`], and a command taken only from `run.agents`. Attempts are
//! counted before the spawn, and at `max_attempts` a task is parked with
//! [`FAILED_TAG`] and no longer selected. The caller spawns the agent and
//! reads and writes the vault; these functions decide.

use vstd::prelude::*;

use serde_norway::Value;

use crate::date::{Date, format_ymd, spec_format_ymd};
use crate::taskmd::config::{AgentSpec, RunConfig};
use crate::taskmd::model::{Status, Task, list_texts};
use crate::text::{chars_of, contains_str, dec, lemma_parse_dec, parse_u32, parse_u64, parse_unsigned, replace_spec, replace_str, string_of, texts, trim, trim_chars};
use crate::yaml::{
    YamlHead, YamlV, keys_distinct, lemma_upsert, lemma_upsert_other, lemma_without_absent, lemma_without_other, lookup, upsert,
    value_string, value_u64, without, yaml_model, yaml_open,
};

verus! {

/// Tag a task must carry to be eligible.
pub const RUNNABLE_TAG: &'static str = "ai-runnable";

/// Tag added when a task exhausts `max_attempts`; excludes it from selection.
pub const FAILED_TAG: &'static str = "ai-failed";

// ---------------------------------------------------------------------------
// Time

/// A UTC instant: seconds since the Unix epoch and the nanoseconds past
/// them (a leap second shows as 1e9 or more past its `:59` second).
#[derive(Debug, Clone, Copy, PartialEq, Eq, Structural)]
pub struct Timestamp {
    pub secs: i64,
    pub nanos: u32,
}

impl Timestamp {
    /// An instant `chrono` represents: between -262143-01-01 and
    /// +262142-12-31T23:59:59.
    pub open spec fn wf(self) -> bool {
        &&& -8334601228800 <= self.secs <= 8210266876799
        &&& self.nanos < 2_000_000_000
        &&& (self.nanos >= 1_000_000_000 ==> self.secs % 60 == 59)
    }
}

/// Name for what `DateTime::<Utc>::to_rfc3339` prints for an instant.
pub uninterp spec fn spec_rfc3339_text(secs: int, nanos: int) -> Seq<char>;

/// Name for the UTC instant `DateTime::parse_from_rfc3339` reads from a text.
pub uninterp spec fn spec_rfc3339_parse(s: Seq<char>) -> Option<(int, int)>;

/// Name for `(a - b).num_seconds()` on two UTC instants.
pub uninterp spec fn spec_seconds_between(a_secs: int, a_nanos: int, b_secs: int, b_nanos: int) -> int;

/// Name for what `format("%Y%m%dT%H%M%SZ")` prints for a UTC instant.
pub uninterp spec fn spec_log_stamp(secs: int, nanos: int) -> Seq<char>;

/// `DateTime::<Utc>::to_rfc3339` of an instant.
#[verifier::external_body]
fn rfc3339_text(t: Timestamp) -> (r: String)
    requires
        t.wf(),
    ensures
        r@ == spec_rfc3339_text(t.secs as int, t.nanos as int),
{
    chrono::DateTime::from_timestamp(t.secs, t.nanos).unwrap().to_rfc3339()
}

/// `DateTime::parse_from_rfc3339`, taken to UTC.
#[verifier::external_body]
fn rfc3339_parse(s: &str) -> (r: Option<Timestamp>)
    ensures
        match r {
            Some(t) => t.wf() && spec_rfc3339_parse(s@) == Some((t.secs as int, t.nanos as int)),
            None => spec_rfc3339_parse(s@) is None,
        },
{
    match chrono::DateTime::parse_from_rfc3339(s) {
        Ok(d) => {
            let u = d.with_timezone(&chrono::Utc);
            Some(Timestamp { secs: u.timestamp(), nanos: u.timestamp_subsec_nanos() })
        },
        Err(_) => None,
    }
}

/// Whole seconds from `b` to `a`, cut toward zero, for instants off a leap
/// second.
pub open spec fn whole_seconds_between(a_secs: int, a_nanos: int, b_secs: int, b_nanos: int) -> int {
    let d = (a_secs - b_secs) + if a_nanos < b_nanos {
        -1int
    } else {
        0int
    };
    let f = if a_nanos < b_nanos {
        a_nanos - b_nanos + 1_000_000_000
    } else {
        a_nanos - b_nanos
    };
    if d < 0 && f > 0 {
        d + 1
    } else {
        d
    }
}

/// `(a - b).num_seconds()` for two UTC instants: off leap seconds, the
/// whole seconds between them cut toward zero.
#[verifier::external_body]
fn seconds_between(a: Timestamp, b: Timestamp) -> (r: i64)
    requires
        a.wf(),
        b.wf(),
    ensures
        r as int == spec_seconds_between(a.secs as int, a.nanos as int, b.secs as int, b.nanos as int),
        a.nanos < 1_000_000_000 && b.nanos < 1_000_000_000 ==> r as int == whole_seconds_between(
            a.secs as int,
            a.nanos as int,
            b.secs as int,
            b.nanos as int,
        ),
{
    let x = chrono::DateTime::from_timestamp(a.secs, a.nanos).unwrap();
    let y = chrono::DateTime::from_timestamp(b.secs, b.nanos).unwrap();
    (x - y).num_seconds()
}

/// An instant as `YYYYMMDDTHHMMSSZ`.
#[verifier::external_body]
fn log_stamp(t: Timestamp) -> (r: String)
    requires
        t.wf(),
    ensures
        r@ == spec_log_stamp(t.secs as int, t.nanos as int),
{
    chrono::DateTime::from_timestamp(t.secs, t.nanos).unwrap().format("%Y%m%dT%H%M%SZ").to_string()
}

/// Seconds past the epoch of an instant moved by `d` whole seconds; a leap
/// second is left for the second after it (forward) or the one it follows
/// (backward).
pub open spec fn shifted_secs(t: Timestamp, d: int) -> int {
    if t.nanos < 1_000_000_000 || d == 0 {
        t.secs + d
    } else if d > 0 {
        t.secs + d
    } else {
        t.secs + 1 + d
    }
}

/// Nanoseconds past the second of an instant moved by `d` whole seconds.
pub open spec fn shifted_nanos(t: Timestamp, d: int) -> int {
    if t.nanos < 1_000_000_000 || d == 0 {
        t.nanos as int
    } else {
        t.nanos - 1_000_000_000
    }
}

/// Whether a count of seconds past the epoch lies in `chrono`'s range.
pub open spec fn secs_in_range(s: int) -> bool {
    -8334601228800 <= s <= 8210266876799
}

/// `DateTime::<Utc> + TimeDelta::seconds(d)`: the instant `d` whole seconds
/// later (earlier when negative), never landing on a leap second unless
/// `d` is zero.
#[verifier::external_body]
fn add_seconds(t: Timestamp, d: i64) -> (r: Timestamp)
    requires
        t.wf(),
        secs_in_range(shifted_secs(t, d as int)),
    ensures
        r.secs as int == shifted_secs(t, d as int),
        r.nanos as int == shifted_nanos(t, d as int),
        r.wf(),
{
    let x = chrono::DateTime::from_timestamp(t.secs, t.nanos).unwrap() + chrono::TimeDelta::seconds(d);
    Timestamp { secs: x.timestamp(), nanos: x.timestamp_subsec_nanos() }
}

/// The per-run `.log` filename: the run's start stamp and the task id.
pub fn run_log_filename(started: Timestamp, id: &str) -> (r: String)
    requires
        started.wf(),
    ensures
        r@ == spec_log_stamp(started.secs as int, started.nanos as int) + "-"@ + id@ + ".log"@,
{
    let mut s = log_stamp(started);
    s.append("-");
    s.append(id);
    s.append(".log");
    s
}

// ---------------------------------------------------------------------------
// Reading the markers

/// A value with its tags peeled off (what `as_str`/`as_u64` look through).
pub open spec fn untag(y: YamlV) -> YamlV
    decreases y,
{
    match y {
        YamlV::Tagged(_, b) => untag(*b),
        _ => y,
    }
}

pub open spec fn head_is(h: YamlHead, y: YamlV) -> bool {
    match h {
        YamlHead::Null => y == YamlV::Null,
        YamlHead::Bool(b) => y == YamlV::Bool(b),
        YamlHead::Num(s) => y == YamlV::Num(s@),
        YamlHead::Str(s) => y == YamlV::Str(s@),
        YamlHead::Sequence => y is Sequence,
        YamlHead::Dict => y is Dict,
        YamlHead::Tagged(_) => false,
    }
}

/// The outermost layer of a value under its tags.
fn plain_head(v: &Value) -> (r: YamlHead)
    ensures
        head_is(r, untag(yaml_model(*v))),
    decreases yaml_model(*v),
{
    let (h, kids) = yaml_open(v);
    match h {
        YamlHead::Tagged(_) => {
            proof {
                assert(yaml_model(*v) matches YamlV::Tagged(_, b) && *b == yaml_model(kids@[0]));
            }
            plain_head(&kids[0])
        },
        _ => h,
    }
}

/// A marker read as a string (`Value::as_str`).
pub open spec fn str_of(f: Option<YamlV>) -> Option<Seq<char>> {
    match f {
        Some(y) => match untag(y) {
            YamlV::Str(s) => Some(s),
            _ => None,
        },
        None => None,
    }
}

/// The attempt count a marker holds: an unsigned number (cut to 32 bits), or
/// a string holding one; anything else counts as 0.
pub open spec fn attempts_of(f: Option<YamlV>) -> int {
    match f {
        Some(y) => match untag(y) {
            YamlV::Num(t) => match parse_unsigned(t, u64::MAX as int) {
                Some(n) => n % 0x1_0000_0000,
                None => 0,
            },
            YamlV::Str(s) => match parse_unsigned(s, u32::MAX as int) {
                Some(n) => n,
                None => 0,
            },
            _ => 0,
        },
        None => 0,
    }
}

/// A frontmatter value read as a string.
fn str_field(task: &Task, key: &str) -> (r: Option<String>)
    ensures
        crate::text::opt_text(r) == str_of(task.field(key@)),
{
    match task.get(key) {
        Some(v) => match plain_head(v) {
            YamlHead::Str(s) => Some(s),
            _ => None,
        },
        None => None,
    }
}

/// Current attempt count, tolerating a hand-edited string value.
pub fn read_attempts(task: &Task) -> (r: u32)
    ensures
        r as int == attempts_of(task.field("ai_attempts"@)),
{
    match task.get("ai_attempts") {
        Some(v) => match plain_head(v) {
            YamlHead::Num(t) => {
                let c = chars_of(t.as_str());
                match parse_u64(c.as_slice()) {
                    Some(n) => (n % 0x1_0000_0000) as u32,
                    None => 0,
                }
            },
            YamlHead::Str(s) => {
                let c = chars_of(s.as_str());
                match parse_u32(c.as_slice()) {
                    Some(n) => n,
                    None => 0,
                }
            },
            _ => 0,
        },
        None => 0,
    }
}

/// Whether a `running` marker started at `started` is stale at `now`: older
/// than twice the timeout, or missing or unreadable.
pub open spec fn stale_spec(started: Option<Seq<char>>, now: Timestamp, timeout: u64) -> bool {
    match started {
        None => true,
        Some(s) => match spec_rfc3339_parse(s) {
            None => true,
            Some(p) => spec_seconds_between(now.secs as int, now.nanos as int, p.0, p.1) >= (((2 * timeout) as u64) as i64) as int,
        },
    }
}

/// Is a `running` marker stale (a crashed leftover) rather than a run in
/// flight?
pub fn is_stale(started: Option<&str>, now: Timestamp, timeout_secs: u64) -> (r: bool)
    requires
        now.wf(),
        timeout_secs <= u64::MAX / 2,
    ensures
        r == stale_spec(crate::taskmd::template::opt_str_view(started), now, timeout_secs),
{
    match started {
        Some(s) => match rfc3339_parse(s) {
            Some(t) => seconds_between(now, t) >= (2 * timeout_secs) as i64,
            None => true,
        },
        None => true,
    }
}

pub open spec fn marked_running(t: Task) -> bool {
    str_of(t.field("ai_status"@)) == Some("running"@)
}

/// Locked: marked `running` by a run that is still fresh.
pub open spec fn locked_spec(t: Task, timeout: u64, now: Timestamp) -> bool {
    marked_running(t) && !stale_spec(str_of(t.field("ai_run_started"@)), now, timeout)
}

/// Marked `running`, but by a dead run.
pub open spec fn running_stale_spec(t: Task, timeout: u64, now: Timestamp) -> bool {
    marked_running(t) && stale_spec(str_of(t.field("ai_run_started"@)), now, timeout)
}

fn is_marked_running(task: &Task) -> (r: bool)
    ensures
        r == marked_running(*task),
{
    match str_field(task, "ai_status") {
        Some(s) => crate::text::str_eq(s.as_str(), "running"),
        None => false,
    }
}

fn started_is_stale(task: &Task, now: Timestamp, timeout_secs: u64) -> (r: bool)
    requires
        now.wf(),
        timeout_secs <= u64::MAX / 2,
    ensures
        r == stale_spec(str_of(task.field("ai_run_started"@)), now, timeout_secs),
{
    match str_field(task, "ai_run_started") {
        Some(s) => is_stale(Some(s.as_str()), now, timeout_secs),
        None => is_stale(None, now, timeout_secs),
    }
}

/// A task locked by a fresh run is skipped by an overlapping invocation.
pub fn is_locked(task: &Task, cfg: &RunConfig, now: Timestamp) -> (r: bool)
    requires
        now.wf(),
        cfg.timeout_secs <= u64::MAX / 2,
    ensures
        r == locked_spec(*task, cfg.timeout_secs, now),
{
    is_marked_running(task) && !started_is_stale(task, now, cfg.timeout_secs)
}

/// True when a task shows `running` but its marker is stale: a dead run
/// that should be rewritten as not running.
pub fn is_running_stale(task: &Task, timeout_secs: u64, now: Timestamp) -> (r: bool)
    requires
        now.wf(),
        timeout_secs <= u64::MAX / 2,
    ensures
        r == running_stale_spec(*task, timeout_secs, now),
{
    is_marked_running(task) && started_is_stale(task, now, timeout_secs)
}

pub open spec fn terminal(s: Status) -> bool {
    s == Status::Completed || s == Status::Cancelled
}

/// Eligible iff tagged runnable, not parked, not terminal, under the
/// attempt cap, and not locked by a fresh run.
pub open spec fn runnable_spec(t: Task, cfg: RunConfig, now: Timestamp) -> bool {
    &&& t.list("tags"@).contains(RUNNABLE_TAG@)
    &&& !t.list("tags"@).contains(FAILED_TAG@)
    &&& !terminal(t.effective_status_spec())
    &&& attempts_of(t.field("ai_attempts"@)) < cfg.max_attempts
    &&& !locked_spec(t, cfg.timeout_secs, now)
}

/// The selection predicate.
pub fn is_runnable(task: &Task, cfg: &RunConfig, now: Timestamp) -> (r: bool)
    requires
        now.wf(),
        cfg.timeout_secs <= u64::MAX / 2,
    ensures
        r == runnable_spec(*task, *cfg, now),
{
    let tags = task.tags();
    contains_str(&tags, RUNNABLE_TAG) && !contains_str(&tags, FAILED_TAG) && !task.effective_status().is_terminal()
        && read_attempts(task) < cfg.max_attempts && !is_locked(task, cfg, now)
}

// ---------------------------------------------------------------------------
// Prompt, working directory, agent

/// The prompt: the template with `{id}`, `{title}`, `{body}` (trimmed) and
/// `{path}` filled in, in that order.
pub open spec fn prompt_spec(template: Seq<char>, t: Task, path: Seq<char>) -> Seq<char> {
    replace_spec(
        replace_spec(replace_spec(replace_spec(template, "{id}"@, t.id_spec()), "{title}"@, t.title_spec()), "{body}"@, trim(t.body@)),
        "{path}"@,
        path,
    )
}

/// Render the prompt from the template for a task at `path`.
pub fn render_prompt(template: &str, task: &Task, path: &str) -> (r: String)
    ensures
        r@ == prompt_spec(template@, *task, path@),
{
    let id = task.id();
    let title = task.title();
    let bc = chars_of(task.body.as_str());
    let body = string_of(trim_chars(&bc).as_slice());
    let a = replace_str(template, "{id}", id.as_str());
    let b = replace_str(a.as_str(), "{title}", title.as_str());
    let c = replace_str(b.as_str(), "{body}", body.as_str());
    replace_str(c.as_str(), "{path}", path)
}

/// Where the agent runs: the task's `ai_working_dir`, else the config's
/// `working_dir`, else the vault root.
pub open spec fn working_dir_spec(t: Task, cfg: RunConfig, root: Seq<char>) -> Seq<char> {
    match str_of(t.field("ai_working_dir"@)) {
        Some(d) => d,
        None => match cfg.working_dir {
            Some(d) => d@,
            None => root,
        },
    }
}

pub fn resolve_working_dir(task: &Task, cfg: &RunConfig, vault_root: &str) -> (r: String)
    ensures
        r@ == working_dir_spec(*task, *cfg, vault_root@),
{
    match str_field(task, "ai_working_dir") {
        Some(d) => d,
        None => match &cfg.working_dir {
            Some(d) => d.clone(),
            None => vault_root.to_owned(),
        },
    }
}

/// The agent name a task uses: its `ai_agent`, else the config default.
pub open spec fn agent_name(t: Task, cfg: RunConfig) -> Seq<char> {
    match str_of(t.field("ai_agent"@)) {
        Some(n) => n,
        None => cfg.agent@,
    }
}

/// The agent name a task uses, as text.
pub fn agent_name_of(task: &Task, cfg: &RunConfig) -> (r: String)
    ensures
        r@ == agent_name(*task, *cfg),
{
    match str_field(task, "ai_agent") {
        Some(n) => n,
        None => cfg.agent.clone(),
    }
}

/// Position of the agent of a name among the configured ones.
pub open spec fn agent_index(agents: Seq<(String, AgentSpec)>, name: Seq<char>) -> Option<int>
    decreases agents.len(),
{
    if agents.len() == 0 {
        None
    } else if agents[0].0@ == name {
        Some(0)
    } else {
        match agent_index(agents.drop_first(), name) {
            Some(i) => Some(i + 1),
            None => None,
        }
    }
}

proof fn lemma_agent_index(agents: Seq<(String, AgentSpec)>, name: Seq<char>)
    ensures
        agent_index(agents, name) matches Some(i) ==> 0 <= i < agents.len() && agents[i].0@ == name && forall|j: int|
            0 <= j < i ==> agents[j].0@ != name,
        agent_index(agents, name) is None ==> forall|j: int| 0 <= j < agents.len() ==> agents[j].0@ != name,
    decreases agents.len(),
{
    if agents.len() > 0 && agents[0].0@ != name {
        lemma_agent_index(agents.drop_first(), name);
        assert forall|j: int| 1 <= j < agents.len() implies agents[j] == agents.drop_first()[j - 1] by {}
    }
}

pub open spec fn unknown_agent_text(name: Seq<char>) -> Seq<char> {
    "unknown agent `"@ + name + "` (not configured in run.agents)"@
}

/// Resolve the configured agent a task uses. An unknown name is an error,
/// never an arbitrary command.
pub fn resolve_agent<'a>(cfg: &'a RunConfig, task: &Task) -> (r: Result<&'a AgentSpec, String>)
    ensures
        match agent_index(cfg.agents@, agent_name(*task, *cfg)) {
            Some(i) => r matches Ok(a) && *a == cfg.agents@[i].1,
            None => r matches Err(e) && e@ == unknown_agent_text(agent_name(*task, *cfg)),
        },
{
    let name = match str_field(task, "ai_agent") {
        Some(n) => n,
        None => cfg.agent.clone(),
    };
    proof {
        lemma_agent_index(cfg.agents@, name@);
    }
    let mut i: usize = 0;
    while i < cfg.agents.len()
        invariant
            i <= cfg.agents.len(),
            name@ == agent_name(*task, *cfg),
            forall|j: int| 0 <= j < i ==> cfg.agents@[j].0@ != name@,
        decreases cfg.agents.len() - i,
    {
        if crate::text::str_eq(cfg.agents[i].0.as_str(), name.as_str()) {
            proof {
                lemma_agent_index(cfg.agents@, name@);
                match agent_index(cfg.agents@, name@) {
                    Some(k) => {
                        if k < i {
                            assert(cfg.agents@[k].0@ != name@);
                        } else if k > i {
                            assert(cfg.agents@[i as int].0@ != name@);
                        }
                    },
                    None => {
                        assert(cfg.agents@[i as int].0@ != name@);
                    },
                }
            }
            return Ok(&cfg.agents[i].1);
        }
        i += 1;
    }
    let mut e = "unknown agent `".to_owned();
    e.append(name.as_str());
    e.append("` (not configured in run.agents)");
    Err(e)
}

/// Substitute every `token` occurrence in an argv with `value`.
pub fn substitute_prompt(args: &[String], token: &str, value: &str) -> (r: Vec<String>)
    ensures
        r.len() == args.len(),
        forall|i: int| 0 <= i < args.len() ==> #[trigger] r@[i]@ == replace_spec(args@[i]@, token@, value@),
{
    let mut out: Vec<String> = Vec::new();
    let mut i: usize = 0;
    while i < args.len()
        invariant
            i <= args.len(),
            out.len() == i,
            forall|j: int| 0 <= j < i ==> #[trigger] out@[j]@ == replace_spec(args@[j]@, token@, value@),
        decreases args.len() - i,
    {
        out.push(replace_str(args[i].as_str(), token, value));
        i += 1;
    }
    out
}

// ---------------------------------------------------------------------------
// Writing the markers

/// The frontmatter after the pre-run write: one more attempt, the running
/// lock and its start.
pub open spec fn running_fm(fm: Seq<(YamlV, YamlV)>, now: Timestamp) -> Seq<(YamlV, YamlV)> {
    let next = attempts_of(lookup(fm, "ai_attempts"@)) + 1;
    upsert(
        upsert(upsert(fm, "ai_attempts"@, YamlV::Num(dec(next as nat))), "ai_status"@, YamlV::Str("running"@)),
        "ai_run_started"@,
        YamlV::Str(spec_rfc3339_text(now.secs as int, now.nanos as int)),
    )
}

/// Pre-run marker write: count the attempt (before the spawn, so a crash
/// still costs one) and take the running lock.
pub fn mark_running(task: &mut Task, now: Timestamp)
    requires
        now.wf(),
        attempts_of(old(task).field("ai_attempts"@)) < u32::MAX,
    ensures
        final(task).fm() == running_fm(old(task).fm(), now),
        final(task).wf(),
        final(task).same_besides_fm(*old(task)),
{
    let next = read_attempts(task) + 1;
    task.set("ai_attempts", value_u64(next as u64));
    task.set("ai_status", value_string("running"));
    let stamp = rfc3339_text(now);
    task.set("ai_run_started", value_string(stamp.as_str()));
}

/// The frontmatter without the runtime markers.
pub open spec fn cleared_fm(fm: Seq<(YamlV, YamlV)>) -> Seq<(YamlV, YamlV)> {
    without(without(without(without(without(fm, "ai_status"@), "ai_run_started"@), "ai_last_error"@), "ai_last_run"@), "ai_attempts"@)
}

/// Clear every runtime marker on success (`ai_working_dir`/`ai_agent` are
/// user settings and stay).
pub fn record_success(task: &mut Task)
    ensures
        final(task).fm() == cleared_fm(old(task).fm()),
        final(task).wf(),
        final(task).same_besides_fm(*old(task)),
{
    task.remove("ai_status");
    task.remove("ai_run_started");
    task.remove("ai_last_error");
    task.remove("ai_last_run");
    task.remove("ai_attempts");
}

/// The failure stamp: status `failed`, the error, today's date, no lock.
pub open spec fn failed_fm(fm: Seq<(YamlV, YamlV)>, detail: Seq<char>, today: Date) -> Seq<(YamlV, YamlV)> {
    without(
        upsert(
            upsert(upsert(fm, "ai_status"@, YamlV::Str("failed"@)), "ai_last_error"@, YamlV::Str(detail)),
            "ai_last_run"@,
            YamlV::Str(spec_format_ymd(today.year as int, today.month as int, today.day as int)),
        ),
        "ai_run_started"@,
    )
}

/// After a failure: the stamp, and the park tag once the attempts reach the
/// cap (added once).
pub open spec fn after_failure_fm(fm: Seq<(YamlV, YamlV)>, detail: Seq<char>, today: Date, max_attempts: u32) -> Seq<(YamlV, YamlV)> {
    let f = failed_fm(fm, detail, today);
    let tags = list_texts(lookup(f, "tags"@));
    if attempts_of(lookup(f, "ai_attempts"@)) >= max_attempts && !tags.contains(FAILED_TAG@) {
        upsert(f, "tags"@, YamlV::Sequence(tags.push(FAILED_TAG@).map_values(|t: Seq<char>| YamlV::Str(t))))
    } else {
        f
    }
}

/// Record a failed run; park the task with [`FAILED_TAG`] once the
/// (already counted) attempts reach the cap.
pub fn record_failure(task: &mut Task, detail: &str, today: Date, max_attempts: u32)
    requires
        today.wf(),
    ensures
        final(task).fm() == after_failure_fm(old(task).fm(), detail@, today, max_attempts),
        final(task).wf(),
        final(task).same_besides_fm(*old(task)),
{
    task.set("ai_status", value_string("failed"));
    task.set("ai_last_error", value_string(detail));
    let d = format_ymd(today);
    task.set("ai_last_run", value_string(d.as_str()));
    task.remove("ai_run_started");
    if read_attempts(task) >= max_attempts {
        let mut tags = task.tags();
        if !contains_str(&tags, FAILED_TAG) {
            let ghost before = tags@;
            tags.push(FAILED_TAG.to_owned());
            proof {
                assert(texts(tags@) =~= texts(before).push(FAILED_TAG@));
                assert(tags@.map_values(|s: String| YamlV::Str(s@)) =~= texts(tags@).map_values(
                    |t: Seq<char>| YamlV::Str(t),
                ));
            }
            task.set_tags(tags.as_slice());
        }
    }
}

/// Drop a dead run's lock (the attempt count stays: cleaning up is not a
/// new attempt).
pub fn clear_running(task: &mut Task)
    ensures
        final(task).fm() == without(without(old(task).fm(), "ai_status"@), "ai_run_started"@),
        final(task).wf(),
        final(task).same_besides_fm(*old(task)),
{
    task.remove("ai_status");
    task.remove("ai_run_started");
}

// ---------------------------------------------------------------------------
// Outcomes

/// What one agent invocation produced. Spawn errors and timeouts come as
/// `success: false` with a `detail`.
#[derive(Debug, Clone, PartialEq, Eq)]
pub struct AgentOutcome {
    pub success: bool,
    pub detail: String,
    /// Exit code when the agent ran to completion.
    pub exit_code: Option<i32>,
    /// Seconds the agent ran (0 when it never started).
    pub duration_s: i64,
}

/// Outcome of running one task.
#[derive(Debug, Clone, PartialEq, Eq)]
pub struct RunResult {
    pub id: String,
    pub succeeded: bool,
    /// Failure reason (empty on success).
    pub detail: String,
    /// This failure reached `max_attempts` and parked the task.
    pub parked: bool,
}

/// Success needs exit 0 and a terminal status on the re-read task.
pub open spec fn verdict(success: bool, detail: Seq<char>, is_terminal: bool) -> (bool, Seq<char>) {
    if success && is_terminal {
        (true, Seq::empty())
    } else if success {
        (false, "agent exited 0 but did not mark the task complete"@)
    } else {
        (false, detail)
    }
}

/// Settle a run on the re-read task: success clears the markers, failure
/// stamps them (and may park). Returns the result and the attempt number as
/// run.
pub fn settle(after: &mut Task, id: &str, outcome: &AgentOutcome, today: Date, max_attempts: u32) -> (r: (RunResult, u32))
    requires
        today.wf(),
    ensures
        ({
            let v = verdict(outcome.success, outcome.detail@, terminal(old(after).effective_status_spec()));
            &&& r.0.id@ == id@
            &&& r.0.succeeded == v.0
            &&& r.0.detail@ == v.1
            &&& r.1 as int == attempts_of(old(after).field("ai_attempts"@))
            &&& final(after).fm() == if v.0 {
                cleared_fm(old(after).fm())
            } else {
                after_failure_fm(old(after).fm(), v.1, today, max_attempts)
            }
            &&& r.0.parked == final(after).list("tags"@).contains(FAILED_TAG@)
        }),
        final(after).same_besides_fm(*old(after)),
{
    let attempt = read_attempts(after);
    let is_terminal = after.effective_status().is_terminal();
    let (succeeded, detail) = if outcome.success && is_terminal {
        (true, String::new())
    } else if outcome.success {
        (false, "agent exited 0 but did not mark the task complete".to_owned())
    } else {
        (false, outcome.detail.clone())
    };
    if succeeded {
        record_success(after);
    } else {
        record_failure(after, detail.as_str(), today, max_attempts);
    }
    let tags = after.tags();
    let parked = contains_str(&tags, FAILED_TAG);
    (RunResult { id: id.to_owned(), succeeded, detail, parked }, attempt)
}

/// The outcome word of a run record.
pub fn outcome_label(succeeded: bool, parked: bool) -> (r: &'static str)
    ensures
        r@ == (if succeeded {
            "completed"@
        } else if parked {
            "parked"@
        } else {
            "failed"@
        }),
{
    if succeeded {
        "completed"
    } else if parked {
        "parked"
    } else {
        "failed"
    }
}

/// One human-readable status line for a finished run.
pub open spec fn result_line(r: RunResult) -> Seq<char> {
    if r.succeeded {
        "karamd: ran "@ + r.id@ + " -> completed"@
    } else if r.parked {
        "karamd: ran "@ + r.id@ + " -> failed, parked (ai-failed): "@ + r.detail@
    } else {
        "karamd: ran "@ + r.id@ + " -> failed: "@ + r.detail@
    }
}

pub fn render_result_line(r: &RunResult) -> (s: String)
    ensures
        s@ == result_line(*r),
{
    let mut s = "karamd: ran ".to_owned();
    s.append(r.id.as_str());
    if r.succeeded {
        s.append(" -> completed");
    } else if r.parked {
        s.append(" -> failed, parked (ai-failed): ");
        s.append(r.detail.as_str());
    } else {
        s.append(" -> failed: ");
        s.append(r.detail.as_str());
    }
    s
}

/// What one `run` invocation did, in the order the tasks ran.
#[derive(Debug, PartialEq, Eq)]
pub struct RunReport {
    pub ran: Vec<RunResult>,
}

impl Default for RunReport {
    fn default() -> (r: RunReport)
        ensures
            r.ran@.len() == 0,
    {
        RunReport { ran: Vec::new() }
    }
}

/// One durable per-run record: a line of `runs.jsonl` pointing at the `.log`
/// file that holds the agent's output.
#[derive(Debug, Clone, PartialEq, Eq)]
pub struct RunRecord {
    pub id: String,
    pub agent: String,
    pub command: Vec<String>,
    pub working_dir: String,
    pub started_at: String,
    pub ended_at: String,
    pub duration_s: i64,
    pub attempt: u32,
    pub exit_code: Option<i32>,
    /// `completed`, `failed` or `parked`.
    pub outcome: String,
    pub last_error: Option<String>,
    /// The per-run `.log` filename, relative to the log directory.
    pub log_file: String,
}

/// The record of a finished run: its start and end as RFC 3339 text (the
/// end being the start moved by the run's duration), the outcome word, and
/// the failure reason when there is one.
pub fn run_record(
    id: &str,
    agent: String,
    command: Vec<String>,
    working_dir: String,
    started: Timestamp,
    outcome: &AgentOutcome,
    attempt: u32,
    result: &RunResult,
    log_file: String,
) -> (r: RunRecord)
    requires
        started.wf(),
        secs_in_range(shifted_secs(started, outcome.duration_s as int)),
    ensures
        r.id@ == id@,
        r.agent == agent,
        r.command == command,
        r.working_dir == working_dir,
        r.started_at@ == spec_rfc3339_text(started.secs as int, started.nanos as int),
        r.ended_at@ == spec_rfc3339_text(
            shifted_secs(started, outcome.duration_s as int),
            shifted_nanos(started, outcome.duration_s as int),
        ),
        r.duration_s == outcome.duration_s,
        r.attempt == attempt,
        r.exit_code == outcome.exit_code,
        r.outcome@ == (if result.succeeded {
            "completed"@
        } else if result.parked {
            "parked"@
        } else {
            "failed"@
        }),
        match r.last_error {
            Some(e) => result.detail@.len() > 0 && e@ == result.detail@,
            None => result.detail@.len() == 0,
        },
        r.log_file == log_file,
{
    let ended = add_seconds(started, outcome.duration_s);
    let last_error = if result.detail.as_str().is_empty() {
        None
    } else {
        Some(result.detail.clone())
    };
    RunRecord {
        id: id.to_owned(),
        agent,
        command,
        working_dir,
        started_at: rfc3339_text(started),
        ended_at: rfc3339_text(ended),
        duration_s: outcome.duration_s,
        attempt,
        exit_code: outcome.exit_code,
        outcome: outcome_label(result.succeeded, result.parked).to_owned(),
        last_error,
        log_file,
    }
}

/// Spawns one agent with a prompt in a working directory, giving up after
/// `timeout_secs`; with a `log_path` it also copies the agent's output to
/// that file. A spawn error or a timeout comes back as a failed outcome.
pub trait AgentRunner {
    fn run(
        &self,
        spec: &AgentSpec,
        prompt: &str,
        working_dir: &str,
        timeout_secs: u64,
        log_path: Option<&str>,
    ) -> AgentOutcome;
}

/// Run the task's agent through `runner`, or fail without spawning anything
/// when the task names an agent that is not configured. The runner gets the
/// configured agent, the prompt, the working directory, the configured
/// timeout and the log path, and its outcome is passed on unchanged. Returns
/// that outcome and the command the agent was given (empty when nothing ran).
pub fn run_agent<R: AgentRunner>(
    runner: &R,
    cfg: &RunConfig,
    staged: &Task,
    prompt: &str,
    working_dir: &str,
    log_path: &str,
) -> (r: (AgentOutcome, Vec<String>))
    ensures
        match agent_index(cfg.agents@, agent_name(*staged, *cfg)) {
            Some(i) => {
                &&& r.1@ == cfg.agents@[i].1.command@
                &&& call_ensures(
                    R::run,
                    (runner, &cfg.agents@[i].1, prompt, working_dir, cfg.timeout_secs, Some(log_path)),
                    r.0,
                )
            },
            None => {
                &&& !r.0.success
                &&& r.0.detail@ == unknown_agent_text(agent_name(*staged, *cfg))
                &&& r.0.exit_code is None
                &&& r.0.duration_s == 0
                &&& r.1@.len() == 0
            },
        },
{
    match resolve_agent(cfg, staged) {
        Ok(spec) => {
            let outcome = runner.run(spec, prompt, working_dir, cfg.timeout_secs, Some(log_path));
            let command = spec.command.clone();
            proof {
                assert(command@ =~= spec.command@);
            }
            (outcome, command)
        },
        Err(detail) => (AgentOutcome { success: false, detail, exit_code: None, duration_s: 0 }, Vec::new()),
    }
}

// ---------------------------------------------------------------------------
// Selection over a scan

/// Ids of the first `n` tasks that satisfy `keep`, in order.
pub open spec fn ids_where(ts: Seq<Task>, keep: spec_fn(Task) -> bool, n: int) -> Seq<Seq<char>>
    decreases n,
{
    if n <= 0 {
        Seq::empty()
    } else {
        let prev = ids_where(ts, keep, n - 1);
        if keep(ts[n - 1]) {
            prev.push(ts[n - 1].id_spec())
        } else {
            prev
        }
    }
}

/// The ids a run would execute now, without changing anything: none when
/// runs are disabled.
pub fn runnable_ids(tasks: &[Task], cfg: &RunConfig, now: Timestamp) -> (r: Vec<String>)
    requires
        now.wf(),
        cfg.timeout_secs <= u64::MAX / 2,
    ensures
        !cfg.enabled ==> r.len() == 0,
        cfg.enabled ==> texts(r@) == ids_where(tasks@, |t: Task| runnable_spec(t, *cfg, now), tasks.len() as int),
{
    let mut out: Vec<String> = Vec::new();
    if !cfg.enabled {
        return out;
    }
    let mut i: usize = 0;
    while i < tasks.len()
        invariant
            i <= tasks.len(),
            now.wf(),
            cfg.timeout_secs <= u64::MAX / 2,
            texts(out@) == ids_where(tasks@, |t: Task| runnable_spec(t, *cfg, now), i as int),
        decreases tasks.len() - i,
    {
        if is_runnable(&tasks[i], cfg, now) {
            let ghost before = out@;
            out.push(tasks[i].id());
            proof {
                assert(texts(out@) =~= texts(before).push(tasks@[i as int].id_spec()));
            }
        }
        i += 1;
    }
    out
}

/// Ids of the tasks marked `running` by a dead run.
pub fn stale_ids(tasks: &[Task], timeout_secs: u64, now: Timestamp) -> (r: Vec<String>)
    requires
        now.wf(),
        timeout_secs <= u64::MAX / 2,
    ensures
        texts(r@) == ids_where(tasks@, |t: Task| running_stale_spec(t, timeout_secs, now), tasks.len() as int),
{
    let mut out: Vec<String> = Vec::new();
    let mut i: usize = 0;
    while i < tasks.len()
        invariant
            i <= tasks.len(),
            now.wf(),
            timeout_secs <= u64::MAX / 2,
            texts(out@) == ids_where(tasks@, |t: Task| running_stale_spec(t, timeout_secs, now), i as int),
        decreases tasks.len() - i,
    {
        if is_running_stale(&tasks[i], timeout_secs, now) {
            let ghost before = out@;
            out.push(tasks[i].id());
            proof {
                assert(texts(out@) =~= texts(before).push(tasks@[i as int].id_spec()));
            }
        }
        i += 1;
    }
    out
}

/// The first runnable task, in scan order, not yet run in this invocation.
pub open spec fn next_spec(ts: Seq<Task>, cfg: RunConfig, now: Timestamp, done: Seq<Seq<char>>) -> Option<int>
    decreases ts.len(),
{
    if ts.len() == 0 {
        None
    } else if runnable_spec(ts[0], cfg, now) && !done.contains(ts[0].id_spec()) {
        Some(0)
    } else {
        match next_spec(ts.drop_first(), cfg, now, done) {
            Some(i) => Some(i + 1),
            None => None,
        }
    }
}

proof fn lemma_next_spec(ts: Seq<Task>, cfg: RunConfig, now: Timestamp, done: Seq<Seq<char>>)
    ensures
        next_spec(ts, cfg, now, done) matches Some(i) ==> 0 <= i < ts.len() && runnable_spec(ts[i], cfg, now)
            && !done.contains(ts[i].id_spec()) && forall|j: int|
            0 <= j < i ==> !(runnable_spec(#[trigger] ts[j], cfg, now) && !done.contains(ts[j].id_spec())),
        next_spec(ts, cfg, now, done) is None ==> forall|j: int|
            0 <= j < ts.len() ==> !(runnable_spec(#[trigger] ts[j], cfg, now) && !done.contains(ts[j].id_spec())),
    decreases ts.len(),
{
    if ts.len() > 0 && !(runnable_spec(ts[0], cfg, now) && !done.contains(ts[0].id_spec())) {
        lemma_next_spec(ts.drop_first(), cfg, now, done);
        assert forall|j: int| 1 <= j < ts.len() implies #[trigger] ts[j] == ts.drop_first()[j - 1] by {}
    }
}

/// Whether the per-invocation cap is reached (`0` means no cap).
pub fn cap_reached(cap: usize, ran: usize) -> (r: bool)
    ensures
        r == (cap != 0 && ran >= cap),
{
    cap != 0 && ran >= cap
}

/// The next task to run: the first runnable one not run yet in this
/// invocation, so a failure is retried on the next invocation, not in a
/// tight loop.
pub fn next_to_run(tasks: &[Task], cfg: &RunConfig, now: Timestamp, done: &Vec<String>) -> (r: Option<String>)
    requires
        now.wf(),
        cfg.timeout_secs <= u64::MAX / 2,
    ensures
        match next_spec(tasks@, *cfg, now, texts(done@)) {
            Some(i) => r matches Some(id) && id@ == tasks@[i].id_spec(),
            None => r is None,
        },
{
    proof {
        lemma_next_spec(tasks@, *cfg, now, texts(done@));
    }
    let mut i: usize = 0;
    while i < tasks.len()
        invariant
            i <= tasks.len(),
            now.wf(),
            cfg.timeout_secs <= u64::MAX / 2,
            forall|j: int|
                0 <= j < i ==> !(runnable_spec(#[trigger] tasks@[j], *cfg, now) && !texts(done@).contains(tasks@[j].id_spec())),
        decreases tasks.len() - i,
    {
        if is_runnable(&tasks[i], cfg, now) {
            let id = tasks[i].id();
            if !contains_str(done, id.as_str()) {
                proof {
                    let ghost ok = runnable_spec(tasks@[i as int], *cfg, now) && !texts(done@).contains(tasks@[i as int].id_spec());
                    assert(ok);
                    lemma_next_spec(tasks@, *cfg, now, texts(done@));
                    match next_spec(tasks@, *cfg, now, texts(done@)) {
                        Some(k) => {
                            if k < i {
                                assert(!(runnable_spec(tasks@[k], *cfg, now) && !texts(done@).contains(tasks@[k].id_spec())));
                            } else if k > i {
                                assert(!(runnable_spec(tasks@[i as int], *cfg, now) && !texts(done@).contains(tasks@[i as int].id_spec())));
                            }
                        },
                        None => {
                            assert(!(runnable_spec(tasks@[i as int], *cfg, now) && !texts(done@).contains(tasks@[i as int].id_spec())));
                        },
                    }
                }
                return Some(id);
            }
        }
        i += 1;
    }
    None
}

// ---------------------------------------------------------------------------
// Run-log retention

/// What pruning the run index does: the index text to write back and the
/// `.log` files to delete.
#[derive(Debug, Clone, PartialEq, Eq)]
pub struct PrunePlan {
    pub index: String,
    pub delete: Vec<String>,
}

pub open spec fn names_file(o: Option<String>, f: Seq<char>) -> bool {
    match o {
        Some(g) => g@ == f,
        None => false,
    }
}

/// Whether a retained record (at or after `split`) points at `f`.
pub open spec fn kept_ref(files: Seq<Option<String>>, split: int, f: Seq<char>) -> bool {
    exists|j: int| split <= j < files.len() && names_file(#[trigger] files[j], f)
}

/// The log files of the first `n` dropped records that no retained record
/// points at, in index order.
pub open spec fn doomed(files: Seq<Option<String>>, split: int, n: int) -> Seq<Seq<char>>
    decreases n,
{
    if n <= 0 {
        Seq::empty()
    } else {
        let prev = doomed(files, split, n - 1);
        match files[n - 1] {
            Some(f) => if kept_ref(files, split, f@) {
                prev
            } else {
                prev.push(f@)
            },
            None => prev,
        }
    }
}

/// Keep only the `keep` most recent lines of the run index and drop the
/// `.log` files of the records that fall off, unless a kept record still
/// points at them. `files` holds, per line, the log file its record names
/// (`None` for a line that is not a record). Nothing to do (`None`) when
/// `keep` is 0 or the index is short enough.
pub fn prune_plan(lines: &Vec<String>, files: &Vec<Option<String>>, keep: usize) -> (r: Option<PrunePlan>)
    requires
        files.len() == lines.len(),
    ensures
        (keep == 0 || lines.len() <= keep) ==> r is None,
        !(keep == 0 || lines.len() <= keep) ==> match r {
            Some(p) => p.index@ == crate::text::join_sep(texts(lines@).skip(lines.len() - keep), "\n"@) + "\n"@
                && texts(p.delete@) == doomed(files@, lines.len() - keep, lines.len() - keep),
            None => false,
        },
{
    if keep == 0 || lines.len() <= keep {
        return None;
    }
    let split = lines.len() - keep;
    let mut kept: Vec<String> = Vec::new();
    let mut i: usize = split;
    while i < lines.len()
        invariant
            split <= i <= lines.len(),
            split == lines.len() - keep,
            texts(kept@) == texts(lines@).subrange(split as int, i as int),
        decreases lines.len() - i,
    {
        let ghost before = kept@;
        kept.push(lines[i].clone());
        proof {
            assert(kept@ =~= before.push(lines@[i as int]));
            assert(texts(kept@) =~= texts(before).push(lines@[i as int]@));
            assert(texts(kept@) =~= texts(lines@).subrange(split as int, i + 1));
        }
        i += 1;
    }
    proof {
        assert(texts(lines@).subrange(split as int, lines.len() as int) =~= texts(lines@).skip(split as int));
    }
    let mut index = crate::text::join_strings(&kept, "\n");
    index.append("\n");
    let mut delete: Vec<String> = Vec::new();
    let mut d: usize = 0;
    while d < split
        invariant
            d <= split,
            split == lines.len() - keep,
            files.len() == lines.len(),
            texts(delete@) == doomed(files@, split as int, d as int),
        decreases split - d,
    {
        if let Some(f) = &files[d] {
            let mut referenced = false;
            let mut j: usize = split;
            while j < files.len()
                invariant
                    split <= j <= files.len(),
                    referenced == exists|k: int| split <= k < j && names_file(#[trigger] files@[k], f@),
                decreases files.len() - j,
            {
                if let Some(g) = &files[j] {
                    if crate::text::str_eq(g.as_str(), f.as_str()) {
                        referenced = true;
                    }
                }
                j += 1;
            }
            if !referenced {
                let ghost before = delete@;
                delete.push(f.clone());
                proof {
                    assert(texts(delete@) =~= texts(before).push(f@));
                }
            }
        }
        d += 1;
    }
    Some(PrunePlan { index, delete })
}

// ---------------------------------------------------------------------------
// Laws

proof fn lemma_marker_keys()
    ensures
        "ai_attempts"@ != "ai_status"@,
        "ai_attempts"@ != "ai_run_started"@,
        "ai_attempts"@ != "ai_last_error"@,
        "ai_attempts"@ != "ai_last_run"@,
        "tags"@ != "ai_status"@,
        "tags"@ != "ai_run_started"@,
        "tags"@ != "ai_last_error"@,
        "tags"@ != "ai_last_run"@,
{
    reveal_strlit("ai_attempts");
    reveal_strlit("ai_status");
    reveal_strlit("ai_run_started");
    reveal_strlit("ai_last_error");
    reveal_strlit("ai_last_run");
    reveal_strlit("tags");
    assert("ai_attempts"@[3] != "ai_status"@[3]);
    assert("ai_attempts"@[3] != "ai_run_started"@[3]);
    assert("ai_attempts"@[3] != "ai_last_error"@[3]);
    assert("ai_attempts"@[3] != "ai_last_run"@[3]);
    assert("tags"@[0] != "ai_status"@[0]);
    assert("tags"@[0] != "ai_run_started"@[0]);
    assert("tags"@[0] != "ai_last_error"@[0]);
    assert("tags"@[0] != "ai_last_run"@[0]);
}

proof fn lemma_attempts_nonneg(f: Option<YamlV>)
    ensures
        attempts_of(f) >= 0,
{
    if let Some(y) = f {
        if let YamlV::Str(s) = untag(y) {
            let t = if s.len() > 0 && s[0] == '+' { s.drop_first() } else { s };
            if t.len() > 0 && crate::text::all_digits(t) {
                crate::text::lemma_digits_value_nonneg(t);
            }
        }
    }
}

/// Every run costs an attempt: the pre-run write raises the count by one.
pub proof fn law_attempt_counted_before_run(fm: Seq<(YamlV, YamlV)>, now: Timestamp)
    requires
        keys_distinct(fm),
        attempts_of(lookup(fm, "ai_attempts"@)) < u32::MAX,
    ensures
        attempts_of(lookup(running_fm(fm, now), "ai_attempts"@)) == attempts_of(lookup(fm, "ai_attempts"@)) + 1,
{
    let n = attempts_of(lookup(fm, "ai_attempts"@)) + 1;
    lemma_marker_keys();
    lemma_attempts_nonneg(lookup(fm, "ai_attempts"@));
    let f1 = upsert(fm, "ai_attempts"@, YamlV::Num(dec(n as nat)));
    lemma_upsert(fm, "ai_attempts"@, YamlV::Num(dec(n as nat)));
    let f2 = upsert(f1, "ai_status"@, YamlV::Str("running"@));
    lemma_upsert(f1, "ai_status"@, YamlV::Str("running"@));
    lemma_upsert_other(f1, "ai_status"@, YamlV::Str("running"@), "ai_attempts"@);
    lemma_upsert_other(
        f2,
        "ai_run_started"@,
        YamlV::Str(spec_rfc3339_text(now.secs as int, now.nanos as int)),
        "ai_attempts"@,
    );
    lemma_parse_dec(n as nat, u64::MAX as int);
    assert(n % 0x1_0000_0000 == n);
}

/// The tags a tag list is written as read back as that list.
proof fn lemma_tags_read_back(tags: Seq<Seq<char>>)
    ensures
        crate::taskmd::model::scalar_texts(tags.map_values(|t: Seq<char>| YamlV::Str(t))) == tags,
    decreases tags.len(),
{
    if tags.len() > 0 {
        lemma_tags_read_back(tags.drop_last());
        assert(tags.map_values(|t: Seq<char>| YamlV::Str(t)).drop_last() =~= tags.drop_last().map_values(
            |t: Seq<char>| YamlV::Str(t),
        ));
        assert(tags.drop_last().push(tags.last()) =~= tags);
    }
}

/// A failure at the attempt cap parks the task: afterwards its tags hold
/// [`FAILED_TAG`].
pub proof fn law_failure_at_cap_parks(fm: Seq<(YamlV, YamlV)>, detail: Seq<char>, today: Date, max_attempts: u32)
    requires
        keys_distinct(fm),
        attempts_of(lookup(fm, "ai_attempts"@)) >= max_attempts,
    ensures
        list_texts(lookup(after_failure_fm(fm, detail, today, max_attempts), "tags"@)).contains(FAILED_TAG@),
{
    lemma_marker_keys();
    let day = YamlV::Str(spec_format_ymd(today.year as int, today.month as int, today.day as int));
    let f1 = upsert(fm, "ai_status"@, YamlV::Str("failed"@));
    let f2 = upsert(f1, "ai_last_error"@, YamlV::Str(detail));
    let f3 = upsert(f2, "ai_last_run"@, day);
    lemma_upsert(fm, "ai_status"@, YamlV::Str("failed"@));
    lemma_upsert(f1, "ai_last_error"@, YamlV::Str(detail));
    lemma_upsert(f2, "ai_last_run"@, day);
    lemma_upsert_other(fm, "ai_status"@, YamlV::Str("failed"@), "ai_attempts"@);
    lemma_upsert_other(f1, "ai_last_error"@, YamlV::Str(detail), "ai_attempts"@);
    lemma_upsert_other(f2, "ai_last_run"@, day, "ai_attempts"@);
    lemma_without_other(f3, "ai_run_started"@, "ai_attempts"@);
    let f = failed_fm(fm, detail, today);
    assert(f == without(f3, "ai_run_started"@));
    lemma_without_absent(f3, "ai_run_started"@);
    let tags = list_texts(lookup(f, "tags"@));
    if !tags.contains(FAILED_TAG@) {
        let items = tags.push(FAILED_TAG@);
        lemma_upsert(f, "tags"@, YamlV::Sequence(items.map_values(|t: Seq<char>| YamlV::Str(t))));
        lemma_tags_read_back(items);
        assert(items[items.len() - 1] == FAILED_TAG@);
    }
}

/// A parked task is never selected, whatever else holds of it.
pub proof fn law_parked_never_selected(t: Task, cfg: RunConfig, now: Timestamp)
    requires
        t.list("tags"@).contains(FAILED_TAG@),
    ensures
        !runnable_spec(t, cfg, now),
{
}

proof fn lemma_marker_keys_apart()
    ensures
        "ai_status"@ != "ai_last_error"@,
        "ai_status"@ != "ai_last_run"@,
        "ai_status"@ != "ai_run_started"@,
        "ai_last_error"@ != "ai_last_run"@,
        "ai_last_error"@ != "ai_run_started"@,
        "ai_last_run"@ != "ai_run_started"@,
        "tags"@ != "ai_attempts"@,
{
    reveal_strlit("ai_attempts");
    reveal_strlit("ai_status");
    reveal_strlit("ai_run_started");
    reveal_strlit("ai_last_error");
    reveal_strlit("ai_last_run");
    reveal_strlit("tags");
    assert("ai_status"@[3] != "ai_last_error"@[3]);
    assert("ai_status"@[3] != "ai_last_run"@[3]);
    assert("ai_status"@[3] != "ai_run_started"@[3]);
    assert("ai_last_error"@[8] != "ai_last_run"@[8]);
    assert("ai_last_error"@[3] != "ai_run_started"@[3]);
    assert("ai_last_run"@[3] != "ai_run_started"@[3]);
    assert("tags"@[0] != "ai_attempts"@[0]);
}

/// A run that fails (an unknown agent, a spawn error, a non-zero exit, or an
/// agent that exits 0 without completing the task) leaves the task with one
/// attempt more than before, marked `failed` with the reason and the day,
/// no longer holding the running lock, and parked exactly when that attempt
/// reached the cap or it was parked already.
pub proof fn law_failed_run_markers(
    fm: Seq<(YamlV, YamlV)>,
    now: Timestamp,
    detail: Seq<char>,
    today: Date,
    max_attempts: u32,
)
    requires
        keys_distinct(fm),
        attempts_of(lookup(fm, "ai_attempts"@)) < u32::MAX,
    ensures
        ({
            let f = after_failure_fm(running_fm(fm, now), detail, today, max_attempts);
            let n = attempts_of(lookup(fm, "ai_attempts"@)) + 1;
            &&& attempts_of(lookup(f, "ai_attempts"@)) == n
            &&& lookup(f, "ai_status"@) == Some(YamlV::Str("failed"@))
            &&& lookup(f, "ai_last_error"@) == Some(YamlV::Str(detail))
            &&& lookup(f, "ai_last_run"@) == Some(
                YamlV::Str(spec_format_ymd(today.year as int, today.month as int, today.day as int)),
            )
            &&& lookup(f, "ai_run_started"@) is None
            &&& (list_texts(lookup(f, "tags"@)).contains(FAILED_TAG@) <==> (n >= max_attempts || list_texts(
                lookup(fm, "tags"@),
            ).contains(FAILED_TAG@)))
        }),
{
    lemma_marker_keys();
    lemma_marker_keys_apart();
    law_attempt_counted_before_run(fm, now);
    let n = attempts_of(lookup(fm, "ai_attempts"@)) + 1;
    let stamp = YamlV::Str(spec_rfc3339_text(now.secs as int, now.nanos as int));
    let r1 = upsert(fm, "ai_attempts"@, YamlV::Num(dec(n as nat)));
    let r2 = upsert(r1, "ai_status"@, YamlV::Str("running"@));
    let r = running_fm(fm, now);
    assert(r == upsert(r2, "ai_run_started"@, stamp));
    lemma_upsert(fm, "ai_attempts"@, YamlV::Num(dec(n as nat)));
    lemma_upsert(r1, "ai_status"@, YamlV::Str("running"@));
    lemma_upsert(r2, "ai_run_started"@, stamp);
    lemma_upsert_other(fm, "ai_attempts"@, YamlV::Num(dec(n as nat)), "tags"@);
    lemma_upsert_other(r1, "ai_status"@, YamlV::Str("running"@), "tags"@);
    lemma_upsert_other(r2, "ai_run_started"@, stamp, "tags"@);
    let day = YamlV::Str(spec_format_ymd(today.year as int, today.month as int, today.day as int));
    let f1 = upsert(r, "ai_status"@, YamlV::Str("failed"@));
    let f2 = upsert(f1, "ai_last_error"@, YamlV::Str(detail));
    let f3 = upsert(f2, "ai_last_run"@, day);
    lemma_upsert(r, "ai_status"@, YamlV::Str("failed"@));
    lemma_upsert(f1, "ai_last_error"@, YamlV::Str(detail));
    lemma_upsert(f2, "ai_last_run"@, day);
    lemma_upsert_other(r, "ai_status"@, YamlV::Str("failed"@), "ai_attempts"@);
    lemma_upsert_other(f1, "ai_last_error"@, YamlV::Str(detail), "ai_attempts"@);
    lemma_upsert_other(f2, "ai_last_run"@, day, "ai_attempts"@);
    lemma_upsert_other(r, "ai_status"@, YamlV::Str("failed"@), "tags"@);
    lemma_upsert_other(f1, "ai_last_error"@, YamlV::Str(detail), "tags"@);
    lemma_upsert_other(f2, "ai_last_run"@, day, "tags"@);
    lemma_upsert_other(f1, "ai_last_error"@, YamlV::Str(detail), "ai_status"@);
    lemma_upsert_other(f2, "ai_last_run"@, day, "ai_status"@);
    lemma_upsert_other(f2, "ai_last_run"@, day, "ai_last_error"@);
    let f = failed_fm(r, detail, today);
    assert(f == without(f3, "ai_run_started"@));
    lemma_without_absent(f3, "ai_run_started"@);
    lemma_without_other(f3, "ai_run_started"@, "ai_attempts"@);
    lemma_without_other(f3, "ai_run_started"@, "ai_status"@);
    lemma_without_other(f3, "ai_run_started"@, "ai_last_error"@);
    lemma_without_other(f3, "ai_run_started"@, "ai_last_run"@);
    lemma_without_other(f3, "ai_run_started"@, "tags"@);
    assert(lookup(f, "ai_run_started"@) is None);
    let tags = list_texts(lookup(f, "tags"@));
    if attempts_of(lookup(f, "ai_attempts"@)) >= max_attempts && !tags.contains(FAILED_TAG@) {
        let items = tags.push(FAILED_TAG@);
        let v = YamlV::Sequence(items.map_values(|t: Seq<char>| YamlV::Str(t)));
        lemma_upsert(f, "tags"@, v);
        lemma_tags_read_back(items);
        assert(items[items.len() - 1] == FAILED_TAG@);
        lemma_upsert_other(f, "tags"@, v, "ai_attempts"@);
        lemma_upsert_other(f, "tags"@, v, "ai_status"@);
        lemma_upsert_other(f, "tags"@, v, "ai_last_error"@);
        lemma_upsert_other(f, "tags"@, v, "ai_last_run"@);
        lemma_upsert_other(f, "tags"@, v, "ai_run_started"@);
    }
}

/// A run succeeds exactly when the agent exited 0 and the task is finished
/// on disk afterwards; the reason is empty then, the fixed "did not mark the
/// task complete" text for an exit 0 on an unfinished task, and the agent's
/// own detail otherwise. A successful run leaves none of the run markers.
pub proof fn law_run_verdict(success: bool, detail: Seq<char>, is_terminal: bool, fm: Seq<(YamlV, YamlV)>)
    requires
        keys_distinct(fm),
    ensures
        verdict(success, detail, is_terminal).0 == (success && is_terminal),
        verdict(success, detail, is_terminal).1 == (if success && is_terminal {
            Seq::<char>::empty()
        } else if success {
            "agent exited 0 but did not mark the task complete"@
        } else {
            detail
        }),
        lookup(cleared_fm(fm), "ai_status"@) is None,
        lookup(cleared_fm(fm), "ai_run_started"@) is None,
        lookup(cleared_fm(fm), "ai_last_error"@) is None,
        lookup(cleared_fm(fm), "ai_last_run"@) is None,
        lookup(cleared_fm(fm), "ai_attempts"@) is None,
{
    lemma_marker_keys();
    lemma_marker_keys_apart();
    let f1 = without(fm, "ai_status"@);
    let f2 = without(f1, "ai_run_started"@);
    let f3 = without(f2, "ai_last_error"@);
    let f4 = without(f3, "ai_last_run"@);
    let f5 = without(f4, "ai_attempts"@);
    lemma_without_absent(fm, "ai_status"@);
    lemma_without_absent(f1, "ai_run_started"@);
    lemma_without_absent(f2, "ai_last_error"@);
    lemma_without_absent(f3, "ai_last_run"@);
    lemma_without_absent(f4, "ai_attempts"@);
    lemma_without_other(f1, "ai_run_started"@, "ai_status"@);
    lemma_without_other(f2, "ai_last_error"@, "ai_status"@);
    lemma_without_other(f3, "ai_last_run"@, "ai_status"@);
    lemma_without_other(f4, "ai_attempts"@, "ai_status"@);
    lemma_without_other(f2, "ai_last_error"@, "ai_run_started"@);
    lemma_without_other(f3, "ai_last_run"@, "ai_run_started"@);
    lemma_without_other(f4, "ai_attempts"@, "ai_run_started"@);
    lemma_without_other(f3, "ai_last_run"@, "ai_last_error"@);
    lemma_without_other(f4, "ai_attempts"@, "ai_last_error"@);
    lemma_without_other(f4, "ai_attempts"@, "ai_last_run"@);
    assert(cleared_fm(fm) == f5);
}

} // verus!
