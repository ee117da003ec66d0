//! The `.taskmd.yaml` project configuration: tasks directory, phases, id
//! generation, workflow mode, scopes, and the web and run settings.
//!
//! Maps of the file (`scopes`, `run.agents`) are held as lists of
//! `(name, entry)` pairs in name order, each name once.

use vstd::prelude::*;

use vstd::string::StringExecFns;

use crate::text::{chars_of, str_eq, string_of, texts};

verus! {

/// How new task ids are generated (`id.strategy`).
#[derive(Debug, Clone, Copy, PartialEq, Eq, Structural)]
pub enum IdStrategy {
    Sequential,
    Prefixed,
    Random,
    Ulid,
}

/// The `id:` section.
#[derive(Debug, Clone, PartialEq, Eq)]
pub struct IdConfig {
    pub strategy: IdStrategy,
    /// Required for `prefixed`; ids are `<prefix><NNN>`.
    pub prefix: String,
    /// Id length for `random` and `ulid`.
    pub length: usize,
    /// Zero-padding width for `sequential` (and the number of `prefixed`).
    pub padding: usize,
}

impl Default for IdConfig {
    /// Sequential, length 6, padding 3.
    fn default() -> (r: IdConfig)
        ensures
            r.strategy == IdStrategy::Sequential,
            r.prefix@ == Seq::<char>::empty(),
            r.length == 6,
            r.padding == 3,
    {
        IdConfig { strategy: IdStrategy::Sequential, prefix: String::new(), length: 6, padding: 3 }
    }
}

/// How tasks move to completion (`workflow`).
#[derive(Debug, Clone, Copy, PartialEq, Eq, Structural)]
pub enum Workflow {
    /// "Mark done" sets `completed`.
    Solo,
    /// "Mark done" sets `in-review` (with a PR link); `completed` comes on merge.
    PrReview,
}

/// One entry of the ordered `phases:` list.
#[derive(Debug, Clone, PartialEq, Eq)]
pub struct Phase {
    /// Identifier task `phase:` values name; falls back to `name`.
    pub id: Option<String>,
    pub name: String,
    pub description: Option<String>,
    /// Target date, `YYYY-MM-DD`.
    pub due: Option<String>,
}

impl Phase {
    pub open spec fn key_spec(self) -> Seq<char> {
        match self.id {
            Some(i) => i@,
            None => self.name@,
        }
    }

    /// The key task `phase:` values are matched against.
    pub fn key(&self) -> (r: &str)
        ensures
            r@ == self.key_spec(),
    {
        match &self.id {
            Some(i) => i.as_str(),
            None => self.name.as_str(),
        }
    }
}

/// Web dashboard settings (`web:`).
#[derive(Debug, Clone, PartialEq, Eq)]
pub struct WebConfig {
    /// Phase ids merged into the "Today" tab, in order. Absent means the
    /// default set; present (even empty) is used as it is.
    pub today: Option<Vec<String>>,
}

impl Default for WebConfig {
    fn default() -> (r: WebConfig)
        ensures
            r.today is None,
    {
        WebConfig { today: None }
    }
}

/// The "Today" phases when `web.today` is unset.
pub open spec fn default_today_phases() -> Seq<Seq<char>> {
    seq!["ongoing"@, "now"@]
}

impl WebConfig {
    /// Phase ids the "Today" tab merges: `web.today`, else `ongoing`, `now`.
    pub fn today_phases(&self) -> (r: Vec<String>)
        ensures
            texts(r@) == (match self.today {
                Some(v) => texts(v@),
                None => default_today_phases(),
            }),
    {
        match &self.today {
            Some(v) => {
                let mut out: Vec<String> = Vec::new();
                let mut i: usize = 0;
                while i < v.len()
                    invariant
                        i <= v.len(),
                        out.len() == i,
                        forall|k: int| 0 <= k < i ==> (#[trigger] out@[k])@ == v@[k]@,
                    decreases v.len() - i,
                {
                    out.push(v[i].clone());
                    i += 1;
                }
                assert(texts(out@) =~= texts(v@));
                out
            },
            None => {
                let out = vec!["ongoing".to_owned(), "now".to_owned()];
                assert(texts(out@) =~= default_today_phases());
                out
            },
        }
    }
}

/// How an agent command receives the rendered prompt.
#[derive(Debug, Clone, Copy, PartialEq, Eq, Structural)]
pub enum PromptVia {
    /// Substituted into a `{prompt}` token of the argv.
    Arg,
    /// Piped to the command's stdin.
    Stdin,
    /// Written to a file whose path replaces a `{prompt_file}` token.
    File,
}

/// One configured agent command (`run.agents.<name>`); task text never
/// supplies the command, only which named agent to use.
#[derive(Debug, Clone, PartialEq, Eq)]
pub struct AgentSpec {
    pub command: Vec<String>,
    pub prompt_via: PromptVia,
}

/// The prompt template used when `run.prompt_template` is unset.
pub const DEFAULT_PROMPT_TEMPLATE: &'static str = "You are completing a task autonomously and non-interactively. When the work is done, run `karamd complete {id}` from the vault so it is marked complete; do not ask questions.\n\nTask {id}: {title}\n\n{body}\n";

/// Autonomous task-execution settings (`run:`); off unless `enabled`.
#[derive(Debug, Clone, PartialEq, Eq)]
pub struct RunConfig {
    pub enabled: bool,
    /// Default agent name; a task may override it with `ai_agent`.
    pub agent: String,
    /// Named agent commands, in name order, each name once.
    pub agents: Vec<(String, AgentSpec)>,
    /// Default working directory for agents (the vault root when absent).
    pub working_dir: Option<String>,
    /// Per-run timeout in seconds.
    pub timeout_secs: u64,
    /// Failed attempts after which a task is parked.
    pub max_attempts: u32,
    /// Prompt template; `{id}`, `{title}`, `{body}`, `{path}` are filled in.
    pub prompt_template: String,
    /// Per-run log directory (`<vault>/.karamd/runs` when absent).
    pub log_dir: Option<String>,
    /// How many recent run records to keep; 0 keeps all.
    pub log_retention: usize,
}

impl Default for RunConfig {
    fn default() -> (r: RunConfig)
        ensures
            !r.enabled,
            r.agent@ == "agent"@,
            r.agents.len() == 0,
            r.working_dir is None,
            r.timeout_secs == 900,
            r.max_attempts == 3,
            r.prompt_template@ == DEFAULT_PROMPT_TEMPLATE@,
            r.log_dir is None,
            r.log_retention == 1000,
    {
        RunConfig {
            enabled: false,
            agent: "agent".to_owned(),
            agents: Vec::new(),
            working_dir: None,
            timeout_secs: 900,
            max_attempts: 3,
            prompt_template: DEFAULT_PROMPT_TEMPLATE.to_owned(),
            log_dir: None,
            log_retention: 1000,
        }
    }
}

/// Name for what `Path::join` gives for two path texts (as a string).
pub uninterp spec fn spec_path_join(base: Seq<char>, rest: Seq<char>) -> Seq<char>;

/// `Path::new(base).join(rest)`: an absolute `rest` replaces `base`; a
/// relative one is appended after one `/`.
#[verifier::external_body]
pub(crate) fn path_join(base: &str, rest: &str) -> (r: String)
    ensures
        r@ == spec_path_join(base@, rest@),
        rest@.len() > 0 && rest@[0] == '/' ==> r@ == rest@,
        base@.len() > 0 && base@.last() != '/' && rest@.len() > 0 && rest@[0] != '/'
            && rest@.last() != '/' ==> r@ == base@ + "/"@ + rest@,
{
    std::path::Path::new(base).join(rest).to_string_lossy().into_owned()
}

impl RunConfig {
    /// The per-run log directory: `log_dir` if set, else
    /// `<vault>/.karamd/runs`.
    pub fn resolve_log_dir(&self, vault_root: &str) -> (r: String)
        ensures
            r@ == (match self.log_dir {
                Some(d) => d@,
                None => spec_path_join(spec_path_join(vault_root@, ".karamd"@), "runs"@),
            }),
    {
        match &self.log_dir {
            Some(d) => d.clone(),
            None => {
                let k = path_join(vault_root, ".karamd");
                path_join(k.as_str(), "runs")
            },
        }
    }
}

/// One entry of the `scopes:` map.
#[derive(Debug, Clone, PartialEq, Eq)]
pub struct Scope {
    pub description: Option<String>,
    pub paths: Vec<String>,
}

/// The parsed `.taskmd.yaml`.
#[derive(Debug, Clone, PartialEq)]
pub struct Config {
    /// Tasks directory relative to the vault root.
    pub dir: String,
    pub phases: Vec<Phase>,
    pub id: IdConfig,
    pub workflow: Workflow,
    /// Scopes in name order, each name once.
    pub scopes: Vec<(String, Scope)>,
    pub web: WebConfig,
    pub run: RunConfig,
}

impl Default for Config {
    fn default() -> (r: Config)
        ensures
            r.dir@ == "tasks"@,
            r.phases.len() == 0,
            r.id.strategy == IdStrategy::Sequential,
            r.id.length == 6,
            r.id.padding == 3,
            r.workflow == Workflow::Solo,
            r.scopes.len() == 0,
            r.web.today is None,
            !r.run.enabled,
    {
        Config {
            dir: "tasks".to_owned(),
            phases: Vec::new(),
            id: IdConfig::default(),
            workflow: Workflow::Solo,
            scopes: Vec::new(),
            web: WebConfig::default(),
            run: RunConfig::default(),
        }
    }
}

/// `s` without any number of leading `./`.
pub open spec fn strip_dot_slash(s: Seq<char>) -> Seq<char>
    decreases s.len(),
{
    if s.len() >= 2 && s[0] == '.' && s[1] == '/' {
        strip_dot_slash(s.skip(2))
    } else {
        s
    }
}

/// A directory named relative to a vault, leading `./` dropped.
pub fn dir_under(vault: &str, dir: &str) -> (r: String)
    ensures
        r@ == spec_path_join(vault@, strip_dot_slash(dir@)),
{
    let c = chars_of(dir);
    let mut i: usize = 0;
    assert(c@.skip(0) =~= c@);
    while i < c.len() && c.len() - i >= 2 && c[i] == '.' && c[i + 1] == '/'
        invariant
            i <= c.len(),
            strip_dot_slash(c@) == strip_dot_slash(c@.skip(i as int)),
            c@ == dir@,
        decreases c.len() - i,
    {
        assert(c@.skip(i as int).skip(2) =~= c@.skip(i + 2));
        i += 2;
    }
    let mut rest: Vec<char> = Vec::new();
    let mut j = i;
    while j < c.len()
        invariant
            i <= j <= c.len(),
            rest@ =~= c@.subrange(i as int, j as int),
        decreases c.len() - j,
    {
        rest.push(c[j]);
        j += 1;
    }
    assert(rest@ =~= c@.skip(i as int));
    let d = string_of(&rest);
    path_join(vault, d.as_str())
}

/// The tasks directory the generator writes to: the `dir:` a vault's
/// `.taskmd.yaml` names, `tasks` when it names none.
pub fn generator_tasks_dir(vault: &str, configured: Option<&str>) -> (r: String)
    ensures
        r@ == spec_path_join(vault@, strip_dot_slash(match configured {
            Some(d) => d@,
            None => "tasks"@,
        })),
{
    match configured {
        Some(d) => dir_under(vault, d),
        None => dir_under(vault, "tasks"),
    }
}

/// First position of a phase with the given key.
pub open spec fn phase_position(phases: Seq<Phase>, key: Seq<char>) -> Option<int>
    decreases phases.len(),
{
    if phases.len() == 0 {
        None
    } else if phases[0].key_spec() == key {
        Some(0)
    } else {
        match phase_position(phases.drop_first(), key) {
            Some(i) => Some(i + 1),
            None => None,
        }
    }
}

impl Config {
    /// The tasks directory under a vault root.
    pub fn tasks_dir(&self, vault: &str) -> (r: String)
        ensures
            r@ == spec_path_join(vault@, strip_dot_slash(self.dir@)),
    {
        dir_under(vault, self.dir.as_str())
    }

    /// Position of a phase key in the configured order, for sorting.
    pub fn phase_index(&self, phase: &str) -> (r: Option<usize>)
        ensures
            match phase_position(self.phases@, phase@) {
                Some(i) => r == Some(i as usize),
                None => r is None,
            },
    {
        let mut i: usize = 0;
        assert(self.phases@.skip(0) =~= self.phases@);
        while i < self.phases.len()
            invariant
                i <= self.phases.len(),
                phase_position(self.phases@, phase@) == (match phase_position(self.phases@.skip(i as int), phase@) {
                    Some(k) => Some(k + i),
                    None => None,
                }),
            decreases self.phases.len() - i,
        {
            assert(self.phases@.skip(i as int).drop_first() =~= self.phases@.skip(i + 1));
            if str_eq(self.phases[i].key(), phase) {
                return Some(i);
            }
            i += 1;
        }
        None
    }
}

} // verus!
