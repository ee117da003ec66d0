//! Task verbs on top of the taskmd layer: create, edit, list/query, search,
//! show, and completion. The caller opens the vault, scans it and writes
//! files; these functions decide what is valid, which tasks match, and how a
//! task changes.

use vstd::prelude::*;

use crate::date::{Date, spec_format_ymd};
use crate::output::{TaskView, view_ok};
use crate::query::{Expr, EvalCtx, QueryV, eval, eval_spec, has_infix, query_valid, query_view};
use crate::task::{spec_to_lowercase, to_lowercase};
use crate::taskmd::config::Workflow;
use crate::taskmd::graph::{Graph, has_id, ready_spec};
use crate::taskmd::model::{
    Effort, Priority, Status, Task, TaskType, effort_named, effort_text, normalized_body,
    pr_list_after, priority_named, priority_text, status_change, task_type_named, task_type_text,
};
use crate::taskmd::store::{Scan, first_with_id};
use crate::taskmd::template::{Template, TemplateError, applied_fm, apply, opt_str_view, resolve, resolve_spec, template_view};
use crate::text::{chars_of, texts, trim};
use crate::yaml::{YamlV, upsert, without};

verus! {

/// Everything `create` accepts. Enum-valued fields are checked here so a
/// typo fails before any file is written.
#[derive(Debug)]
pub struct CreateSpec {
    pub title: String,
    pub priority: Option<String>,
    pub effort: Option<String>,
    pub task_type: Option<String>,
    pub phase: Option<String>,
    pub tags: Vec<String>,
    pub dependencies: Vec<String>,
    pub template: Option<String>,
    pub body: Option<String>,
}

impl Default for CreateSpec {
    fn default() -> (r: CreateSpec)
        ensures
            r.title@ == Seq::<char>::empty(),
            r.priority is None,
            r.effort is None,
            r.task_type is None,
            r.phase is None,
            r.tags.len() == 0,
            r.dependencies.len() == 0,
            r.template is None,
            r.body is None,
    {
        CreateSpec {
            title: String::new(),
            priority: None,
            effort: None,
            task_type: None,
            phase: None,
            tags: Vec::new(),
            dependencies: Vec::new(),
            template: None,
            body: None,
        }
    }
}

/// A partial edit of an existing task. Every field is optional: `None`
/// leaves it untouched. `phase`/`owner` nest an option so a field can be
/// cleared (`Some(None)`) as distinct from left alone (`None`).
#[derive(Debug)]
pub struct EditSpec {
    pub title: Option<String>,
    pub priority: Option<String>,
    pub effort: Option<String>,
    pub task_type: Option<String>,
    pub phase: Option<Option<String>>,
    pub owner: Option<Option<String>>,
    pub tags: Option<Vec<String>>,
    pub dependencies: Option<Vec<String>>,
    pub body: Option<String>,
}

impl Default for EditSpec {
    fn default() -> (r: EditSpec)
        ensures
            r.title is None,
            r.priority is None,
            r.effort is None,
            r.task_type is None,
            r.phase is None,
            r.owner is None,
            r.tags is None,
            r.dependencies is None,
            r.body is None,
    {
        EditSpec {
            title: None,
            priority: None,
            effort: None,
            task_type: None,
            phase: None,
            owner: None,
            tags: None,
            dependencies: None,
            body: None,
        }
    }
}

/// Why a verb refused its input.
#[derive(Debug, Clone, PartialEq)]
pub enum VerbError {
    EmptyTitle,
    InvalidPriority(String),
    InvalidEffort(String),
    InvalidType(String),
    Template(TemplateError),
    MissingDependency(String),
    /// The task's own id among its dependencies.
    SelfDependency(String),
    NoSuchTask(String),
}

/// A verb error, mathematically.
pub enum VerbErrV {
    EmptyTitle,
    InvalidPriority(Seq<char>),
    InvalidEffort(Seq<char>),
    InvalidType(Seq<char>),
    UnknownTemplate(Seq<char>),
    MissingDependency(Seq<char>),
    SelfDependency(Seq<char>),
    NoSuchTask(Seq<char>),
}

pub open spec fn verb_error_view(e: VerbError) -> VerbErrV {
    match e {
        VerbError::EmptyTitle => VerbErrV::EmptyTitle,
        VerbError::InvalidPriority(s) => VerbErrV::InvalidPriority(s@),
        VerbError::InvalidEffort(s) => VerbErrV::InvalidEffort(s@),
        VerbError::InvalidType(s) => VerbErrV::InvalidType(s@),
        VerbError::Template(TemplateError::Unknown(n)) => VerbErrV::UnknownTemplate(n@),
        VerbError::MissingDependency(s) => VerbErrV::MissingDependency(s@),
        VerbError::SelfDependency(s) => VerbErrV::SelfDependency(s@),
        VerbError::NoSuchTask(s) => VerbErrV::NoSuchTask(s@),
    }
}

pub open spec fn verb_error_text(e: VerbErrV) -> Seq<char> {
    match e {
        VerbErrV::EmptyTitle => "title must not be empty"@,
        VerbErrV::InvalidPriority(p) => "invalid priority `"@ + p + "`"@,
        VerbErrV::InvalidEffort(p) => "invalid effort `"@ + p + "`"@,
        VerbErrV::InvalidType(p) => "invalid type `"@ + p + "`"@,
        VerbErrV::UnknownTemplate(n) => "unknown template `"@ + n + "` (built-ins: feature, bug, chore)"@,
        VerbErrV::MissingDependency(d) => "dependency `"@ + d + "` does not exist"@,
        VerbErrV::SelfDependency(i) => "a task cannot depend on itself (`"@ + i + "`)"@,
        VerbErrV::NoSuchTask(i) => "no task with id `"@ + i + "`"@,
    }
}

fn framed(pre: &str, mid: &str, post: &str) -> (r: String)
    ensures
        r@ == pre@ + mid@ + post@,
{
    let mut s = pre.to_owned();
    s.append(mid);
    s.append(post);
    s
}

impl VerbError {
    /// The human-readable reason.
    pub fn message(&self) -> (r: String)
        ensures
            r@ == verb_error_text(verb_error_view(*self)),
    {
        match self {
            VerbError::EmptyTitle => "title must not be empty".to_owned(),
            VerbError::InvalidPriority(p) => framed("invalid priority `", p.as_str(), "`"),
            VerbError::InvalidEffort(p) => framed("invalid effort `", p.as_str(), "`"),
            VerbError::InvalidType(p) => framed("invalid type `", p.as_str(), "`"),
            VerbError::Template(TemplateError::Unknown(n)) => framed(
                "unknown template `",
                n.as_str(),
                "` (built-ins: feature, bug, chore)",
            ),
            VerbError::MissingDependency(d) => framed("dependency `", d.as_str(), "` does not exist"),
            VerbError::SelfDependency(i) => framed("a task cannot depend on itself (`", i.as_str(), "`)"),
            VerbError::NoSuchTask(i) => framed("no task with id `", i.as_str(), "`"),
        }
    }
}

// ---------------------------------------------------------------------------
// Checking inputs

pub open spec fn opt_string_view(o: Option<String>) -> Option<Seq<char>> {
    match o {
        Some(s) => Some(s@),
        None => None,
    }
}

pub open spec fn priority_input(o: Option<Seq<char>>) -> Result<Option<Priority>, VerbErrV> {
    match o {
        None => Ok(None),
        Some(p) => match priority_named(p) {
            Some(x) => Ok(Some(x)),
            None => Err(VerbErrV::InvalidPriority(p)),
        },
    }
}

pub open spec fn effort_input(o: Option<Seq<char>>) -> Result<Option<Effort>, VerbErrV> {
    match o {
        None => Ok(None),
        Some(p) => match effort_named(p) {
            Some(x) => Ok(Some(x)),
            None => Err(VerbErrV::InvalidEffort(p)),
        },
    }
}

pub open spec fn type_input(o: Option<Seq<char>>) -> Result<Option<TaskType>, VerbErrV> {
    match o {
        None => Ok(None),
        Some(p) => match task_type_named(p) {
            Some(x) => Ok(Some(x)),
            None => Err(VerbErrV::InvalidType(p)),
        },
    }
}

/// The first dependency that is the task itself or does not exist, as an
/// error (a self-reference is checked first for each entry).
pub open spec fn dependency_problem(ts: Seq<Task>, own: Option<Seq<char>>, deps: Seq<Seq<char>>) -> Option<VerbErrV>
    decreases deps.len(),
{
    if deps.len() == 0 {
        None
    } else {
        match dependency_problem(ts, own, deps.drop_last()) {
            Some(e) => Some(e),
            None => {
                let d = deps.last();
                if own == Some(d) {
                    Some(VerbErrV::SelfDependency(d))
                } else if !has_id(ts, d) {
                    Some(VerbErrV::MissingDependency(d))
                } else {
                    None
                }
            },
        }
    }
}

/// What `create` accepted: parsed enum values and the template, if any.
#[derive(Debug)]
pub struct CreatePlan {
    pub priority: Option<Priority>,
    pub effort: Option<Effort>,
    pub task_type: Option<TaskType>,
    pub template: Option<Template>,
}

pub open spec fn plan_view(p: CreatePlan) -> (Option<Priority>, Option<Effort>, Option<TaskType>, Option<(Option<Priority>, Option<TaskType>, Seq<char>)>) {
    (p.priority, p.effort, p.task_type, match p.template {
        Some(t) => Some(template_view(t)),
        None => None,
    })
}

/// What `create` decides: the title must not be blank, enum values must
/// parse (priority, effort, type in that order), the template must resolve,
/// and every dependency must exist.
pub open spec fn create_spec(spec: CreateSpec, custom: Option<Seq<char>>, ts: Seq<Task>) -> Result<
    (Option<Priority>, Option<Effort>, Option<TaskType>, Option<(Option<Priority>, Option<TaskType>, Seq<char>)>),
    VerbErrV,
> {
    if trim(spec.title@).len() == 0 {
        Err(VerbErrV::EmptyTitle)
    } else {
        match priority_input(opt_string_view(spec.priority)) {
            Err(e) => Err(e),
            Ok(p) => match effort_input(opt_string_view(spec.effort)) {
                Err(e) => Err(e),
                Ok(ef) => match type_input(opt_string_view(spec.task_type)) {
                    Err(e) => Err(e),
                    Ok(ty) => {
                        let tpl = match spec.template {
                            None => Ok(None),
                            Some(n) => match resolve_spec(custom, n@) {
                                Ok(t) => Ok(Some(t)),
                                Err(x) => Err(VerbErrV::UnknownTemplate(x)),
                            },
                        };
                        match tpl {
                            Err(e) => Err(e),
                            Ok(t) => match dependency_problem(ts, None, texts(spec.dependencies@)) {
                                Some(e) => Err(e),
                                None => Ok((p, ef, ty, t)),
                            },
                        }
                    },
                },
            },
        }
    }
}

fn parse_priority_input(o: &Option<String>) -> (r: Result<Option<Priority>, VerbError>)
    ensures
        match r {
            Ok(x) => priority_input(opt_string_view(*o)) == Ok::<_, VerbErrV>(x),
            Err(e) => priority_input(opt_string_view(*o)) == Err::<Option<Priority>, _>(verb_error_view(e)),
        },
{
    match o {
        None => Ok(None),
        Some(p) => match Priority::parse(p.as_str()) {
            Some(x) => Ok(Some(x)),
            None => Err(VerbError::InvalidPriority(p.clone())),
        },
    }
}

fn parse_effort_input(o: &Option<String>) -> (r: Result<Option<Effort>, VerbError>)
    ensures
        match r {
            Ok(x) => effort_input(opt_string_view(*o)) == Ok::<_, VerbErrV>(x),
            Err(e) => effort_input(opt_string_view(*o)) == Err::<Option<Effort>, _>(verb_error_view(e)),
        },
{
    match o {
        None => Ok(None),
        Some(p) => match Effort::parse(p.as_str()) {
            Some(x) => Ok(Some(x)),
            None => Err(VerbError::InvalidEffort(p.clone())),
        },
    }
}

fn parse_type_input(o: &Option<String>) -> (r: Result<Option<TaskType>, VerbError>)
    ensures
        match r {
            Ok(x) => type_input(opt_string_view(*o)) == Ok::<_, VerbErrV>(x),
            Err(e) => type_input(opt_string_view(*o)) == Err::<Option<TaskType>, _>(verb_error_view(e)),
        },
{
    match o {
        None => Ok(None),
        Some(p) => match TaskType::parse(p.as_str()) {
            Some(x) => Ok(Some(x)),
            None => Err(VerbError::InvalidType(p.clone())),
        },
    }
}

/// Once a prefix of the dependency list has a problem, the whole list has
/// that same first problem.
proof fn lemma_problem_prefix(ts: Seq<Task>, own: Option<Seq<char>>, deps: Seq<Seq<char>>, n: int)
    requires
        0 <= n <= deps.len(),
        dependency_problem(ts, own, deps.take(n)) is Some,
    ensures
        dependency_problem(ts, own, deps) == dependency_problem(ts, own, deps.take(n)),
    decreases deps.len(),
{
    if n == deps.len() {
        assert(deps.take(n) =~= deps);
    } else {
        assert(deps.drop_last().take(n) =~= deps.take(n));
        lemma_problem_prefix(ts, own, deps.drop_last(), n);
    }
}

/// The first dependency problem, checking each entry in order.
fn check_dependencies(tasks: &[Task], own: Option<&str>, deps: &Vec<String>) -> (r: Option<VerbError>)
    ensures
        match r {
            Some(e) => dependency_problem(tasks@, opt_str_view(own), texts(deps@)) == Some(verb_error_view(e)),
            None => dependency_problem(tasks@, opt_str_view(own), texts(deps@)) is None,
        },
{
    let mut i: usize = 0;
    while i < deps.len()
        invariant
            i <= deps.len(),
            dependency_problem(tasks@, opt_str_view(own), texts(deps@).take(i as int)) is None,
        decreases deps.len() - i,
    {
        let ghost ds = texts(deps@).take(i + 1);
        assert(ds.drop_last() =~= texts(deps@).take(i as int));
        assert(ds.last() == deps@[i as int]@);
        let d = deps[i].as_str();
        let is_own = match own {
            Some(o) => crate::text::str_eq(o, d),
            None => false,
        };
        if is_own {
            proof {
                lemma_problem_prefix(tasks@, opt_str_view(own), texts(deps@), i + 1);
            }
            return Some(VerbError::SelfDependency(d.to_owned()));
        }
        let mut found = false;
        let mut k: usize = 0;
        while k < tasks.len()
            invariant
                k <= tasks.len(),
                found == exists|j: int| 0 <= j < k && tasks@[j].id_spec() == d@,
            decreases tasks.len() - k,
        {
            if crate::text::str_eq(tasks[k].id().as_str(), d) {
                found = true;
            }
            k += 1;
        }
        proof {
            crate::taskmd::graph::lemma_first_with_id(tasks@, d@);
        }
        if !found {
            proof {
                lemma_problem_prefix(tasks@, opt_str_view(own), texts(deps@), i + 1);
            }
            return Some(VerbError::MissingDependency(d.to_owned()));
        }
        i += 1;
    }
    assert(texts(deps@).take(deps.len() as int) =~= texts(deps@));
    None
}

/// Check a new task's inputs against the tasks that exist. `custom_template`
/// is the text of the vault's custom template of the requested name, when
/// it has one.
pub fn create(spec: &CreateSpec, custom_template: Option<&str>, tasks: &[Task]) -> (r: Result<CreatePlan, VerbError>)
    ensures
        match r {
            Ok(p) => create_spec(*spec, opt_str_view(custom_template), tasks@) == Ok::<_, VerbErrV>(plan_view(p)),
            Err(e) => create_spec(*spec, opt_str_view(custom_template), tasks@) == Err::<
                (Option<Priority>, Option<Effort>, Option<TaskType>, Option<(Option<Priority>, Option<TaskType>, Seq<char>)>),
                _,
            >(verb_error_view(e)),
        },
{
    if crate::text::is_blank(spec.title.as_str()) {
        return Err(VerbError::EmptyTitle);
    }
    let priority = match parse_priority_input(&spec.priority) {
        Ok(x) => x,
        Err(e) => {
            return Err(e);
        },
    };
    let effort = match parse_effort_input(&spec.effort) {
        Ok(x) => x,
        Err(e) => {
            return Err(e);
        },
    };
    let task_type = match parse_type_input(&spec.task_type) {
        Ok(x) => x,
        Err(e) => {
            return Err(e);
        },
    };
    let template = match &spec.template {
        None => None,
        Some(name) => match resolve(custom_template, name.as_str()) {
            Ok(t) => Some(t),
            Err(e) => {
                return Err(VerbError::Template(e));
            },
        },
    };
    if let Some(e) = check_dependencies(tasks, None, &spec.dependencies) {
        return Err(e);
    }
    Ok(CreatePlan { priority, effort, task_type, template })
}

// ---------------------------------------------------------------------------
// Building and editing tasks

pub open spec fn set_opt_field(fm: Seq<(YamlV, YamlV)>, key: Seq<char>, v: Option<YamlV>) -> Seq<(YamlV, YamlV)> {
    match v {
        Some(x) => upsert(fm, key, x),
        None => fm,
    }
}

pub open spec fn str_list(v: Seq<String>) -> YamlV {
    YamlV::Sequence(v.map_values(|s: String| YamlV::Str(s@)))
}

/// The frontmatter of a freshly created task after the plan and the spec's
/// explicit fields: template defaults first, explicit values over them.
pub open spec fn created_fm(fm: Seq<(YamlV, YamlV)>, spec: CreateSpec, plan: CreatePlan) -> Seq<(YamlV, YamlV)> {
    let f0 = match plan.template {
        Some(t) => applied_fm(fm, t),
        None => fm,
    };
    let f1 = set_opt_field(f0, "priority"@, match plan.priority {
        Some(p) => Some(YamlV::Str(priority_text(p))),
        None => None,
    });
    let f2 = set_opt_field(f1, "effort"@, match plan.effort {
        Some(e) => Some(YamlV::Str(effort_text(e))),
        None => None,
    });
    let f3 = set_opt_field(f2, "type"@, match plan.task_type {
        Some(t) => Some(YamlV::Str(task_type_text(t))),
        None => None,
    });
    let f4 = set_opt_field(f3, "phase"@, match spec.phase {
        Some(p) => Some(YamlV::Str(p@)),
        None => None,
    });
    let f5 = if spec.tags.len() > 0 {
        upsert(f4, "tags"@, str_list(spec.tags@))
    } else {
        f4
    };
    if spec.dependencies.len() > 0 {
        upsert(f5, "dependencies"@, str_list(spec.dependencies@))
    } else {
        f5
    }
}

/// The body after the plan and spec: an explicit body wins over the
/// template's.
pub open spec fn created_body(old_body: Seq<char>, spec: CreateSpec, plan: CreatePlan) -> Seq<char> {
    match spec.body {
        Some(b) => normalized_body(b@),
        None => match plan.template {
            Some(t) => normalized_body(t.body@),
            None => old_body,
        },
    }
}

/// Fill a freshly created task from an accepted plan.
pub fn build_task(task: &mut Task, spec: &CreateSpec, plan: &CreatePlan)
    requires
        old(task).wf(),
    ensures
        final(task).fm() == created_fm(old(task).fm(), *spec, *plan),
        final(task).body@ == created_body(old(task).body@, *spec, *plan),
        final(task).rel_path == old(task).rel_path,
        final(task).dir_group == old(task).dir_group,
        final(task).wf(),
{
    if let Some(t) = &plan.template {
        apply(t, task);
    }
    if let Some(p) = plan.priority {
        task.set_priority(p);
    }
    if let Some(e) = plan.effort {
        task.set_effort(e);
    }
    if let Some(t) = plan.task_type {
        task.set_task_type(t);
    }
    if let Some(phase) = &spec.phase {
        task.set_phase(Some(phase.as_str()));
    }
    if spec.tags.len() > 0 {
        task.set_tags(spec.tags.as_slice());
    }
    if spec.dependencies.len() > 0 {
        task.set_dependencies(spec.dependencies.as_slice());
    }
    if let Some(body) = &spec.body {
        task.set_body(body.as_str());
    }
}

/// What `edit` accepted: the parsed enum values.
#[derive(Debug)]
pub struct EditPlan {
    pub priority: Option<Priority>,
    pub effort: Option<Effort>,
    pub task_type: Option<TaskType>,
}

/// What `edit` decides: a given title must not be blank, given enum values
/// must parse, and given dependencies must neither name the task itself nor
/// be missing (status is not editable here).
pub open spec fn edit_spec(id: Seq<char>, spec: EditSpec, ts: Seq<Task>) -> Result<
    (Option<Priority>, Option<Effort>, Option<TaskType>),
    VerbErrV,
> {
    if spec.title matches Some(t) && trim(t@).len() == 0 {
        Err(VerbErrV::EmptyTitle)
    } else {
        match priority_input(opt_string_view(spec.priority)) {
            Err(e) => Err(e),
            Ok(p) => match effort_input(opt_string_view(spec.effort)) {
                Err(e) => Err(e),
                Ok(ef) => match type_input(opt_string_view(spec.task_type)) {
                    Err(e) => Err(e),
                    Ok(ty) => match spec.dependencies {
                        Some(deps) => match dependency_problem(ts, Some(id), texts(deps@)) {
                            Some(e) => Err(e),
                            None => Ok((p, ef, ty)),
                        },
                        None => Ok((p, ef, ty)),
                    },
                },
            },
        }
    }
}

/// Check a partial edit of task `id` against the tasks that exist.
pub fn edit(id: &str, spec: &EditSpec, tasks: &[Task]) -> (r: Result<EditPlan, VerbError>)
    ensures
        match r {
            Ok(p) => edit_spec(id@, *spec, tasks@) == Ok::<_, VerbErrV>((p.priority, p.effort, p.task_type)),
            Err(e) => edit_spec(id@, *spec, tasks@) == Err::<(Option<Priority>, Option<Effort>, Option<TaskType>), _>(
                verb_error_view(e),
            ),
        },
{
    if let Some(title) = &spec.title {
        if crate::text::is_blank(title.as_str()) {
            return Err(VerbError::EmptyTitle);
        }
    }
    let priority = match parse_priority_input(&spec.priority) {
        Ok(x) => x,
        Err(e) => {
            return Err(e);
        },
    };
    let effort = match parse_effort_input(&spec.effort) {
        Ok(x) => x,
        Err(e) => {
            return Err(e);
        },
    };
    let task_type = match parse_type_input(&spec.task_type) {
        Ok(x) => x,
        Err(e) => {
            return Err(e);
        },
    };
    if let Some(deps) = &spec.dependencies {
        if let Some(e) = check_dependencies(tasks, Some(id), deps) {
            return Err(e);
        }
    }
    Ok(EditPlan { priority, effort, task_type })
}

pub open spec fn clear_or_set(fm: Seq<(YamlV, YamlV)>, key: Seq<char>, v: Option<Option<String>>) -> Seq<(YamlV, YamlV)> {
    match v {
        Some(Some(x)) => upsert(fm, key, YamlV::Str(x@)),
        Some(None) => without(fm, key),
        None => fm,
    }
}

/// The frontmatter after an accepted edit, fields in a fixed order.
pub open spec fn edited_fm(fm: Seq<(YamlV, YamlV)>, spec: EditSpec, plan: EditPlan) -> Seq<(YamlV, YamlV)> {
    let f0 = set_opt_field(fm, "title"@, match spec.title {
        Some(t) => Some(YamlV::Str(t@)),
        None => None,
    });
    let f1 = set_opt_field(f0, "priority"@, match plan.priority {
        Some(p) => Some(YamlV::Str(priority_text(p))),
        None => None,
    });
    let f2 = set_opt_field(f1, "effort"@, match plan.effort {
        Some(e) => Some(YamlV::Str(effort_text(e))),
        None => None,
    });
    let f3 = set_opt_field(f2, "type"@, match plan.task_type {
        Some(t) => Some(YamlV::Str(task_type_text(t))),
        None => None,
    });
    let f4 = clear_or_set(f3, "phase"@, spec.phase);
    let f5 = clear_or_set(f4, "owner"@, spec.owner);
    let f6 = set_opt_field(f5, "tags"@, match spec.tags {
        Some(t) => Some(str_list(t@)),
        None => None,
    });
    set_opt_field(f6, "dependencies"@, match spec.dependencies {
        Some(d) => Some(str_list(d@)),
        None => None,
    })
}

fn opt_ref(o: &Option<String>) -> (r: Option<&str>)
    ensures
        opt_str_view(r) == opt_string_view(*o),
{
    match o {
        Some(s) => Some(s.as_str()),
        None => None,
    }
}

/// Apply an accepted edit to the task.
pub fn apply_edit(task: &mut Task, spec: &EditSpec, plan: &EditPlan)
    requires
        old(task).wf(),
    ensures
        final(task).fm() == edited_fm(old(task).fm(), *spec, *plan),
        final(task).body@ == (match spec.body {
            Some(b) => normalized_body(b@),
            None => old(task).body@,
        }),
        final(task).rel_path == old(task).rel_path,
        final(task).dir_group == old(task).dir_group,
        final(task).wf(),
{
    if let Some(title) = &spec.title {
        task.set_title(title.as_str());
    }
    if let Some(p) = plan.priority {
        task.set_priority(p);
    }
    if let Some(e) = plan.effort {
        task.set_effort(e);
    }
    if let Some(t) = plan.task_type {
        task.set_task_type(t);
    }
    if let Some(phase) = &spec.phase {
        task.set_phase(opt_ref(phase));
    }
    if let Some(owner) = &spec.owner {
        task.set_owner(opt_ref(owner));
    }
    if let Some(tags) = &spec.tags {
        task.set_tags(tags.as_slice());
    }
    if let Some(deps) = &spec.dependencies {
        task.set_dependencies(deps.as_slice());
    }
    if let Some(body) = &spec.body {
        task.set_body(body.as_str());
    }
}

/// The status "mark done" sets: `completed` for a solo workflow,
/// `in-review` (completed later, on merge) for a pull-request workflow.
pub open spec fn done_status(w: Workflow) -> Status {
    match w {
        Workflow::Solo => Status::Completed,
        Workflow::PrReview => Status::InReview,
    }
}

/// Workflow-aware completion, recording the pull request when given.
pub fn complete(task: &mut Task, workflow: Workflow, pr: Option<&str>, today: Date)
    requires
        old(task).wf(),
        today.wf(),
    ensures
        ({
            let f1 = status_change(
                old(task).fm(),
                old(task).status_spec(),
                done_status(workflow),
                spec_format_ymd(today.year as int, today.month as int, today.day as int),
            );
            final(task).fm() == match pr {
                Some(url) => upsert(f1, "pr"@, YamlV::Sequence(pr_list_after(crate::taskmd::model::list_texts(crate::yaml::lookup(f1, "pr"@)), url@).map_values(|t: Seq<char>| YamlV::Str(t)))),
                None => f1,
            }
        }),
        final(task).same_besides_fm(*old(task)),
        final(task).wf(),
{
    let target = match workflow {
        Workflow::Solo => Status::Completed,
        Workflow::PrReview => Status::InReview,
    };
    task.set_status(target, today);
    if let Some(url) = pr {
        task.add_pr(url);
    }
}

// ---------------------------------------------------------------------------
// Listing

/// Indices of the tasks below `n` that a query admits; `ready` comes from
/// the dependency graph.
pub open spec fn matching(ts: Seq<Task>, q: Option<QueryV>, n: int) -> Seq<int>
    decreases n,
{
    if n <= 0 {
        Seq::empty()
    } else {
        let keep = match q {
            Some(x) => eval_spec(x, ts[n - 1], ready_spec(ts, ts[n - 1].list("dependencies"@))),
            None => true,
        };
        if keep {
            matching(ts, q, n - 1).push(n - 1)
        } else {
            matching(ts, q, n - 1)
        }
    }
}

/// The views of the listed tasks, without bodies.
pub open spec fn views_of(ts: Seq<Task>, idx: Seq<int>, views: Seq<TaskView>) -> bool {
    &&& views.len() == idx.len()
    &&& forall|k: int| 0 <= k < views.len() ==> view_ok(ts, ts[idx[k]], #[trigger] views[k], false)
}

pub open spec fn opt_query_view(q: Option<&Expr>) -> Option<QueryV> {
    match q {
        Some(e) => Some(query_view(*e)),
        None => None,
    }
}

/// List the scanned tasks a query admits (all of them without a query), and
/// how many broken task files the scan found.
pub fn list(scan: &Scan, query: Option<&Expr>) -> (r: (Vec<TaskView>, usize))
    requires
        query matches Some(e) ==> query_valid(query_view(*e)),
    ensures
        views_of(scan.tasks@, matching(scan.tasks@, opt_query_view(query), scan.tasks.len() as int), r.0@),
        r.1 == scan.invalid.len(),
{
    let ghost ts = scan.tasks@;
    let graph = Graph::build(scan.tasks.as_slice());
    let mut views: Vec<TaskView> = Vec::new();
    let mut i: usize = 0;
    while i < scan.tasks.len()
        invariant
            ts == scan.tasks@,
            graph.tasks_spec() == ts,
            i <= scan.tasks.len(),
            query matches Some(e) ==> query_valid(query_view(*e)),
            views_of(ts, matching(ts, opt_query_view(query), i as int), views@),
        decreases scan.tasks.len() - i,
    {
        let t = &scan.tasks[i];
        let keep = match query {
            Some(e) => {
                let ctx = EvalCtx { ready: graph.is_ready(t) };
                eval(e, t, &ctx)
            },
            None => true,
        };
        if keep {
            let v = TaskView::build(t, &graph, false);
            let ghost before = views@;
            views.push(v);
            proof {
                let idx = matching(ts, opt_query_view(query), i + 1);
                assert(idx == matching(ts, opt_query_view(query), i as int).push(i as int));
                assert forall|k: int| 0 <= k < views@.len() implies view_ok(ts, ts[idx[k]], #[trigger] views@[k], false) by {
                    if k < before.len() {
                        assert(views@[k] == before[k]);
                    }
                }
            }
        }
        i += 1;
    }
    (views, scan.invalid.len())
}

/// Indices of the tasks below `n` whose title or body contains the needle,
/// ignoring case.
pub open spec fn searched(ts: Seq<Task>, needle: Seq<char>, n: int) -> Seq<int>
    decreases n,
{
    if n <= 0 {
        Seq::empty()
    } else {
        let t = ts[n - 1];
        let q = spec_to_lowercase(needle);
        if has_infix(spec_to_lowercase(t.title_spec()), q) || has_infix(spec_to_lowercase(t.body@), q) {
            searched(ts, needle, n - 1).push(n - 1)
        } else {
            searched(ts, needle, n - 1)
        }
    }
}

/// Full-text search across titles and bodies (case-insensitive substring),
/// with the count of broken files, like [`list`].
pub fn search(scan: &Scan, needle: &str) -> (r: (Vec<TaskView>, usize))
    ensures
        views_of(scan.tasks@, searched(scan.tasks@, needle@, scan.tasks.len() as int), r.0@),
        r.1 == scan.invalid.len(),
{
    let ghost ts = scan.tasks@;
    let q = to_lowercase(needle);
    let qc = chars_of(q.as_str());
    let graph = Graph::build(scan.tasks.as_slice());
    let mut views: Vec<TaskView> = Vec::new();
    let mut i: usize = 0;
    while i < scan.tasks.len()
        invariant
            ts == scan.tasks@,
            graph.tasks_spec() == ts,
            i <= scan.tasks.len(),
            qc@ == spec_to_lowercase(needle@),
            views_of(ts, searched(ts, needle@, i as int), views@),
        decreases scan.tasks.len() - i,
    {
        let t = &scan.tasks[i];
        let title = to_lowercase(t.title().as_str());
        let body = to_lowercase(t.body.as_str());
        let hit = crate::query::contains_chars(&chars_of(title.as_str()), &qc) || crate::query::contains_chars(
            &chars_of(body.as_str()),
            &qc,
        );
        if hit {
            let v = TaskView::build(t, &graph, false);
            let ghost before = views@;
            views.push(v);
            proof {
                let idx = searched(ts, needle@, i + 1);
                assert(idx == searched(ts, needle@, i as int).push(i as int));
                assert forall|k: int| 0 <= k < views@.len() implies view_ok(ts, ts[idx[k]], #[trigger] views@[k], false) by {
                    if k < before.len() {
                        assert(views@[k] == before[k]);
                    }
                }
            }
        }
        i += 1;
    }
    (views, scan.invalid.len())
}

/// One task with its body (detail view), the first file carrying the id.
pub fn show(scan: &Scan, id: &str) -> (r: Result<TaskView, VerbError>)
    ensures
        match first_with_id(scan.tasks@, id@) {
            Some(i) => r matches Ok(v) && view_ok(scan.tasks@, scan.tasks@[i], v, true),
            None => r matches Err(e) && verb_error_view(e) == VerbErrV::NoSuchTask(id@),
        },
{
    let graph = Graph::build(scan.tasks.as_slice());
    match scan.find(id) {
        Some(t) => Ok(TaskView::build(t, &graph, true)),
        None => Err(VerbError::NoSuchTask(id.to_owned())),
    }
}

} // verus!
