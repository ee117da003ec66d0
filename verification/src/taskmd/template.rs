//! Task templates for `create --template`.
//!
//! Three built-ins (`feature`, `bug`, `chore`) carry the frontmatter defaults
//! and bodies taskmd ships. A custom template (a vault's
//! `.taskmd/templates/<name>.md`: frontmatter = field defaults, body = task
//! body) takes precedence over a built-in of the same name; the caller reads
//! that file and hands its text in.

use vstd::prelude::*;

use crate::taskmd::model::{
    Priority, Task, TaskType, normalized_body, priority_named, priority_text, split_frontmatter,
    split_spec, task_type_named, task_type_text,
};
use serde_norway::Mapping;

use crate::text::{chars_of, string_of, trim, trim_chars};
use crate::yaml::{YamlHead, YamlV, key_index, mapping_get, mapping_model, spec_yaml_parse, upsert, value_into_mapping, yaml_load, yaml_model, yaml_open};

verus! {

/// Field defaults and body a template contributes to a new task.
#[derive(Debug, Clone, PartialEq)]
pub struct Template {
    pub priority: Option<Priority>,
    pub task_type: Option<TaskType>,
    pub body: String,
}

/// Why a template could not be had.
#[derive(Debug, Clone, PartialEq)]
pub enum TemplateError {
    /// No custom template and no built-in of this name.
    Unknown(String),
}

impl TemplateError {
    pub fn message(&self) -> (r: String)
        ensures
            r@ == (match self {
                TemplateError::Unknown(n) => "unknown template `"@ + n@ + "` (built-ins: feature, bug, chore)"@,
            }),
    {
        match self {
            TemplateError::Unknown(n) => {
                let mut s = "unknown template `".to_owned();
                s.append(n.as_str());
                s.append("` (built-ins: feature, bug, chore)");
                s
            },
        }
    }
}

pub open spec fn feature_body() -> Seq<char> {
    "## Objective\n\n<!-- Describe the goal of this feature -->\n\n## Tasks\n\n- [ ] TODO\n\n## Acceptance Criteria\n\n- TODO"@
}

pub open spec fn bug_body() -> Seq<char> {
    "## Steps to Reproduce\n\n1. ...\n\n## Expected Behavior\n\n<!-- What should happen -->\n\n## Actual Behavior\n\n<!-- What actually happens -->\n\n## Environment\n\n- OS:\n- Version:"@
}

pub open spec fn chore_body() -> Seq<char> {
    "## Description\n\n<!-- Describe the maintenance work needed -->\n\n## Tasks\n\n- [ ] TODO"@
}

/// The built-in template of a name: priority, type and body.
pub open spec fn builtin_spec(name: Seq<char>) -> Option<(Priority, TaskType, Seq<char>)> {
    if name == "feature"@ {
        Some((Priority::Medium, TaskType::Feature, feature_body()))
    } else if name == "bug"@ {
        Some((Priority::High, TaskType::Bug, bug_body()))
    } else if name == "chore"@ {
        Some((Priority::Low, TaskType::Chore, chore_body()))
    } else {
        None
    }
}

fn builtin(name: &str) -> (r: Option<Template>)
    ensures
        match builtin_spec(name@) {
            Some((p, t, b)) => r matches Some(x) && x.priority == Some(p) && x.task_type == Some(t) && x.body@ == b,
            None => r is None,
        },
{
    if crate::text::str_eq(name, "feature") {
        Some(Template {
            priority: Some(Priority::Medium),
            task_type: Some(TaskType::Feature),
            body: "## Objective\n\n<!-- Describe the goal of this feature -->\n\n## Tasks\n\n- [ ] TODO\n\n## Acceptance Criteria\n\n- TODO".to_owned(),
        })
    } else if crate::text::str_eq(name, "bug") {
        Some(Template {
            priority: Some(Priority::High),
            task_type: Some(TaskType::Bug),
            body: "## Steps to Reproduce\n\n1. ...\n\n## Expected Behavior\n\n<!-- What should happen -->\n\n## Actual Behavior\n\n<!-- What actually happens -->\n\n## Environment\n\n- OS:\n- Version:".to_owned(),
        })
    } else if crate::text::str_eq(name, "chore") {
        Some(Template {
            priority: Some(Priority::Low),
            task_type: Some(TaskType::Chore),
            body: "## Description\n\n<!-- Describe the maintenance work needed -->\n\n## Tasks\n\n- [ ] TODO".to_owned(),
        })
    } else {
        None
    }
}

/// The field defaults of a custom template: its frontmatter entries when it
/// parses as a mapping, none otherwise.
pub open spec fn custom_entries(raw: Seq<char>) -> Seq<(YamlV, YamlV)> {
    match split_spec(raw) {
        Some((fm, _)) => match spec_yaml_parse(fm) {
            Ok(YamlV::Dict(e)) => e,
            _ => Seq::empty(),
        },
        None => Seq::empty(),
    }
}

/// A string-valued default.
pub open spec fn custom_text(e: Seq<(YamlV, YamlV)>, key: Seq<char>) -> Option<Seq<char>> {
    match key_index(e, key) {
        Some(i) => match e[i].1 {
            YamlV::Str(s) => Some(s),
            _ => None,
        },
        None => None,
    }
}

/// The body of a custom template: what follows its frontmatter (all of it
/// without one), trimmed.
pub open spec fn custom_body(raw: Seq<char>) -> Seq<char> {
    match split_spec(raw) {
        Some((_, b)) => trim(b),
        None => trim(raw),
    }
}

pub open spec fn opt_and_then_priority(o: Option<Seq<char>>) -> Option<Priority> {
    match o {
        Some(s) => priority_named(s),
        None => None,
    }
}

pub open spec fn opt_and_then_type(o: Option<Seq<char>>) -> Option<TaskType> {
    match o {
        Some(s) => task_type_named(s),
        None => None,
    }
}

/// A string default of a custom template's frontmatter.
fn custom_default(m: &Option<Mapping>, key: &str) -> (r: Option<String>)
    ensures
        crate::text::opt_text(r) == custom_text(
            match m {
                Some(x) => mapping_model(*x),
                None => Seq::empty(),
            },
            key@,
        ),
{
    match m {
        Some(doc) => match mapping_get(doc, key) {
            Some(v) => {
                let (head, _) = yaml_open(v);
                match head {
                    YamlHead::Str(s) => Some(s),
                    _ => None,
                }
            },
            None => None,
        },
        None => None,
    }
}

/// Parse a custom template file: optional frontmatter for field defaults
/// (`priority`, `type`), the rest is the body.
fn parse_custom(raw: &str) -> (r: Template)
    ensures
        r.priority == opt_and_then_priority(custom_text(custom_entries(raw@), "priority"@)),
        r.task_type == opt_and_then_type(custom_text(custom_entries(raw@), "type"@)),
        r.body@ == custom_body(raw@),
{
    let (fm, body) = match split_frontmatter(raw) {
        Some((f, b)) => (Some(f), b),
        None => (None, raw),
    };
    let doc: Option<Mapping> = match fm {
        Some(f) => match yaml_load(f) {
            Ok(v) => value_into_mapping(v),
            Err(_) => None,
        },
        None => None,
    };
    let priority = match custom_default(&doc, "priority") {
        Some(p) => Priority::parse(p.as_str()),
        None => None,
    };
    let task_type = match custom_default(&doc, "type") {
        Some(t) => TaskType::parse(t.as_str()),
        None => None,
    };
    let c = chars_of(body);
    let t = trim_chars(&c);
    Template { priority, task_type, body: string_of(t.as_slice()) }
}

/// A template's defaults and body.
pub open spec fn template_view(t: Template) -> (Option<Priority>, Option<TaskType>, Seq<char>) {
    (t.priority, t.task_type, t.body@)
}

/// What `resolve` gives: the custom template when the vault has one, else
/// the built-in of that name, else the unknown name.
pub open spec fn resolve_spec(custom: Option<Seq<char>>, name: Seq<char>) -> Result<
    (Option<Priority>, Option<TaskType>, Seq<char>),
    Seq<char>,
> {
    match custom {
        Some(raw) => Ok(
            (
                opt_and_then_priority(custom_text(custom_entries(raw), "priority"@)),
                opt_and_then_type(custom_text(custom_entries(raw), "type"@)),
                custom_body(raw),
            ),
        ),
        None => match builtin_spec(name) {
            Some((p, ty, b)) => Ok((Some(p), Some(ty), b)),
            None => Err(name),
        },
    }
}

pub open spec fn opt_str_view(o: Option<&str>) -> Option<Seq<char>> {
    match o {
        Some(c) => Some(c@),
        None => None,
    }
}

/// Resolve a template by name: the custom template text the vault holds for
/// it (if any) first, then the built-ins. Unknown names are an error.
pub fn resolve(custom: Option<&str>, name: &str) -> (r: Result<Template, TemplateError>)
    ensures
        match r {
            Ok(t) => resolve_spec(opt_str_view(custom), name@) == Ok::<_, Seq<char>>(template_view(t)),
            Err(TemplateError::Unknown(n)) => resolve_spec(opt_str_view(custom), name@) == Err::<
                (Option<Priority>, Option<TaskType>, Seq<char>),
                _,
            >(n@),
        },
{
    match custom {
        Some(raw) => Ok(parse_custom(raw)),
        None => match builtin(name) {
            Some(t) => Ok(t),
            None => Err(TemplateError::Unknown(name.to_owned())),
        },
    }
}

/// The frontmatter after a template's defaults.
pub open spec fn applied_fm(fm: Seq<(YamlV, YamlV)>, t: Template) -> Seq<(YamlV, YamlV)> {
    let f1 = match t.priority {
        Some(p) => upsert(fm, "priority"@, YamlV::Str(priority_text(p))),
        None => fm,
    };
    match t.task_type {
        Some(x) => upsert(f1, "type"@, YamlV::Str(task_type_text(x))),
        None => f1,
    }
}

/// Apply a template's defaults to a new task. Explicit values set after
/// this call override the template.
pub fn apply(template: &Template, task: &mut Task)
    ensures
        final(task).fm() == applied_fm(old(task).fm(), *template),
        final(task).body@ == normalized_body(template.body@),
        final(task).rel_path == old(task).rel_path,
        final(task).dir_group == old(task).dir_group,
        old(task).wf() ==> final(task).wf(),
{
    if let Some(p) = template.priority {
        task.set_priority(p);
    }
    if let Some(t) = template.task_type {
        task.set_task_type(t);
    }
    task.set_body(template.body.as_str());
}

} // verus!
