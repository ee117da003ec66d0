//! Vault linting against the taskmd spec.
//!
//! Errors are files taskmd would reject (broken frontmatter, missing
//! id/title, invalid enums, duplicate ids, dangling or cyclic references);
//! warnings are things that work but smell (unconfigured phase/scope, missing
//! `created_at`, off-convention filename). Exit codes match taskmd: 0 clean,
//! 1 errors, 2 warnings under `--strict`.
//!
//! The vault is opened and scanned by the caller; [`validate`] judges what the
//! scan found.

use vstd::prelude::*;

use crate::date::{Date, spec_parse_ymd};
use crate::query::created_of;
use crate::taskmd::config::{Config, phase_position};
use crate::taskmd::graph::{Graph, GraphIssue, IssueV, issue_view, issues_ok, issues_view};
use crate::taskmd::model::{
    Effort, Priority, Status, Task, TaskType, effort_named, priority_named, status_named,
    task_type_named,
};
use crate::taskmd::store::{InvalidFile, Scan, count_with_id, first_with_id};
use crate::text::{
    contains_str, dec, dec_chars, insert_sorted, join_sep, join_strings, opt_text, str_eq,
    string_of, strictly_sorted, texts,
};

verus! {

#[derive(Debug, Clone, Copy, PartialEq, Eq, Structural)]
pub enum Severity {
    Error,
    Warning,
}

/// One problem, anchored to a file and (when known) a task id.
#[derive(Debug, Clone, PartialEq)]
pub struct Finding {
    pub severity: Severity,
    pub file: Option<String>,
    pub task: Option<String>,
    pub message: String,
}

/// Everything one validation run found.
#[derive(Debug, PartialEq)]
pub struct Report {
    /// Number of parseable tasks checked.
    pub checked: usize,
    pub findings: Vec<Finding>,
}

/// A finding, mathematically.
pub struct FindingV {
    pub severity: Severity,
    pub file: Option<Seq<char>>,
    pub task: Option<Seq<char>>,
    pub message: Seq<char>,
}

pub open spec fn finding_view(f: Finding) -> FindingV {
    FindingV { severity: f.severity, file: opt_text(f.file), task: opt_text(f.task), message: f.message@ }
}

pub open spec fn findings_view(fs: Seq<Finding>) -> Seq<FindingV> {
    fs.map_values(|f: Finding| finding_view(f))
}

/// How many findings have this severity.
pub open spec fn count_severity(fs: Seq<Finding>, s: Severity) -> nat
    decreases fs.len(),
{
    if fs.len() == 0 {
        0
    } else {
        count_severity(fs.drop_last(), s) + if fs.last().severity == s {
            1nat
        } else {
            0nat
        }
    }
}

/// taskmd's exit code: 1 on errors, 2 on warnings under `--strict`, else 0.
pub open spec fn exit_code_spec(errors: nat, warnings: nat, strict: bool) -> int {
    if errors > 0 {
        1
    } else if strict && warnings > 0 {
        2
    } else {
        0
    }
}

proof fn lemma_count_bound(fs: Seq<Finding>, s: Severity)
    ensures
        count_severity(fs, s) <= fs.len(),
    decreases fs.len(),
{
    if fs.len() > 0 {
        lemma_count_bound(fs.drop_last(), s);
    }
}

impl Report {
    fn count(&self, s: Severity) -> (r: usize)
        ensures
            r == count_severity(self.findings@, s),
    {
        let mut n: usize = 0;
        let mut i: usize = 0;
        while i < self.findings.len()
            invariant
                i <= self.findings.len(),
                n == count_severity(self.findings@.take(i as int), s),
            decreases self.findings.len() - i,
        {
            proof {
                assert(self.findings@.take(i + 1).drop_last() =~= self.findings@.take(i as int));
                lemma_count_bound(self.findings@.take(i as int), s);
            }
            if self.findings[i].severity == s {
                n += 1;
            }
            i += 1;
        }
        assert(self.findings@.take(self.findings.len() as int) =~= self.findings@);
        n
    }

    pub fn errors(&self) -> (r: usize)
        ensures
            r == count_severity(self.findings@, Severity::Error),
    {
        self.count(Severity::Error)
    }

    pub fn warnings(&self) -> (r: usize)
        ensures
            r == count_severity(self.findings@, Severity::Warning),
    {
        self.count(Severity::Warning)
    }

    /// taskmd-compatible exit code: 1 on errors, 2 on warnings under
    /// `--strict`, 0 otherwise.
    pub fn exit_code(&self, strict: bool) -> (r: u8)
        ensures
            r as int == exit_code_spec(
                count_severity(self.findings@, Severity::Error),
                count_severity(self.findings@, Severity::Warning),
                strict,
            ),
    {
        if self.errors() > 0 {
            1
        } else if strict && self.warnings() > 0 {
            2
        } else {
            0
        }
    }
}

// ---------------------------------------------------------------------------
// What each check reports

pub open spec fn one_if(cond: bool, f: FindingV) -> Seq<FindingV> {
    if cond {
        seq![f]
    } else {
        Seq::empty()
    }
}

pub open spec fn err_at(t: Task, msg: Seq<char>) -> FindingV {
    FindingV { severity: Severity::Error, file: opt_text(t.rel_path), task: Some(t.id_spec()), message: msg }
}

pub open spec fn warn_at(t: Task, msg: Seq<char>) -> FindingV {
    FindingV { severity: Severity::Warning, file: opt_text(t.rel_path), task: Some(t.id_spec()), message: msg }
}

/// A raw field value that fails its check, as an error with `msg(raw)`.
pub open spec fn bad_raw(t: Task, key: Seq<char>, ok: spec_fn(Seq<char>) -> bool, pre: Seq<char>, post: Seq<char>) -> Seq<FindingV> {
    match t.text(key) {
        Some(raw) => one_if(!ok(raw), err_at(t, pre + raw + post)),
        None => Seq::empty(),
    }
}

/// Invalid enum values and a malformed `due`.
pub open spec fn value_findings(t: Task) -> Seq<FindingV> {
    bad_raw(t, "status"@, |v: Seq<char>| status_named(v) is Some, "invalid status `"@,
        "` (pending, in-progress, in-review, completed, blocked, cancelled)"@)
    + bad_raw(t, "priority"@, |v: Seq<char>| priority_named(v) is Some, "invalid priority `"@,
        "` (low, medium, high, critical)"@)
    + bad_raw(t, "effort"@, |v: Seq<char>| effort_named(v) is Some, "invalid effort `"@,
        "` (small, medium, large)"@)
    + bad_raw(t, "type"@, |v: Seq<char>| task_type_named(v) is Some, "invalid type `"@,
        "` (feature, bug, improvement, chore, docs)"@)
    + bad_raw(t, "due"@, |v: Seq<char>| spec_parse_ymd(v) is Some, "invalid due `"@,
        "` (need YYYY-MM-DD)"@)
}

/// A scope of this name is configured.
pub open spec fn has_scope(cfg: Config, name: Seq<char>) -> bool {
    exists|k: int| 0 <= k < cfg.scopes.len() && #[trigger] cfg.scopes@[k].0@ == name
}

/// Touched scopes that are not configured, in order.
pub open spec fn scope_findings(cfg: Config, t: Task, touches: Seq<Seq<char>>) -> Seq<FindingV>
    decreases touches.len(),
{
    if touches.len() == 0 {
        Seq::empty()
    } else {
        scope_findings(cfg, t, touches.drop_last()) + one_if(
            !has_scope(cfg, touches.last()),
            warn_at(t, "touches unknown scope `"@ + touches.last() + "`"@),
        )
    }
}

/// Name for what `Path::file_name` gives for a path (the last component).
pub uninterp spec fn spec_file_name(p: Seq<char>) -> Option<Seq<char>>;

/// `Path::file_name` of a path text. A plain file name is its own file name.
#[verifier::external_body]
fn file_name_of(p: &str) -> (r: Option<String>)
    ensures
        opt_text(r) == spec_file_name(p@),
        (p@.len() > 0 && !p@.contains('/') && p@ != "."@ && p@ != ".."@) ==> opt_text(r) == Some(p@),
{
    match std::path::Path::new(p).file_name() {
        Some(n) => Some(n.to_string_lossy().into_owned()),
        None => None,
    }
}

/// The file name of a task's path, or nothing.
pub open spec fn name_of(t: Task) -> Seq<char> {
    match t.rel_path {
        Some(p) => match spec_file_name(p@) {
            Some(n) => n,
            None => Seq::empty(),
        },
        None => Seq::empty(),
    }
}

/// Unconfigured phase and scopes, a missing `created_at`, and a filename
/// that does not start with `<id>-`.
pub open spec fn warning_findings(cfg: Config, t: Task) -> Seq<FindingV> {
    (if cfg.phases.len() > 0 {
        match t.text("phase"@) {
            Some(ph) => one_if(
                phase_position(cfg.phases@, ph) is None,
                warn_at(t, "phase `"@ + ph + "` is not configured"@),
            ),
            None => Seq::empty(),
        }
    } else {
        Seq::empty()
    }) + (if cfg.scopes.len() > 0 {
        scope_findings(cfg, t, t.list("touches"@))
    } else {
        Seq::empty()
    }) + one_if(created_of(t) is None, warn_at(t, "missing created_at"@)) + one_if(
        !(t.id_spec() + "-"@).is_prefix_of(name_of(t)),
        warn_at(t, "filename `"@ + name_of(t) + "` does not follow `"@ + t.id_spec() + "-<slug>.md`"@),
    )
}

/// The per-task findings, tasks in scan order.
pub open spec fn tasks_findings(cfg: Config, ts: Seq<Task>) -> Seq<FindingV>
    decreases ts.len(),
{
    if ts.len() == 0 {
        Seq::empty()
    } else {
        tasks_findings(cfg, ts.drop_last()) + value_findings(ts.last()) + warning_findings(cfg, ts.last())
    }
}

/// Broken task-like files, as errors carrying the reason.
pub open spec fn invalid_findings(inv: Seq<InvalidFile>) -> Seq<FindingV> {
    inv.map_values(
        |f: InvalidFile|
            FindingV { severity: Severity::Error, file: Some(f.rel_path@), task: None, message: f.reason@ },
    )
}

/// The path text of a task's file, empty when it has none.
pub open spec fn file_text(t: Task) -> Seq<char> {
    match t.rel_path {
        Some(p) => p@,
        None => Seq::empty(),
    }
}

/// The files carrying an id, in scan order.
pub open spec fn files_with_id(ts: Seq<Task>, x: Seq<char>) -> Seq<Seq<char>>
    decreases ts.len(),
{
    if ts.len() == 0 {
        Seq::empty()
    } else {
        files_with_id(ts.drop_last(), x) + if ts.last().id_spec() == x {
            seq![file_text(ts.last())]
        } else {
            Seq::<Seq<char>>::empty()
        }
    }
}

/// The ids carried by more than one file, sorted.
pub open spec fn dup_ids_ok(ts: Seq<Task>, ids: Seq<Seq<char>>) -> bool {
    &&& strictly_sorted(ids)
    &&& forall|x: Seq<char>| #[trigger] ids.contains(x) <==> count_with_id(ts, x) >= 2
}

pub open spec fn dup_finding(ts: Seq<Task>, x: Seq<char>) -> FindingV {
    FindingV {
        severity: Severity::Error,
        file: None,
        task: Some(x),
        message: "duplicate id in "@ + join_sep(files_with_id(ts, x), ", "@),
    }
}

/// The file of the task an id resolves to.
pub open spec fn file_for(ts: Seq<Task>, id: Seq<char>) -> Option<Seq<char>> {
    match first_with_id(ts, id) {
        Some(i) => opt_text(ts[i].rel_path),
        None => None,
    }
}

/// A graph defect as an error finding.
pub open spec fn issue_finding(ts: Seq<Task>, iv: IssueV) -> FindingV {
    match iv {
        IssueV::Dangling(t, m) => FindingV {
            severity: Severity::Error,
            file: file_for(ts, t),
            task: Some(t),
            message: "dependency `"@ + m + "` does not exist"@,
        },
        IssueV::DepCycle(ids) => FindingV {
            severity: Severity::Error,
            file: None,
            task: None,
            message: "dependency cycle: "@ + join_sep(ids, " -> "@),
        },
        IssueV::MissingParent(t, p) => FindingV {
            severity: Severity::Error,
            file: file_for(ts, t),
            task: Some(t),
            message: "parent `"@ + p + "` does not exist"@,
        },
        IssueV::SelfParent(t) => FindingV {
            severity: Severity::Error,
            file: file_for(ts, t),
            task: Some(t),
            message: "task is its own parent"@,
        },
        IssueV::ParentCycle(ids) => FindingV {
            severity: Severity::Error,
            file: None,
            task: None,
            message: "parent cycle: "@ + join_sep(ids, " -> "@),
        },
    }
}

/// Everything validation reports, in order: broken files, per-task checks
/// (scan order), duplicate ids (sorted), graph defects.
pub open spec fn report_ok(cfg: Config, scan: Scan, fs: Seq<FindingV>) -> bool {
    exists|dups: Seq<Seq<char>>, iv: Seq<IssueV>|
        #![trigger dup_ids_ok(scan.tasks@, dups), issues_ok(scan.tasks@, iv)]
        dup_ids_ok(scan.tasks@, dups) && issues_ok(scan.tasks@, iv) && fs == invalid_findings(scan.invalid@)
            + tasks_findings(cfg, scan.tasks@) + dups.map_values(|x: Seq<char>| dup_finding(scan.tasks@, x))
            + iv.map_values(|i: IssueV| issue_finding(scan.tasks@, i))
}

// ---------------------------------------------------------------------------
// Checks

fn text2(a: &str, b: &str) -> (r: String)
    ensures
        r@ == a@ + b@,
{
    let mut s = a.to_owned();
    s.append(b);
    s
}

fn text3(a: &str, b: &str, c: &str) -> (r: String)
    ensures
        r@ == a@ + b@ + c@,
{
    let mut s = a.to_owned();
    s.append(b);
    s.append(c);
    s
}

proof fn lemma_views_push(v: Seq<Finding>, f: Finding)
    ensures
        findings_view(v.push(f)) == findings_view(v).push(finding_view(f)),
{
    assert(findings_view(v.push(f)) =~= findings_view(v).push(finding_view(f)));
}

fn push_finding(out: &mut Vec<Finding>, f: Finding)
    ensures
        findings_view(final(out)@) == findings_view(old(out)@).push(finding_view(f)),
{
    let ghost before = out@;
    out.push(f);
    proof {
        lemma_views_push(before, f);
    }
}

fn task_finding(t: &Task, severity: Severity, message: String) -> (r: Finding)
    ensures
        finding_view(r) == (if severity == Severity::Error {
            err_at(*t, message@)
        } else {
            warn_at(*t, message@)
        }),
{
    let file = match &t.rel_path {
        Some(p) => Some(p.clone()),
        None => None,
    };
    Finding { severity, file, task: Some(t.id()), message }
}

/// Whether a scope of this name is configured.
fn scope_known(cfg: &Config, name: &str) -> (r: bool)
    ensures
        r == has_scope(*cfg, name@),
{
    let mut k: usize = 0;
    while k < cfg.scopes.len()
        invariant
            k <= cfg.scopes.len(),
            forall|j: int| 0 <= j < k ==> cfg.scopes@[j].0@ != name@,
        decreases cfg.scopes.len() - k,
    {
        if str_eq(cfg.scopes[k].0.as_str(), name) {
            return true;
        }
        k += 1;
    }
    false
}

/// Append an error when a raw field value fails its check.
fn push_bad_raw(
    out: &mut Vec<Finding>,
    t: &Task,
    raw: Option<String>,
    ok: bool,
    pre: &str,
    post: &str,
)
    ensures
        findings_view(final(out)@) == findings_view(old(out)@) + (match raw {
            Some(v) => one_if(!ok, err_at(*t, pre@ + v@ + post@)),
            None => Seq::empty(),
        }),
{
    let ghost base = findings_view(out@);
    match raw {
        Some(v) => {
            if !ok {
                let m = text3(pre, v.as_str(), post);
                push_finding(out, task_finding(t, Severity::Error, m));
            } else {
                assert(findings_view(out@) =~= base + Seq::<FindingV>::empty());
            }
        },
        None => {
            assert(findings_view(out@) =~= base + Seq::<FindingV>::empty());
        },
    }
}

/// Append the value checks of one task.
fn check_values(t: &Task, out: &mut Vec<Finding>)
    ensures
        findings_view(final(out)@) == findings_view(old(out)@) + value_findings(*t),
{
    let ghost base = findings_view(out@);
    let st = t.status_raw();
    let ok = match &st {
        Some(v) => Status::parse(v.as_str()).is_some(),
        None => true,
    };
    push_bad_raw(out, t, st, ok, "invalid status `", "` (pending, in-progress, in-review, completed, blocked, cancelled)");
    let ghost b1 = findings_view(out@);
    let pr = t.priority_raw();
    let ok = match &pr {
        Some(v) => Priority::parse(v.as_str()).is_some(),
        None => true,
    };
    push_bad_raw(out, t, pr, ok, "invalid priority `", "` (low, medium, high, critical)");
    let ghost b2 = findings_view(out@);
    let ef = t.effort_raw();
    let ok = match &ef {
        Some(v) => Effort::parse(v.as_str()).is_some(),
        None => true,
    };
    push_bad_raw(out, t, ef, ok, "invalid effort `", "` (small, medium, large)");
    let ghost b3 = findings_view(out@);
    let ty = t.task_type_raw();
    let ok = match &ty {
        Some(v) => TaskType::parse(v.as_str()).is_some(),
        None => true,
    };
    push_bad_raw(out, t, ty, ok, "invalid type `", "` (feature, bug, improvement, chore, docs)");
    let ghost b4 = findings_view(out@);
    let du = t.due_raw();
    let ok = match &du {
        Some(v) => Date::parse(v.as_str()).is_some(),
        None => true,
    };
    push_bad_raw(out, t, du, ok, "invalid due `", "` (need YYYY-MM-DD)");
    proof {
        lemma_value_findings(*t, base, b1, b2, b3, b4, findings_view(out@));
    }
}

proof fn lemma_value_findings(
    t: Task,
    base: Seq<FindingV>,
    b1: Seq<FindingV>,
    b2: Seq<FindingV>,
    b3: Seq<FindingV>,
    b4: Seq<FindingV>,
    b5: Seq<FindingV>,
)
    requires
        b1 == base + bad_raw(t, "status"@, |v: Seq<char>| status_named(v) is Some, "invalid status `"@,
            "` (pending, in-progress, in-review, completed, blocked, cancelled)"@),
        b2 == b1 + bad_raw(t, "priority"@, |v: Seq<char>| priority_named(v) is Some, "invalid priority `"@,
            "` (low, medium, high, critical)"@),
        b3 == b2 + bad_raw(t, "effort"@, |v: Seq<char>| effort_named(v) is Some, "invalid effort `"@,
            "` (small, medium, large)"@),
        b4 == b3 + bad_raw(t, "type"@, |v: Seq<char>| task_type_named(v) is Some, "invalid type `"@,
            "` (feature, bug, improvement, chore, docs)"@),
        b5 == b4 + bad_raw(t, "due"@, |v: Seq<char>| spec_parse_ymd(v) is Some, "invalid due `"@,
            "` (need YYYY-MM-DD)"@),
    ensures
        b5 == base + value_findings(t),
{
    assert(b5 =~= base + value_findings(t));
}

/// Append the warnings of one task.
fn check_warnings(cfg: &Config, t: &Task, out: &mut Vec<Finding>)
    ensures
        findings_view(final(out)@) == findings_view(old(out)@) + warning_findings(*cfg, *t),
{
    let ghost base = findings_view(out@);
    let ghost w1 = if cfg.phases.len() > 0 {
        match t.text("phase"@) {
            Some(ph) => one_if(
                phase_position(cfg.phases@, ph) is None,
                warn_at(*t, "phase `"@ + ph + "` is not configured"@),
            ),
            None => Seq::empty(),
        }
    } else {
        Seq::empty()
    };
    let ghost w2 = if cfg.scopes.len() > 0 {
        scope_findings(*cfg, *t, t.list("touches"@))
    } else {
        Seq::empty()
    };
    let ghost w3 = one_if(created_of(*t) is None, warn_at(*t, "missing created_at"@));
    let ghost w4 = one_if(
        !(t.id_spec() + "-"@).is_prefix_of(name_of(*t)),
        warn_at(*t, "filename `"@ + name_of(*t) + "` does not follow `"@ + t.id_spec() + "-<slug>.md`"@),
    );
    if cfg.phases.len() > 0 {
        if let Some(phase) = t.phase() {
            if cfg.phase_index(phase.as_str()).is_none() {
                let m = text3("phase `", phase.as_str(), "` is not configured");
                push_finding(out, task_finding(t, Severity::Warning, m));
            }
        }
    }
    assert(findings_view(out@) =~= base + w1);
    if cfg.scopes.len() > 0 {
        let touches = t.touches();
        let ghost b1 = findings_view(out@);
        let mut i: usize = 0;
        assert(texts(touches@).take(0) =~= Seq::<Seq<char>>::empty());
        assert(b1 + Seq::<FindingV>::empty() =~= b1);
        while i < touches.len()
            invariant
                i <= touches.len(),
                findings_view(out@) == b1 + scope_findings(*cfg, *t, texts(touches@).take(i as int)),
            decreases touches.len() - i,
        {
            proof {
                assert(texts(touches@).take(i + 1).drop_last() =~= texts(touches@).take(i as int));
                assert(texts(touches@).take(i + 1).last() == touches@[i as int]@);
            }
            let ghost prev = scope_findings(*cfg, *t, texts(touches@).take(i as int));
            if !scope_known(cfg, touches[i].as_str()) {
                let m = text3("touches unknown scope `", touches[i].as_str(), "`");
                push_finding(out, task_finding(t, Severity::Warning, m));
                assert(findings_view(out@) =~= b1 + scope_findings(*cfg, *t, texts(touches@).take(i + 1)));
            } else {
                assert(findings_view(out@) =~= b1 + scope_findings(*cfg, *t, texts(touches@).take(i + 1)));
            }
            i += 1;
        }
        assert(texts(touches@).take(touches.len() as int) =~= texts(touches@));
    }
    assert(findings_view(out@) =~= base + w1 + w2);
    if t.created_at().is_none() {
        push_finding(out, task_finding(t, Severity::Warning, "missing created_at".to_owned()));
    }
    assert(findings_view(out@) =~= base + w1 + w2 + w3);
    let name = match &t.rel_path {
        Some(p) => match file_name_of(p.as_str()) {
            Some(n) => n,
            None => String::new(),
        },
        None => String::new(),
    };
    let id = t.id();
    let mut want = id.clone();
    want.append("-");
    if !starts_with(name.as_str(), want.as_str()) {
        let mut m = text3("filename `", name.as_str(), "` does not follow `");
        m.append(id.as_str());
        m.append("-<slug>.md`");
        push_finding(out, task_finding(t, Severity::Warning, m));
    }
    assert(findings_view(out@) =~= base + w1 + w2 + w3 + w4);
}

/// `str::starts_with`.
fn starts_with(s: &str, prefix: &str) -> (r: bool)
    ensures
        r == prefix@.is_prefix_of(s@),
{
    let a = crate::text::chars_of(s);
    let b = crate::text::chars_of(prefix);
    if b.len() > a.len() {
        return false;
    }
    let mut i: usize = 0;
    while i < b.len()
        invariant
            i <= b.len(),
            b.len() <= a.len(),
            a@ == s@,
            b@ == prefix@,
            forall|j: int| 0 <= j < i ==> a@[j] == b@[j],
        decreases b.len() - i,
    {
        if a[i] != b[i] {
            return false;
        }
        i += 1;
    }
    assert(b@ =~= a@.subrange(0, b@.len() as int));
    true
}

/// How many tasks carry this id.
fn count_id(tasks: &[Task], id: &str) -> (r: usize)
    ensures
        r == count_with_id(tasks@, id@),
{
    let mut n: usize = 0;
    let mut i: usize = 0;
    while i < tasks.len()
        invariant
            i <= tasks.len(),
            n == count_with_id(tasks@.take(i as int), id@),
            n <= i,
        decreases tasks.len() - i,
    {
        assert(tasks@.take(i + 1).drop_last() =~= tasks@.take(i as int));
        if str_eq(tasks[i].id().as_str(), id) {
            n += 1;
        }
        i += 1;
    }
    assert(tasks@.take(tasks.len() as int) =~= tasks@);
    n
}

/// The files carrying an id, in scan order.
fn files_of_id(tasks: &[Task], id: &str) -> (r: Vec<String>)
    ensures
        texts(r@) == files_with_id(tasks@, id@),
{
    let mut out: Vec<String> = Vec::new();
    let mut i: usize = 0;
    while i < tasks.len()
        invariant
            i <= tasks.len(),
            texts(out@) == files_with_id(tasks@.take(i as int), id@),
        decreases tasks.len() - i,
    {
        assert(tasks@.take(i + 1).drop_last() =~= tasks@.take(i as int));
        if str_eq(tasks[i].id().as_str(), id) {
            let f = match &tasks[i].rel_path {
                Some(p) => p.clone(),
                None => String::new(),
            };
            let ghost before = out@;
            out.push(f);
            assert(texts(out@) =~= texts(before).push(f@));
        } else {
            assert(files_with_id(tasks@.take(i + 1), id@) =~= files_with_id(tasks@.take(i as int), id@));
        }
        i += 1;
    }
    assert(tasks@.take(tasks.len() as int) =~= tasks@);
    out
}

/// The ids carried by more than one file, sorted.
fn duplicate_ids(tasks: &[Task]) -> (r: Vec<String>)
    ensures
        dup_ids_ok(tasks@, texts(r@)),
{
    let mut out: Vec<String> = Vec::new();
    let mut i: usize = 0;
    while i < tasks.len()
        invariant
            i <= tasks.len(),
            strictly_sorted(texts(out@)),
            forall|x: Seq<char>| #[trigger] texts(out@).contains(x) ==> count_with_id(tasks@, x) >= 2,
            forall|j: int|
                0 <= j < i && count_with_id(tasks@, #[trigger] tasks@[j].id_spec()) >= 2 ==> texts(out@).contains(
                    tasks@[j].id_spec(),
                ),
        decreases tasks.len() - i,
    {
        let id = tasks[i].id();
        let ghost before = texts(out@);
        if !contains_str(&out, id.as_str()) && count_id(tasks, id.as_str()) >= 2 {
            insert_sorted(&mut out, id);
            proof {
                assert forall|x: Seq<char>| #[trigger] texts(out@).contains(x) implies count_with_id(tasks@, x) >= 2 by {
                    assert(texts(out@).to_set().contains(x));
                }
                assert forall|j: int|
                    0 <= j < i + 1 && count_with_id(tasks@, #[trigger] tasks@[j].id_spec()) >= 2 implies texts(out@).contains(
                    tasks@[j].id_spec(),
                ) by {
                    assert(texts(out@).to_set().contains(tasks@[j].id_spec())) by {
                        if j < i {
                            assert(before.to_set().contains(tasks@[j].id_spec()));
                        }
                    }
                }
            }
        }
        i += 1;
    }
    proof {
        assert forall|x: Seq<char>| #[trigger] texts(out@).contains(x) <== count_with_id(tasks@, x) >= 2 by {
            if count_with_id(tasks@, x) >= 2 {
                lemma_count_has(tasks@, x);
                let j = choose|j: int| 0 <= j < tasks@.len() && tasks@[j].id_spec() == x;
                assert(count_with_id(tasks@, tasks@[j].id_spec()) >= 2);
            }
        }
    }
    out
}

proof fn lemma_count_has(ts: Seq<Task>, x: Seq<char>)
    requires
        count_with_id(ts, x) > 0,
    ensures
        exists|j: int| 0 <= j < ts.len() && ts[j].id_spec() == x,
    decreases ts.len(),
{
    if ts.last().id_spec() != x {
        lemma_count_has(ts.drop_last(), x);
        let j = choose|j: int| 0 <= j < ts.drop_last().len() && ts.drop_last()[j].id_spec() == x;
        assert(ts[j] == ts.drop_last()[j]);
    } else {
        assert(ts[ts.len() - 1].id_spec() == x);
    }
}

/// The file of the task an id resolves to.
fn file_of_id(graph: &Graph, id: &str) -> (r: Option<String>)
    ensures
        opt_text(r) == file_for(graph.tasks_spec(), id@),
{
    match graph.get(id) {
        Some(t) => match &t.rel_path {
            Some(p) => Some(p.clone()),
            None => None,
        },
        None => None,
    }
}

fn issue_to_finding(graph: &Graph, issue: &GraphIssue) -> (r: Finding)
    ensures
        finding_view(r) == issue_finding(graph.tasks_spec(), issue_view(*issue)),
{
    match issue {
        GraphIssue::DanglingDependency { task, missing } => Finding {
            severity: Severity::Error,
            file: file_of_id(graph, task.as_str()),
            task: Some(task.clone()),
            message: text3("dependency `", missing.as_str(), "` does not exist"),
        },
        GraphIssue::DependencyCycle { ids } => Finding {
            severity: Severity::Error,
            file: None,
            task: None,
            message: text2("dependency cycle: ", join_strings(ids, " -> ").as_str()),
        },
        GraphIssue::MissingParent { task, parent } => Finding {
            severity: Severity::Error,
            file: file_of_id(graph, task.as_str()),
            task: Some(task.clone()),
            message: text3("parent `", parent.as_str(), "` does not exist"),
        },
        GraphIssue::SelfParent { task } => Finding {
            severity: Severity::Error,
            file: file_of_id(graph, task.as_str()),
            task: Some(task.clone()),
            message: "task is its own parent".to_owned(),
        },
        GraphIssue::ParentCycle { ids } => Finding {
            severity: Severity::Error,
            file: None,
            task: None,
            message: text2("parent cycle: ", join_strings(ids, " -> ").as_str()),
        },
    }
}

/// Lint what a vault scan found. Non-task files were already left out by the
/// scanner and are never flagged.
#[verifier::spinoff_prover]
#[verifier::rlimit(50)]
pub fn validate(config: &Config, scan: &Scan) -> (r: Report)
    ensures
        r.checked == scan.tasks.len(),
        report_ok(*config, *scan, findings_view(r.findings@)),
{
    let ghost ts = scan.tasks@;
    let mut findings: Vec<Finding> = Vec::new();
    let mut i: usize = 0;
    assert(findings_view(findings@) =~= invalid_findings(scan.invalid@.take(0)));
    while i < scan.invalid.len()
        invariant
            i <= scan.invalid.len(),
            findings_view(findings@) == invalid_findings(scan.invalid@.take(i as int)),
        decreases scan.invalid.len() - i,
    {
        let inv = &scan.invalid[i];
        let f = Finding {
            severity: Severity::Error,
            file: Some(inv.rel_path.clone()),
            task: None,
            message: inv.reason.clone(),
        };
        push_finding(&mut findings, f);
        assert(invalid_findings(scan.invalid@.take(i + 1)) =~= invalid_findings(scan.invalid@.take(i as int)).push(
            finding_view(f),
        ));
        i += 1;
    }
    assert(scan.invalid@.take(scan.invalid.len() as int) =~= scan.invalid@);
    let ghost part1 = findings_view(findings@);
    let mut k: usize = 0;
    assert(ts.take(0) =~= Seq::<Task>::empty());
    assert(part1 + Seq::<FindingV>::empty() =~= part1);
    while k < scan.tasks.len()
        invariant
            ts == scan.tasks@,
            k <= scan.tasks.len(),
            findings_view(findings@) == part1 + tasks_findings(*config, ts.take(k as int)),
        decreases scan.tasks.len() - k,
    {
        let t = &scan.tasks[k];
        check_values(t, &mut findings);
        check_warnings(config, t, &mut findings);
        proof {
            assert(ts.take(k + 1).drop_last() =~= ts.take(k as int));
            assert(ts.take(k + 1).last() == *t);
            let pre = tasks_findings(*config, ts.take(k as int));
            assert(part1 + pre + value_findings(*t) + warning_findings(*config, *t) =~= part1 + (pre
                + value_findings(*t) + warning_findings(*config, *t)));
        }
        k += 1;
    }
    assert(ts.take(scan.tasks.len() as int) =~= ts);
    let ghost part2 = findings_view(findings@);
    let dups = duplicate_ids(scan.tasks.as_slice());
    let ghost dv = texts(dups@);
    let mut j: usize = 0;
    assert(part2 + dv.take(0).map_values(|x: Seq<char>| dup_finding(ts, x)) =~= part2);
    while j < dups.len()
        invariant
            ts == scan.tasks@,
            dv == texts(dups@),
            j <= dups.len(),
            findings_view(findings@) == part2 + dv.take(j as int).map_values(|x: Seq<char>| dup_finding(ts, x)),
        decreases dups.len() - j,
    {
        let files = files_of_id(scan.tasks.as_slice(), dups[j].as_str());
        let f = Finding {
            severity: Severity::Error,
            file: None,
            task: Some(dups[j].clone()),
            message: text2("duplicate id in ", join_strings(&files, ", ").as_str()),
        };
        push_finding(&mut findings, f);
        proof {
            assert(dv[j as int] == dups@[j as int]@);
            assert(finding_view(f) == dup_finding(ts, dv[j as int]));
            assert(dv.take(j + 1).map_values(|x: Seq<char>| dup_finding(ts, x)) =~= dv.take(j as int).map_values(
                |x: Seq<char>| dup_finding(ts, x),
            ).push(dup_finding(ts, dv[j as int])));
        }
        j += 1;
    }
    assert(dv.take(dups.len() as int) =~= dv);
    let ghost part3 = findings_view(findings@);
    let graph = Graph::build(scan.tasks.as_slice());
    let issues = graph.issues();
    let ghost iv = issues_view(issues@);
    let mut m: usize = 0;
    assert(part3 + iv.take(0).map_values(|x: IssueV| issue_finding(ts, x)) =~= part3);
    while m < issues.len()
        invariant
            ts == scan.tasks@,
            graph.tasks_spec() == ts,
            iv == issues_view(issues@),
            m <= issues.len(),
            findings_view(findings@) == part3 + iv.take(m as int).map_values(|x: IssueV| issue_finding(ts, x)),
        decreases issues.len() - m,
    {
        let f = issue_to_finding(&graph, &issues[m]);
        push_finding(&mut findings, f);
        proof {
            assert(iv[m as int] == issue_view(issues@[m as int]));
            assert(iv.take(m + 1).map_values(|x: IssueV| issue_finding(ts, x)) =~= iv.take(m as int).map_values(
                |x: IssueV| issue_finding(ts, x),
            ).push(issue_finding(ts, iv[m as int])));
        }
        m += 1;
    }
    proof {
        assert(iv.take(issues.len() as int) =~= iv);
        let all = findings_view(findings@);
        assert(all =~= invalid_findings(scan.invalid@) + tasks_findings(*config, ts) + dv.map_values(
            |x: Seq<char>| dup_finding(ts, x),
        ) + iv.map_values(|x: IssueV| issue_finding(ts, x)));
        assert(dup_ids_ok(ts, dv) && issues_ok(ts, iv));
    }
    Report { checked: scan.tasks.len(), findings }
}

// ---------------------------------------------------------------------------
// Rendering

pub open spec fn severity_text(s: Severity) -> Seq<char> {
    match s {
        Severity::Error => "error"@,
        Severity::Warning => "warning"@,
    }
}

/// Where a finding points: its file, its task, or both.
pub open spec fn place_of(f: FindingV) -> Seq<char> {
    let base = match f.file {
        Some(p) => p,
        None => Seq::empty(),
    };
    match f.task {
        Some(t) => if base.len() == 0 {
            "task "@ + t
        } else {
            base + " (task "@ + t + ")"@
        },
        None => base,
    }
}

pub open spec fn finding_line(f: FindingV) -> Seq<char> {
    severity_text(f.severity) + ": "@ + place_of(f) + ": "@ + f.message + "\n"@
}

pub open spec fn finding_lines(fs: Seq<FindingV>) -> Seq<char>
    decreases fs.len(),
{
    if fs.len() == 0 {
        Seq::empty()
    } else {
        finding_lines(fs.drop_last()) + finding_line(fs.last())
    }
}

/// One line per finding, then the summary line.
pub open spec fn render_spec(checked: nat, fs: Seq<FindingV>, errors: nat, warnings: nat) -> Seq<char> {
    finding_lines(fs) + dec(checked) + " task(s) checked: "@ + dec(errors) + " error(s), "@ + dec(warnings)
        + " warning(s)"@
}

fn number_text(n: usize) -> (r: String)
    ensures
        r@ == dec(n as nat),
{
    let c = dec_chars(n as u64);
    string_of(c.as_slice())
}

fn place_text(f: &Finding) -> (r: String)
    ensures
        r@ == place_of(finding_view(*f)),
{
    let base = match &f.file {
        Some(p) => p.clone(),
        None => String::new(),
    };
    match &f.task {
        Some(t) => {
            if base.as_str().is_empty() {
                text2("task ", t.as_str())
            } else {
                let mut s = text3(base.as_str(), " (task ", t.as_str());
                s.append(")");
                s
            }
        },
        None => base,
    }
}

/// Human rendering: one line per finding plus a summary.
pub fn render_human(report: &Report) -> (r: String)
    ensures
        r@ == render_spec(
            report.checked as nat,
            findings_view(report.findings@),
            count_severity(report.findings@, Severity::Error),
            count_severity(report.findings@, Severity::Warning),
        ),
{
    let mut out = String::new();
    let mut i: usize = 0;
    while i < report.findings.len()
        invariant
            i <= report.findings.len(),
            out@ == finding_lines(findings_view(report.findings@.take(i as int))),
        decreases report.findings.len() - i,
    {
        let f = &report.findings[i];
        let sev = match f.severity {
            Severity::Error => "error",
            Severity::Warning => "warning",
        };
        out.append(sev);
        out.append(": ");
        out.append(place_text(f).as_str());
        out.append(": ");
        out.append(f.message.as_str());
        out.append("\n");
        proof {
            assert(findings_view(report.findings@.take(i + 1)) =~= findings_view(report.findings@.take(i as int)).push(
                finding_view(*f),
            ));
            assert(sev@ == severity_text(f.severity));
            let prev = finding_lines(findings_view(report.findings@.take(i as int)));
            assert(out@ =~= prev + finding_line(finding_view(*f)));
            let fs = findings_view(report.findings@.take(i + 1));
            assert(fs.drop_last() =~= findings_view(report.findings@.take(i as int)));
            assert(fs.last() == finding_view(*f));
            assert(finding_lines(fs) == prev + finding_line(finding_view(*f)));
        }
        i += 1;
    }
    assert(report.findings@.take(report.findings.len() as int) =~= report.findings@);
    out.append(number_text(report.checked).as_str());
    out.append(" task(s) checked: ");
    out.append(number_text(report.errors()).as_str());
    out.append(" error(s), ");
    out.append(number_text(report.warnings()).as_str());
    out.append(" warning(s)");
    out
}

/// With no phases and no scopes configured, a task whose creation date
/// reads and whose file is named `<id>-...` draws no warning, whatever its
/// `phase` and `touches` say.
pub proof fn law_unconfigured_no_warnings(cfg: Config, t: Task)
    requires
        cfg.phases.len() == 0,
        cfg.scopes.len() == 0,
        created_of(t) is Some,
        (t.id_spec() + "-"@).is_prefix_of(name_of(t)),
    ensures
        warning_findings(cfg, t) == Seq::<FindingV>::empty(),
{
    assert(warning_findings(cfg, t) =~= Seq::<FindingV>::empty());
}

} // verus!
