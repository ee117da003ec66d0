//! The taskmd task model.
//!
//! A [`Task`] is backed by its complete frontmatter as an ordered YAML mapping
//! plus the raw markdown body. Typed accessors read out of the mapping and
//! typed mutators write back into it, so fields the library does not know
//! survive a parse, change and print, in their places.

use vstd::prelude::*;

use vstd::string::StrSliceExecFns;

use vstd::string::StringExecFns;

use serde_norway::{Mapping, Value};

use crate::date::{Date, date_parts, format_ymd, lenient_date, parse_lenient_date, spec_format_ymd};
use crate::due::slice_chars;
use crate::text::{
    chars_of, contains_str, opt_text, str_eq, string_of, texts, trim, trim_char, trim_char_chars,
    trim_chars,
};
use crate::yaml::{
    YamlHead, YamlV, key_index, keys_distinct, lemma_key_index, lemma_upsert, lemma_upsert_other,
    lemma_without_absent, lemma_without_other, lookup, mapping_get, mapping_insert, mapping_keys,
    mapping_model, mapping_new, mapping_remove, spec_yaml_dump, spec_yaml_parse, upsert,
    value_into_mapping, value_string, value_strings, without, yaml_dump, yaml_load, yaml_model,
    yaml_open,
};

verus! {

/// Task status.
#[derive(Debug, Clone, Copy, PartialEq, Eq, Structural)]
pub enum Status {
    Pending,
    InProgress,
    InReview,
    Completed,
    Blocked,
    Cancelled,
}

/// Task priority, lowest first.
#[derive(Debug, Clone, Copy, PartialEq, Eq, PartialOrd, Ord)]
pub enum Priority {
    Low,
    Medium,
    High,
    Critical,
}

/// Task effort, smallest first.
#[derive(Debug, Clone, Copy, PartialEq, Eq, PartialOrd, Ord)]
pub enum Effort {
    Small,
    Medium,
    Large,
}

/// Work-item classification (the `type` field).
#[derive(Debug, Clone, Copy, PartialEq, Eq, Structural)]
pub enum TaskType {
    Feature,
    Bug,
    Improvement,
    Chore,
    Docs,
}

pub open spec fn status_text(s: Status) -> Seq<char> {
    match s {
        Status::Pending => "pending"@,
        Status::InProgress => "in-progress"@,
        Status::InReview => "in-review"@,
        Status::Completed => "completed"@,
        Status::Blocked => "blocked"@,
        Status::Cancelled => "cancelled"@,
    }
}

/// The status a text names, if any.
pub open spec fn status_named(s: Seq<char>) -> Option<Status> {
    if s == "pending"@ {
        Some(Status::Pending)
    } else if s == "in-progress"@ {
        Some(Status::InProgress)
    } else if s == "in-review"@ {
        Some(Status::InReview)
    } else if s == "completed"@ {
        Some(Status::Completed)
    } else if s == "blocked"@ {
        Some(Status::Blocked)
    } else if s == "cancelled"@ {
        Some(Status::Cancelled)
    } else {
        None
    }
}

pub open spec fn priority_text(p: Priority) -> Seq<char> {
    match p {
        Priority::Low => "low"@,
        Priority::Medium => "medium"@,
        Priority::High => "high"@,
        Priority::Critical => "critical"@,
    }
}

pub open spec fn priority_named(s: Seq<char>) -> Option<Priority> {
    if s == "low"@ {
        Some(Priority::Low)
    } else if s == "medium"@ {
        Some(Priority::Medium)
    } else if s == "high"@ {
        Some(Priority::High)
    } else if s == "critical"@ {
        Some(Priority::Critical)
    } else {
        None
    }
}

/// Position of a priority in its order, lowest 0.
pub open spec fn priority_rank(p: Priority) -> int {
    match p {
        Priority::Low => 0,
        Priority::Medium => 1,
        Priority::High => 2,
        Priority::Critical => 3,
    }
}

pub open spec fn effort_text(e: Effort) -> Seq<char> {
    match e {
        Effort::Small => "small"@,
        Effort::Medium => "medium"@,
        Effort::Large => "large"@,
    }
}

pub open spec fn effort_named(s: Seq<char>) -> Option<Effort> {
    if s == "small"@ {
        Some(Effort::Small)
    } else if s == "medium"@ {
        Some(Effort::Medium)
    } else if s == "large"@ {
        Some(Effort::Large)
    } else {
        None
    }
}

/// Position of an effort in its order, smallest 0.
pub open spec fn effort_rank(e: Effort) -> int {
    match e {
        Effort::Small => 0,
        Effort::Medium => 1,
        Effort::Large => 2,
    }
}

pub open spec fn task_type_text(t: TaskType) -> Seq<char> {
    match t {
        TaskType::Feature => "feature"@,
        TaskType::Bug => "bug"@,
        TaskType::Improvement => "improvement"@,
        TaskType::Chore => "chore"@,
        TaskType::Docs => "docs"@,
    }
}

pub open spec fn task_type_named(s: Seq<char>) -> Option<TaskType> {
    if s == "feature"@ {
        Some(TaskType::Feature)
    } else if s == "bug"@ {
        Some(TaskType::Bug)
    } else if s == "improvement"@ {
        Some(TaskType::Improvement)
    } else if s == "chore"@ {
        Some(TaskType::Chore)
    } else if s == "docs"@ {
        Some(TaskType::Docs)
    } else {
        None
    }
}

impl Status {
    /// Every status, in declaration order.
    pub fn all() -> (r: Vec<Status>)
        ensures
            r@ == seq![
                Status::Pending,
                Status::InProgress,
                Status::InReview,
                Status::Completed,
                Status::Blocked,
                Status::Cancelled,
            ],
    {
        vec![
            Status::Pending,
            Status::InProgress,
            Status::InReview,
            Status::Completed,
            Status::Blocked,
            Status::Cancelled,
        ]
    }

    pub fn as_str(self) -> (r: &'static str)
        ensures
            r@ == status_text(self),
    {
        match self {
            Status::Pending => "pending",
            Status::InProgress => "in-progress",
            Status::InReview => "in-review",
            Status::Completed => "completed",
            Status::Blocked => "blocked",
            Status::Cancelled => "cancelled",
        }
    }

    pub fn parse(s: &str) -> (r: Option<Status>)
        ensures
            r == status_named(s@),
    {
        if str_eq(s, "pending") {
            Some(Status::Pending)
        } else if str_eq(s, "in-progress") {
            Some(Status::InProgress)
        } else if str_eq(s, "in-review") {
            Some(Status::InReview)
        } else if str_eq(s, "completed") {
            Some(Status::Completed)
        } else if str_eq(s, "blocked") {
            Some(Status::Blocked)
        } else if str_eq(s, "cancelled") {
            Some(Status::Cancelled)
        } else {
            None
        }
    }

    /// Terminal statuses end an occurrence; everything else counts as open.
    pub fn is_terminal(self) -> (r: bool)
        ensures
            r == (self == Status::Completed || self == Status::Cancelled),
    {
        match self {
            Status::Completed | Status::Cancelled => true,
            _ => false,
        }
    }
}

impl Priority {
    /// Every priority, lowest first.
    pub fn all() -> (r: Vec<Priority>)
        ensures
            r@ == seq![Priority::Low, Priority::Medium, Priority::High, Priority::Critical],
    {
        vec![Priority::Low, Priority::Medium, Priority::High, Priority::Critical]
    }

    pub fn as_str(self) -> (r: &'static str)
        ensures
            r@ == priority_text(self),
    {
        match self {
            Priority::Low => "low",
            Priority::Medium => "medium",
            Priority::High => "high",
            Priority::Critical => "critical",
        }
    }

    pub fn parse(s: &str) -> (r: Option<Priority>)
        ensures
            r == priority_named(s@),
    {
        if str_eq(s, "low") {
            Some(Priority::Low)
        } else if str_eq(s, "medium") {
            Some(Priority::Medium)
        } else if str_eq(s, "high") {
            Some(Priority::High)
        } else if str_eq(s, "critical") {
            Some(Priority::Critical)
        } else {
            None
        }
    }

    /// Position in the priority order, lowest 0.
    pub fn rank(self) -> (r: u8)
        ensures
            r as int == priority_rank(self),
    {
        match self {
            Priority::Low => 0,
            Priority::Medium => 1,
            Priority::High => 2,
            Priority::Critical => 3,
        }
    }
}

impl Effort {
    /// Every effort, smallest first.
    pub fn all() -> (r: Vec<Effort>)
        ensures
            r@ == seq![Effort::Small, Effort::Medium, Effort::Large],
    {
        vec![Effort::Small, Effort::Medium, Effort::Large]
    }

    pub fn as_str(self) -> (r: &'static str)
        ensures
            r@ == effort_text(self),
    {
        match self {
            Effort::Small => "small",
            Effort::Medium => "medium",
            Effort::Large => "large",
        }
    }

    pub fn parse(s: &str) -> (r: Option<Effort>)
        ensures
            r == effort_named(s@),
    {
        if str_eq(s, "small") {
            Some(Effort::Small)
        } else if str_eq(s, "medium") {
            Some(Effort::Medium)
        } else if str_eq(s, "large") {
            Some(Effort::Large)
        } else {
            None
        }
    }

    /// Position in the effort order, smallest 0.
    pub fn rank(self) -> (r: u8)
        ensures
            r as int == effort_rank(self),
    {
        match self {
            Effort::Small => 0,
            Effort::Medium => 1,
            Effort::Large => 2,
        }
    }
}

impl TaskType {
    /// Every task type, in declaration order.
    pub fn all() -> (r: Vec<TaskType>)
        ensures
            r@ == seq![
                TaskType::Feature,
                TaskType::Bug,
                TaskType::Improvement,
                TaskType::Chore,
                TaskType::Docs,
            ],
    {
        vec![TaskType::Feature, TaskType::Bug, TaskType::Improvement, TaskType::Chore, TaskType::Docs]
    }

    pub fn as_str(self) -> (r: &'static str)
        ensures
            r@ == task_type_text(self),
    {
        match self {
            TaskType::Feature => "feature",
            TaskType::Bug => "bug",
            TaskType::Improvement => "improvement",
            TaskType::Chore => "chore",
            TaskType::Docs => "docs",
        }
    }

    pub fn parse(s: &str) -> (r: Option<TaskType>)
        ensures
            r == task_type_named(s@),
    {
        if str_eq(s, "feature") {
            Some(TaskType::Feature)
        } else if str_eq(s, "bug") {
            Some(TaskType::Bug)
        } else if str_eq(s, "improvement") {
            Some(TaskType::Improvement)
        } else if str_eq(s, "chore") {
            Some(TaskType::Chore)
        } else if str_eq(s, "docs") {
            Some(TaskType::Docs)
        } else {
            None
        }
    }
}

/// Reading a status's name gives the status back.
pub proof fn lemma_status_round_trip(s: Status)
    ensures
        status_named(status_text(s)) == Some(s),
{
    reveal_strlit("pending");
    reveal_strlit("in-progress");
    reveal_strlit("in-review");
    reveal_strlit("completed");
    reveal_strlit("blocked");
    reveal_strlit("cancelled");
    match s {
        Status::Pending => {
        },
        Status::InProgress => {
            assert("in-progress"@.len() != "pending"@.len());
        },
        Status::InReview => {
            assert("in-review"@.len() != "pending"@.len());
            assert("in-review"@.len() != "in-progress"@.len());
        },
        Status::Completed => {
            assert("completed"@.len() != "pending"@.len());
            assert("completed"@.len() != "in-progress"@.len());
            assert("completed"@[0] != "in-review"@[0]);
        },
        Status::Blocked => {
            assert("blocked"@[0] != "pending"@[0]);
            assert("blocked"@.len() != "in-progress"@.len());
            assert("blocked"@.len() != "in-review"@.len());
            assert("blocked"@.len() != "completed"@.len());
        },
        Status::Cancelled => {
            assert("cancelled"@.len() != "pending"@.len());
            assert("cancelled"@.len() != "in-progress"@.len());
            assert("cancelled"@[0] != "in-review"@[0]);
            assert("cancelled"@[1] != "completed"@[1]);
            assert("cancelled"@.len() != "blocked"@.len());
        },
    }
}

/// Reading a priority's name gives the priority back.
pub proof fn lemma_priority_round_trip(p: Priority)
    ensures
        priority_named(priority_text(p)) == Some(p),
{
    reveal_strlit("low");
    reveal_strlit("medium");
    reveal_strlit("high");
    reveal_strlit("critical");
    match p {
        Priority::Low => {
        },
        Priority::Medium => {
            assert("medium"@.len() != "low"@.len());
        },
        Priority::High => {
            assert("high"@.len() != "low"@.len());
            assert("high"@.len() != "medium"@.len());
        },
        Priority::Critical => {
            assert("critical"@.len() != "low"@.len());
            assert("critical"@.len() != "medium"@.len());
            assert("critical"@.len() != "high"@.len());
        },
    }
}

/// Reading an effort's name gives the effort back.
pub proof fn lemma_effort_round_trip(e: Effort)
    ensures
        effort_named(effort_text(e)) == Some(e),
{
    reveal_strlit("small");
    reveal_strlit("medium");
    reveal_strlit("large");
    match e {
        Effort::Small => {
        },
        Effort::Medium => {
            assert("medium"@.len() != "small"@.len());
        },
        Effort::Large => {
            assert("large"@[0] != "small"@[0]);
            assert("large"@.len() != "medium"@.len());
        },
    }
}

/// Reading a task type's name gives the task type back.
pub proof fn lemma_task_type_round_trip(t: TaskType)
    ensures
        task_type_named(task_type_text(t)) == Some(t),
{
    reveal_strlit("feature");
    reveal_strlit("bug");
    reveal_strlit("improvement");
    reveal_strlit("chore");
    reveal_strlit("docs");
    match t {
        TaskType::Feature => {
        },
        TaskType::Bug => {
            assert("bug"@.len() != "feature"@.len());
        },
        TaskType::Improvement => {
            assert("improvement"@.len() != "feature"@.len());
            assert("improvement"@.len() != "bug"@.len());
        },
        TaskType::Chore => {
            assert("chore"@.len() != "feature"@.len());
            assert("chore"@.len() != "bug"@.len());
            assert("chore"@.len() != "improvement"@.len());
        },
        TaskType::Docs => {
            assert("docs"@.len() != "feature"@.len());
            assert("docs"@.len() != "bug"@.len());
            assert("docs"@.len() != "improvement"@.len());
            assert("docs"@.len() != "chore"@.len());
        },
    }
}

/// Index just past the line that starts at `start`: after its `\n`, or the end.
pub open spec fn line_end(s: Seq<char>, start: int) -> int
    decreases s.len() - start,
{
    if start < 0 || start >= s.len() {
        s.len() as int
    } else if s[start] == '\n' {
        start + 1
    } else {
        line_end(s, start + 1)
    }
}

pub proof fn lemma_line_end(s: Seq<char>, start: int)
    requires
        0 <= start < s.len(),
    ensures
        start < line_end(s, start) <= s.len(),
    decreases s.len() - start,
{
    if s[start] != '\n' {
        if start + 1 < s.len() {
            lemma_line_end(s, start + 1);
        } else {
            assert(line_end(s, start + 1) == s.len());
        }
    }
}

/// `str::trim_end_matches(['\n', '\r'])`.
pub open spec fn trim_end_newlines(s: Seq<char>) -> Seq<char>
    decreases s.len(),
{
    if s.len() > 0 && (s.last() == '\n' || s.last() == '\r') {
        trim_end_newlines(s.drop_last())
    } else {
        s
    }
}

/// Start and end of the first line from `start` on that is a closing fence:
/// exactly `---` once trailing line breaks are dropped.
pub open spec fn fence_from(s: Seq<char>, start: int) -> Option<(int, int)>
    decreases s.len() - start,
{
    if start < 0 || start >= s.len() {
        None
    } else {
        let e = line_end(s, start);
        if trim_end_newlines(s.subrange(start, e)) == "---"@ {
            Some((start, e))
        } else {
            proof {
                lemma_line_end(s, start);
            }
            fence_from(s, e)
        }
    }
}

/// Length of the opening fence line `---` (with `\r\n` or `\n`), if any.
pub open spec fn opening_fence(c: Seq<char>) -> Option<int> {
    if c.len() >= 5 && c.take(5) == "---\r\n"@ {
        Some(5)
    } else if c.len() >= 4 && c.take(4) == "---\n"@ {
        Some(4)
    } else {
        None
    }
}

/// Frontmatter text and body of a file, when it opens with a fence line
/// that a later fence line closes.
pub open spec fn split_spec(c: Seq<char>) -> Option<(Seq<char>, Seq<char>)> {
    match opening_fence(c) {
        None => None,
        Some(k) => {
            let rest = c.skip(k);
            match fence_from(rest, 0) {
                None => None,
                Some((a, b)) => Some((rest.take(a), rest.skip(b))),
            }
        },
    }
}

proof fn lemma_trim_end_newlines_take(s: Seq<char>, hi: int)
    requires
        0 <= hi <= s.len(),
        forall|j: int| hi <= j < s.len() ==> (#[trigger] s[j] == '\n' || s[j] == '\r'),
        hi == 0 || (s[hi - 1] != '\n' && s[hi - 1] != '\r'),
    ensures
        trim_end_newlines(s) == s.take(hi),
    decreases s.len() - hi,
{
    if hi == s.len() {
        assert(s.take(hi) =~= s);
    } else {
        let t = s.drop_last();
        assert forall|j: int| hi <= j < t.len() implies (#[trigger] t[j] == '\n' || t[j] == '\r') by {
            assert(t[j] == s[j]);
        }
        lemma_trim_end_newlines_take(t, hi);
        assert(t.take(hi) =~= s.take(hi));
    }
}

fn line_end_at(s: &Vec<char>, start: usize) -> (e: usize)
    requires
        start < s.len(),
    ensures
        e == line_end(s@, start as int),
        start < e <= s.len(),
{
    let mut i = start;
    while i < s.len() && s[i] != '\n'
        invariant
            start <= i <= s.len(),
            line_end(s@, start as int) == line_end(s@, i as int),
        decreases s.len() - i,
    {
        i += 1;
    }
    if i < s.len() {
        i + 1
    } else {
        i
    }
}

fn is_fence_line(s: &Vec<char>, a: usize, b: usize) -> (r: bool)
    requires
        a <= b <= s.len(),
    ensures
        r == (trim_end_newlines(s@.subrange(a as int, b as int)) == "---"@),
{
    let ghost line = s@.subrange(a as int, b as int);
    let mut j = b;
    while j > a && (s[j - 1] == '\n' || s[j - 1] == '\r')
        invariant
            a <= j <= b,
            b <= s.len(),
            line == s@.subrange(a as int, b as int),
            forall|k: int| j - a <= k < line.len() ==> (#[trigger] line[k] == '\n' || line[k] == '\r'),
        decreases j,
    {
        assert(line[j - 1 - a] == s@[j - 1]);
        j -= 1;
    }
    proof {
        if j > a {
            assert(line[j - a - 1] == s@[j - 1]);
        }
        lemma_trim_end_newlines_take(line, j - a);
        reveal_strlit("---");
    }
    let r = j - a == 3 && s[a] == '-' && s[a + 1] == '-' && s[a + 2] == '-';
    proof {
        let t = line.take(j - a);
        assert forall|i: int| 0 <= i < t.len() implies t[i] == s@[a + i] by {
            assert(t[i] == line[i]);
        }
        if r {
            assert(t =~= "---"@);
        } else if t == "---"@ {
            assert(t.len() == 3);
            assert(t[0] == '-' && t[1] == '-' && t[2] == '-');
        }
    }
    r
}

/// Split file content into (frontmatter text, raw body after the closing
/// fence). The opening fence is a first line `---`; the closing fence is the
/// next line that is exactly `---` once its line break (`\n` or `\r\n`) is
/// dropped.
pub fn split_frontmatter(content: &str) -> (r: Option<(&str, &str)>)
    ensures
        match split_spec(content@) {
            None => r is None,
            Some((fm, body)) => r matches Some((f, b)) && f@ == fm && b@ == body,
        },
{
    let c = chars_of(content);
    let n = c.len();
    proof {
        reveal_strlit("---\r\n");
        reveal_strlit("---\n");
    }
    let k: usize = if n >= 5 && c[0] == '-' && c[1] == '-' && c[2] == '-' && c[3] == '\r' && c[4] == '\n' {
        assert(c@.take(5) =~= "---\r\n"@);
        5
    } else if n >= 4 && c[0] == '-' && c[1] == '-' && c[2] == '-' && c[3] == '\n' {
        assert(c@.take(4) =~= "---\n"@);
        proof {
            if n >= 5 && c@.take(5) == "---\r\n"@ {
                assert(c@.take(5)[3] == c@[3]);
            }
        }
        4
    } else {
        proof {
            if n >= 5 && c@.take(5) == "---\r\n"@ {
                assert(c@.take(5)[0] == c@[0] && c@.take(5)[1] == c@[1] && c@.take(5)[2] == c@[2]
                    && c@.take(5)[3] == c@[3] && c@.take(5)[4] == c@[4]);
            }
            if n >= 4 && c@.take(4) == "---\n"@ {
                assert(c@.take(4)[0] == c@[0] && c@.take(4)[1] == c@[1] && c@.take(4)[2] == c@[2]
                    && c@.take(4)[3] == c@[3]);
            }
        }
        return None;
    };
    assert(opening_fence(c@) == Some(k as int));
    let rest = slice_chars(&c, k, n);
    assert(rest@ =~= c@.skip(k as int));
    let m = rest.len();
    let mut off: usize = 0;
    while off < m
        invariant
            off <= m,
            m == rest.len(),
            n == c.len(),
            c@ == content@,
            k <= n,
            opening_fence(c@) == Some(k as int),
            rest@ == c@.skip(k as int),
            fence_from(rest@, 0) == fence_from(rest@, off as int),
        decreases m - off,
    {
        let e = line_end_at(&rest, off);
        if is_fence_line(&rest, off, e) {
            assert(fence_from(rest@, off as int) == Some((off as int, e as int)));
            assert(split_spec(content@) == Some((rest@.take(off as int), rest@.skip(e as int))));
            assert(rest@.take(off as int) =~= content@.subrange(k as int, (k + off) as int));
            assert(rest@.skip(e as int) =~= content@.subrange((k + e) as int, n as int));
            let fm = content.substring_char(k, k + off);
            let body = content.substring_char(k + e, n);
            return Some((fm, body));
        }
        off = e;
    }
    None
}

/// A scalar read leniently as text: strings as they are, numbers as
/// displayed, booleans as `true`/`false`; anything else is no text.
pub open spec fn scalar_text(y: YamlV) -> Option<Seq<char>> {
    match y {
        YamlV::Str(s) => Some(s),
        YamlV::Num(t) => Some(t),
        YamlV::Bool(b) => Some(if b { "true"@ } else { "false"@ }),
        _ => None,
    }
}

/// The texts of the scalar items of a sequence, in order.
pub open spec fn scalar_texts(items: Seq<YamlV>) -> Seq<Seq<char>>
    decreases items.len(),
{
    if items.len() == 0 {
        Seq::empty()
    } else {
        let rest = scalar_texts(items.drop_last());
        match scalar_text(items.last()) {
            Some(t) => rest.push(t),
            None => rest,
        }
    }
}

/// A scalar read as a `YYYY-MM-DD` date, tolerating quotes and stray whitespace.
pub open spec fn scalar_date(y: YamlV) -> Option<(int, int, int)> {
    match scalar_text(y) {
        Some(s) => lenient_date(s),
        None => None,
    }
}

/// A list field: a sequence's scalar items, or a lone scalar as one entry.
pub open spec fn list_texts(f: Option<YamlV>) -> Seq<Seq<char>> {
    match f {
        Some(YamlV::Sequence(items)) => scalar_texts(items),
        Some(y) => match scalar_text(y) {
            Some(t) => seq![t],
            None => Seq::empty(),
        },
        None => Seq::empty(),
    }
}

/// Read a value leniently as text (see [`scalar_text`]).
pub fn value_str(v: &Value) -> (r: Option<String>)
    ensures
        opt_text(r) == scalar_text(yaml_model(*v)),
{
    let (h, _) = yaml_open(v);
    match h {
        YamlHead::Str(s) => Some(s),
        YamlHead::Num(t) => Some(t),
        YamlHead::Bool(b) => {
            if b {
                Some("true".to_owned())
            } else {
                Some("false".to_owned())
            }
        },
        _ => None,
    }
}

/// Read a value as a `YYYY-MM-DD` date (see [`scalar_date`]).
pub fn value_date(v: &Value) -> (r: Option<Date>)
    ensures
        date_parts(r) == scalar_date(yaml_model(*v)),
        r matches Some(d) ==> d.wf(),
{
    match value_str(v) {
        None => None,
        Some(s) => parse_lenient_date(s.as_str()),
    }
}

/// The scalar texts of a list of values, skipping the rest.
fn scalar_strings(vs: &Vec<Value>) -> (r: Vec<String>)
    ensures
        texts(r@) == scalar_texts(vs@.map_values(|v: Value| yaml_model(v))),
{
    let ghost ms = vs@.map_values(|v: Value| yaml_model(v));
    let mut out: Vec<String> = Vec::new();
    let mut i: usize = 0;
    while i < vs.len()
        invariant
            i <= vs.len(),
            ms == vs@.map_values(|v: Value| yaml_model(v)),
            texts(out@) == scalar_texts(ms.take(i as int)),
        decreases vs.len() - i,
    {
        assert(ms.take(i + 1).drop_last() =~= ms.take(i as int));
        let o = value_str(&vs[i]);
        match o {
            Some(t) => {
                out.push(t);
                assert(texts(out@) =~= scalar_texts(ms.take(i as int)).push(out@.last()@));
            },
            None => {},
        }
        i += 1;
    }
    assert(ms.take(vs.len() as int) =~= ms);
    out
}

/// One typed `verify:` acceptance check. Entries of another type are kept in
/// the frontmatter as they are and read here as `Unknown`.
#[derive(Debug, Clone, PartialEq)]
pub enum VerifyCheck {
    Bash { run: String, dir: Option<String> },
    Assert { check: String },
    Unknown { kind: Option<String> },
}

/// The text under string key `k` in a mapping entry.
pub open spec fn entry_text(y: YamlV, k: Seq<char>) -> Option<Seq<char>> {
    match y {
        YamlV::Dict(e) => match lookup(e, k) {
            Some(v) => scalar_text(v),
            None => None,
        },
        _ => None,
    }
}

/// How a `verify:` entry reads as a check.
pub open spec fn check_reads(c: VerifyCheck, y: YamlV) -> bool {
    let kind = entry_text(y, "type"@);
    if kind == Some("bash"@) && entry_text(y, "run"@) is Some {
        c matches VerifyCheck::Bash { run, dir } && Some(run@) == entry_text(y, "run"@) && opt_text(
            dir,
        ) == entry_text(y, "dir"@)
    } else if kind == Some("assert"@) && entry_text(y, "check"@) is Some {
        c matches VerifyCheck::Assert { check } && Some(check@) == entry_text(y, "check"@)
    } else {
        c matches VerifyCheck::Unknown { kind: k } && opt_text(k) == kind
    }
}

/// The text under string key `key` among alternating keys and values.
fn pairs_text(kv: &Vec<Value>, key: &str) -> (r: Option<String>)
    requires
        kv.len() % 2 == 0,
    ensures
        opt_text(r) == (match lookup(pairs_model(kv@), key@) {
            Some(v) => scalar_text(v),
            None => None,
        }),
{
    let ghost e = pairs_model(kv@);
    let n = kv.len() / 2;
    let mut i: usize = 0;
    while i < n
        invariant
            i <= n,
            n * 2 == kv.len(),
            e == pairs_model(kv@),
            forall|j: int| 0 <= j < i ==> e[j].0 != YamlV::Str(key@),
        decreases n - i,
    {
        let (h, _) = yaml_open(&kv[2 * i]);
        assert(e[i as int] == (yaml_model(kv@[2 * i]), yaml_model(kv@[2 * i + 1])));
        let hit = match h {
            YamlHead::Str(s) => str_eq(s.as_str(), key),
            _ => false,
        };
        if hit {
            proof {
                lemma_key_index(e, key@);
                assert(e[i as int].0 == YamlV::Str(key@));
                if let Some(x) = key_index(e, key@) {
                    if x > i {
                        assert(e[i as int].0 != YamlV::Str(key@));
                    }
                }
            }
            return value_str(&kv[2 * i + 1]);
        }
        i += 1;
    }
    proof {
        lemma_key_index(e, key@);
    }
    None
}

/// The entries that alternating keys and values stand for.
pub open spec fn pairs_model(kv: Seq<Value>) -> Seq<(YamlV, YamlV)> {
    Seq::new(kv.len() / 2, |i: int| (yaml_model(kv[2 * i]), yaml_model(kv[2 * i + 1])))
}

/// Read one `verify:` entry.
fn read_check(v: &Value) -> (r: VerifyCheck)
    ensures
        check_reads(r, yaml_model(*v)),
{
    let (h, kv) = yaml_open(v);
    let (kind, run, dir, check) = match h {
        YamlHead::Dict => {
            assert(pairs_model(kv@) =~= yaml_model(*v)->Dict_0);
            (pairs_text(&kv, "type"), pairs_text(&kv, "run"), pairs_text(&kv, "dir"), pairs_text(&kv, "check"))
        },
        _ => (None, None, None, None),
    };
    let is_bash = match &kind {
        Some(k) => str_eq(k.as_str(), "bash"),
        None => false,
    };
    let is_assert = match &kind {
        Some(k) => str_eq(k.as_str(), "assert"),
        None => false,
    };
    if is_bash && run.is_some() {
        VerifyCheck::Bash { run: run.unwrap(), dir }
    } else if is_assert && check.is_some() {
        VerifyCheck::Assert { check: check.unwrap() }
    } else {
        VerifyCheck::Unknown { kind }
    }
}

/// A single task: its full frontmatter (ordered; the source of truth) and body.
#[derive(Debug, Clone, PartialEq)]
pub struct Task {
    /// The frontmatter mapping, in document order.
    pub doc: Mapping,
    /// Raw markdown after the closing fence, kept byte for byte.
    pub body: String,
    /// Path relative to the tasks directory; set by the scanner.
    pub rel_path: Option<String>,
    /// Group derived from the parent directory; an explicit `group:` wins.
    pub dir_group: Option<String>,
}

/// How a file's content classifies (see [`Task::parse`]).
#[derive(Debug, PartialEq)]
pub enum ParseOutcome {
    Task(Task),
    /// No leading frontmatter fence, or the fence does not hold a YAML
    /// mapping that looks like a task.
    NotATask,
    /// Meant to be a task but broken: malformed YAML, or a missing or empty
    /// `id` or `title`.
    Invalid(String),
}

/// Whether frontmatter entries carry one of the keys that mark a task.
pub open spec fn looks_like_task(e: Seq<(YamlV, YamlV)>) -> bool {
    key_index(e, "id"@) is Some || key_index(e, "title"@) is Some || key_index(e, "status"@) is Some
}

/// Whether entries hold non-blank text under `key`.
pub open spec fn has_text(e: Seq<(YamlV, YamlV)>, key: Seq<char>) -> bool {
    match lookup(e, key) {
        Some(v) => match scalar_text(v) {
            Some(t) => trim(t).len() > 0,
            None => false,
        },
        None => false,
    }
}

/// Frontmatter entries after a status change on `today` from status `was`:
/// the status is set; `completed_at` is stamped on the move to `completed`
/// and dropped on a move away, `cancelled_at` likewise.
pub open spec fn status_change(
    e: Seq<(YamlV, YamlV)>,
    was: Option<Status>,
    status: Status,
    date: Seq<char>,
) -> Seq<(YamlV, YamlV)> {
    let e1 = upsert(e, "status"@, YamlV::Str(status_text(status)));
    match status {
        Status::Completed => {
            let e2 = if was != Some(Status::Completed) {
                upsert(e1, "completed_at"@, YamlV::Str(date))
            } else {
                e1
            };
            without(e2, "cancelled_at"@)
        },
        Status::Cancelled => {
            let e2 = if was != Some(Status::Cancelled) {
                upsert(e1, "cancelled_at"@, YamlV::Str(date))
            } else {
                e1
            };
            without(e2, "completed_at"@)
        },
        _ => without(without(e1, "completed_at"@), "cancelled_at"@),
    }
}

/// The body `set_body` stores: blank line, trimmed content, one newline.
pub open spec fn normalized_body(b: Seq<char>) -> Seq<char> {
    if trim(b).len() == 0 {
        "\n"@
    } else {
        "\n"@ + trim(b) + "\n"@
    }
}

impl Task {
    /// The frontmatter entries, in order.
    pub open spec fn fm(self) -> Seq<(YamlV, YamlV)> {
        mapping_model(self.doc)
    }

    /// Frontmatter keys are distinct.
    pub open spec fn wf(self) -> bool {
        keys_distinct(self.fm())
    }

    /// The value under a string key.
    pub open spec fn field(self, key: Seq<char>) -> Option<YamlV> {
        lookup(self.fm(), key)
    }

    /// The value under a string key, read as text.
    pub open spec fn text(self, key: Seq<char>) -> Option<Seq<char>> {
        match self.field(key) {
            Some(y) => scalar_text(y),
            None => None,
        }
    }

    /// The value under a string key, read as a list of texts.
    pub open spec fn list(self, key: Seq<char>) -> Seq<Seq<char>> {
        list_texts(self.field(key))
    }

    /// The value under a string key, read as a date.
    pub open spec fn date(self, key: Seq<char>) -> Option<(int, int, int)> {
        match self.field(key) {
            Some(y) => scalar_date(y),
            None => None,
        }
    }

    pub open spec fn status_spec(self) -> Option<Status> {
        match self.text("status"@) {
            Some(t) => status_named(t),
            None => None,
        }
    }

    pub open spec fn priority_spec(self) -> Option<Priority> {
        match self.text("priority"@) {
            Some(t) => priority_named(t),
            None => None,
        }
    }

    pub open spec fn effective_status_spec(self) -> Status {
        match self.status_spec() {
            Some(s) => s,
            None => Status::Pending,
        }
    }

    pub open spec fn effective_priority_spec(self) -> Priority {
        match self.priority_spec() {
            Some(p) => p,
            None => Priority::Medium,
        }
    }

    pub open spec fn id_spec(self) -> Seq<char> {
        match self.text("id"@) {
            Some(t) => t,
            None => Seq::empty(),
        }
    }

    pub open spec fn title_spec(self) -> Seq<char> {
        match self.text("title"@) {
            Some(t) => t,
            None => Seq::empty(),
        }
    }

    /// Everything but the frontmatter is as in `other`.
    pub open spec fn same_besides_fm(self, other: Task) -> bool {
        self.body@ == other.body@ && self.rel_path == other.rel_path && self.dir_group
            == other.dir_group
    }

    /// A fresh task with the minimal frontmatter: id, title, status
    /// `pending` and today's `created_at`; the body is its title as a heading.
    pub fn new(id: &str, title: &str, today: Date) -> (r: Task)
        requires
            today.wf(),
        ensures
            r.wf(),
            r.fm() == seq![
                (YamlV::Str("id"@), YamlV::Str(id@)),
                (YamlV::Str("title"@), YamlV::Str(title@)),
                (YamlV::Str("status"@), YamlV::Str("pending"@)),
                (YamlV::Str("created_at"@), YamlV::Str(spec_format_ymd(today.year as int, today.month as int, today.day as int))),
            ],
            r.body@ == "\n# "@ + title@ + "\n"@,
            r.rel_path is None,
            r.dir_group is None,
    {
        let mut doc = mapping_new();
        let date = format_ymd(today);
        proof {
            reveal_strlit("id");
            reveal_strlit("title");
            reveal_strlit("status");
            reveal_strlit("created_at");
        }
        mapping_insert(&mut doc, "id", value_string(id));
        mapping_insert(&mut doc, "title", value_string(title));
        mapping_insert(&mut doc, "status", value_string("pending"));
        mapping_insert(&mut doc, "created_at", value_string(date.as_str()));
        proof {
            let e0 = Seq::<(YamlV, YamlV)>::empty();
            let e1 = e0.push((YamlV::Str("id"@), YamlV::Str(id@)));
            assert(key_index(e1, "title"@) is None) by {
                lemma_key_index(e1, "title"@);
                assert("id"@.len() != "title"@.len());
            }
            let e2 = e1.push((YamlV::Str("title"@), YamlV::Str(title@)));
            assert(key_index(e2, "status"@) is None) by {
                lemma_key_index(e2, "status"@);
                assert("id"@.len() != "status"@.len());
                assert("title"@[0] != "status"@[0]);
            }
            let e3 = e2.push((YamlV::Str("status"@), YamlV::Str("pending"@)));
            assert(key_index(e3, "created_at"@) is None) by {
                lemma_key_index(e3, "created_at"@);
                assert("id"@.len() != "created_at"@.len());
                assert("title"@.len() != "created_at"@.len());
                assert("status"@.len() != "created_at"@.len());
            }
        }
        let mut body = "\n# ".to_owned();
        body.append(title);
        body.append("\n");
        Task { doc, body, rel_path: None, dir_group: None }
    }

    /// Classify file content: not a task unless it opens with frontmatter
    /// that parses to a mapping carrying `id`, `title` or `status`; invalid
    /// when that YAML is malformed or `id` or `title` is missing or blank.
    pub fn parse(content: &str) -> (r: ParseOutcome)
        ensures
            match split_spec(content@) {
                None => r is NotATask,
                Some((fm, body)) => match spec_yaml_parse(fm) {
                    Err(msg) => r matches ParseOutcome::Invalid(m) && m@ == "malformed frontmatter: "@
                        + msg,
                    Ok(y) => match y {
                        YamlV::Dict(e) => if !looks_like_task(e) {
                            r is NotATask
                        } else if !has_text(e, "id"@) {
                            r matches ParseOutcome::Invalid(m) && m@
                                == "missing required field `id`"@
                        } else if !has_text(e, "title"@) {
                            r matches ParseOutcome::Invalid(m) && m@
                                == "missing required field `title`"@
                        } else {
                            r matches ParseOutcome::Task(t) && t.fm() == e && t.wf() && t.body@
                                == body && t.rel_path is None && t.dir_group is None
                        },
                        _ => r is NotATask,
                    },
                },
            },
    {
        let (fm, body) = match split_frontmatter(content) {
            Some(p) => p,
            None => return ParseOutcome::NotATask,
        };
        let v = match yaml_load(fm) {
            Ok(v) => v,
            Err(e) => {
                let mut m = "malformed frontmatter: ".to_owned();
                m.append(e.as_str());
                return ParseOutcome::Invalid(m);
            },
        };
        let doc = match value_into_mapping(v) {
            Some(m) => m,
            None => return ParseOutcome::NotATask,
        };
        let looks = mapping_get(&doc, "id").is_some() || mapping_get(&doc, "title").is_some()
            || mapping_get(&doc, "status").is_some();
        if !looks {
            return ParseOutcome::NotATask;
        }
        if !Self::doc_has_text(&doc, "id") {
            return ParseOutcome::Invalid("missing required field `id`".to_owned());
        }
        if !Self::doc_has_text(&doc, "title") {
            return ParseOutcome::Invalid("missing required field `title`".to_owned());
        }
        ParseOutcome::Task(Task { doc, body: body.to_owned(), rel_path: None, dir_group: None })
    }

    fn doc_has_text(doc: &Mapping, key: &str) -> (r: bool)
        ensures
            r == has_text(mapping_model(*doc), key@),
    {
        match mapping_get(doc, key) {
            Some(v) => match value_str(v) {
                Some(t) => {
                    let c = chars_of(t.as_str());
                    let tc = trim_chars(&c);
                    tc.len() > 0
                },
                None => false,
            },
            None => false,
        }
    }

    /// Like [`Task::parse`] but for callers that need a task or an error.
    pub fn parse_required(content: &str) -> (r: Result<Task, String>)
        ensures
            r is Ok <==> Task::parse_spec_kind(content@) == 0,
            r matches Ok(t) ==> t.wf() && (split_spec(content@) matches Some((fm, body))
                && spec_yaml_parse(fm) == Ok::<YamlV, Seq<char>>(YamlV::Dict(t.fm())) && t.body@
                == body),
    {
        match Task::parse(content) {
            ParseOutcome::Task(t) => Ok(t),
            ParseOutcome::NotATask => Err("not a task file (no task frontmatter)".to_owned()),
            ParseOutcome::Invalid(reason) => {
                let mut m = "invalid task file: ".to_owned();
                m.append(reason.as_str());
                Err(m)
            },
        }
    }

    /// 0 when content parses to a task, 1 when it is not a task, 2 when it is invalid.
    pub open spec fn parse_spec_kind(content: Seq<char>) -> int {
        match split_spec(content) {
            None => 1,
            Some((fm, body)) => match spec_yaml_parse(fm) {
                Err(_) => 2,
                Ok(YamlV::Dict(e)) => if !looks_like_task(e) {
                    1
                } else if !has_text(e, "id"@) || !has_text(e, "title"@) {
                    2
                } else {
                    0
                },
                Ok(_) => 1,
            },
        }
    }
}

impl Task {
    /// The value under a string key.
    pub fn get(&self, key: &str) -> (r: Option<&Value>)
        ensures
            match self.field(key@) {
                Some(y) => r matches Some(v) && yaml_model(*v) == y,
                None => r is None,
            },
    {
        mapping_get(&self.doc, key)
    }

    /// Set a frontmatter value; an existing key keeps its position.
    pub fn set(&mut self, key: &str, value: Value)
        ensures
            final(self).fm() == upsert(old(self).fm(), key@, yaml_model(value)),
            final(self).wf(),
            final(self).same_besides_fm(*old(self)),
    {
        mapping_insert(&mut self.doc, key, value);
    }

    /// Remove a frontmatter key; the last entry takes its position.
    pub fn remove(&mut self, key: &str)
        ensures
            final(self).fm() == without(old(self).fm(), key@),
            final(self).wf(),
            final(self).same_besides_fm(*old(self)),
    {
        mapping_remove(&mut self.doc, key);
    }

    /// The value under a key, read as text.
    pub fn get_str(&self, key: &str) -> (r: Option<String>)
        ensures
            opt_text(r) == self.text(key@),
    {
        match self.get(key) {
            Some(v) => value_str(v),
            None => None,
        }
    }

    /// The value under a key, read as a list of texts.
    pub fn get_list(&self, key: &str) -> (r: Vec<String>)
        ensures
            texts(r@) == self.list(key@),
    {
        match self.get(key) {
            Some(v) => {
                let (h, kids) = yaml_open(v);
                match h {
                    YamlHead::Sequence => scalar_strings(&kids),
                    _ => {
                        let mut out: Vec<String> = Vec::new();
                        match value_str(v) {
                            Some(t) => {
                                out.push(t);
                                assert(texts(out@) =~= seq![out@[0]@]);
                            },
                            None => {
                                assert(texts(out@) =~= Seq::<Seq<char>>::empty());
                            },
                        }
                        out
                    },
                }
            },
            None => {
                let out: Vec<String> = Vec::new();
                assert(texts(out@) =~= Seq::<Seq<char>>::empty());
                out
            },
        }
    }

    /// The task id; never empty for a parsed or new task.
    pub fn id(&self) -> (r: String)
        ensures
            r@ == self.id_spec(),
    {
        match self.get_str("id") {
            Some(s) => s,
            None => String::new(),
        }
    }

    pub fn title(&self) -> (r: String)
        ensures
            r@ == self.title_spec(),
    {
        match self.get_str("title") {
            Some(s) => s,
            None => String::new(),
        }
    }

    pub fn status_raw(&self) -> (r: Option<String>)
        ensures
            opt_text(r) == self.text("status"@),
    {
        self.get_str("status")
    }

    pub fn priority_raw(&self) -> (r: Option<String>)
        ensures
            opt_text(r) == self.text("priority"@),
    {
        self.get_str("priority")
    }

    pub fn effort_raw(&self) -> (r: Option<String>)
        ensures
            opt_text(r) == self.text("effort"@),
    {
        self.get_str("effort")
    }

    pub fn task_type_raw(&self) -> (r: Option<String>)
        ensures
            opt_text(r) == self.text("type"@),
    {
        self.get_str("type")
    }

    pub fn owner(&self) -> (r: Option<String>)
        ensures
            opt_text(r) == self.text("owner"@),
    {
        self.get_str("owner")
    }

    pub fn phase(&self) -> (r: Option<String>)
        ensures
            opt_text(r) == self.text("phase"@),
    {
        self.get_str("phase")
    }

    pub fn parent(&self) -> (r: Option<String>)
        ensures
            opt_text(r) == self.text("parent"@),
    {
        self.get_str("parent")
    }

    pub fn external_id(&self) -> (r: Option<String>)
        ensures
            opt_text(r) == self.text("external_id"@),
    {
        self.get_str("external_id")
    }

    pub fn recurring(&self) -> (r: Option<String>)
        ensures
            opt_text(r) == self.text("recurring"@),
    {
        self.get_str("recurring")
    }

    pub fn due_raw(&self) -> (r: Option<String>)
        ensures
            opt_text(r) == self.text("due"@),
    {
        self.get_str("due")
    }

    pub fn dependencies(&self) -> (r: Vec<String>)
        ensures
            texts(r@) == self.list("dependencies"@),
    {
        self.get_list("dependencies")
    }

    pub fn tags(&self) -> (r: Vec<String>)
        ensures
            texts(r@) == self.list("tags"@),
    {
        self.get_list("tags")
    }

    pub fn touches(&self) -> (r: Vec<String>)
        ensures
            texts(r@) == self.list("touches"@),
    {
        self.get_list("touches")
    }

    pub fn context(&self) -> (r: Vec<String>)
        ensures
            texts(r@) == self.list("context"@),
    {
        self.get_list("context")
    }

    pub fn pr(&self) -> (r: Vec<String>)
        ensures
            texts(r@) == self.list("pr"@),
    {
        self.get_list("pr")
    }

    pub fn status(&self) -> (r: Option<Status>)
        ensures
            r == self.status_spec(),
    {
        match self.get_str("status") {
            Some(s) => Status::parse(s.as_str()),
            None => None,
        }
    }

    /// A missing or unknown status reads as `pending`.
    pub fn effective_status(&self) -> (r: Status)
        ensures
            r == self.effective_status_spec(),
    {
        match self.status() {
            Some(s) => s,
            None => Status::Pending,
        }
    }

    pub fn priority(&self) -> (r: Option<Priority>)
        ensures
            r == self.priority_spec(),
    {
        match self.get_str("priority") {
            Some(s) => Priority::parse(s.as_str()),
            None => None,
        }
    }

    /// A missing or unknown priority reads as `medium`.
    pub fn effective_priority(&self) -> (r: Priority)
        ensures
            r == self.effective_priority_spec(),
    {
        match self.priority() {
            Some(p) => p,
            None => Priority::Medium,
        }
    }

    pub fn effort(&self) -> (r: Option<Effort>)
        ensures
            r == (match self.text("effort"@) {
                Some(t) => effort_named(t),
                None => None,
            }),
    {
        match self.get_str("effort") {
            Some(s) => Effort::parse(s.as_str()),
            None => None,
        }
    }

    pub fn task_type(&self) -> (r: Option<TaskType>)
        ensures
            r == (match self.text("type"@) {
                Some(t) => task_type_named(t),
                None => None,
            }),
    {
        match self.get_str("type") {
            Some(s) => TaskType::parse(s.as_str()),
            None => None,
        }
    }

    /// An explicit `group:` wins over the scanner's directory group.
    pub fn group(&self) -> (r: Option<String>)
        ensures
            opt_text(r) == (match self.text("group"@) {
                Some(g) => Some(g),
                None => opt_text(self.dir_group),
            }),
    {
        match self.get_str("group") {
            Some(g) => Some(g),
            None => match &self.dir_group {
                Some(g) => Some(g.clone()),
                None => None,
            },
        }
    }

    fn date_of(&self, key: &str) -> (r: Option<Date>)
        ensures
            date_parts(r) == self.date(key@),
            r matches Some(d) ==> d.wf(),
    {
        match self.get(key) {
            Some(v) => value_date(v),
            None => None,
        }
    }

    /// `created_at`, or the older `created` when `created_at` is absent.
    pub fn created_at(&self) -> (r: Option<Date>)
        ensures
            date_parts(r) == (if self.field("created_at"@) is Some {
                self.date("created_at"@)
            } else {
                self.date("created"@)
            }),
            r matches Some(d) ==> d.wf(),
    {
        if self.get("created_at").is_some() {
            self.date_of("created_at")
        } else {
            self.date_of("created")
        }
    }

    pub fn completed_at(&self) -> (r: Option<Date>)
        ensures
            date_parts(r) == self.date("completed_at"@),
            r matches Some(d) ==> d.wf(),
    {
        self.date_of("completed_at")
    }

    pub fn cancelled_at(&self) -> (r: Option<Date>)
        ensures
            date_parts(r) == self.date("cancelled_at"@),
            r matches Some(d) ==> d.wf(),
    {
        self.date_of("cancelled_at")
    }

    /// The `due` date, when present and `YYYY-MM-DD`.
    pub fn due(&self) -> (r: Option<Date>)
        ensures
            date_parts(r) == self.date("due"@),
            r matches Some(d) ==> d.wf(),
    {
        self.date_of("due")
    }

    /// The typed `verify:` checks, in order; none unless `verify` is a sequence.
    pub fn verify(&self) -> (r: Vec<VerifyCheck>)
        ensures
            match self.field("verify"@) {
                Some(YamlV::Sequence(items)) => r.len() == items.len() && forall|i: int|
                    0 <= i < items.len() ==> check_reads(#[trigger] r@[i], items[i]),
                _ => r.len() == 0,
            },
    {
        let mut out: Vec<VerifyCheck> = Vec::new();
        match self.get("verify") {
            Some(v) => {
                let (h, kids) = yaml_open(v);
                match h {
                    YamlHead::Sequence => {
                        let ghost items = yaml_model(*v)->Sequence_0;
                        let mut i: usize = 0;
                        while i < kids.len()
                            invariant
                                i <= kids.len(),
                                items == kids@.map_values(|x: Value| yaml_model(x)),
                                out.len() == i,
                                forall|j: int| 0 <= j < i ==> check_reads(#[trigger] out@[j], items[j]),
                            decreases kids.len() - i,
                        {
                            out.push(read_check(&kids[i]));
                            i += 1;
                        }
                    },
                    _ => {},
                }
            },
            None => {},
        }
        out
    }

    /// All frontmatter keys that read as text, in order.
    pub fn keys(&self) -> (r: Vec<String>)
        ensures
            texts(r@) == scalar_texts(self.fm().map_values(|e: (YamlV, YamlV)| e.0)),
    {
        let ks = mapping_keys(&self.doc);
        assert(ks@.map_values(|v: Value| yaml_model(v)) =~= self.fm().map_values(|e: (YamlV, YamlV)| e.0));
        scalar_strings(&ks)
    }

    // ---- typed mutators ----

    pub fn set_title(&mut self, title: &str)
        ensures
            final(self).fm() == upsert(old(self).fm(), "title"@, YamlV::Str(title@)),
            final(self).wf(),
            final(self).same_besides_fm(*old(self)),
    {
        self.set("title", value_string(title));
    }

    /// Change status and keep the timestamps: `completed_at` is stamped with
    /// `today` on the move to `completed` and dropped on a move away;
    /// `cancelled_at` likewise. Setting the same terminal status again keeps
    /// the original date.
    pub fn set_status(&mut self, status: Status, today: Date)
        requires
            today.wf(),
            old(self).wf(),
        ensures
            final(self).fm() == status_change(
                old(self).fm(),
                old(self).status_spec(),
                status,
                spec_format_ymd(today.year as int, today.month as int, today.day as int),
            ),
            final(self).wf(),
            final(self).same_besides_fm(*old(self)),
    {
        let was = self.status();
        self.set("status", value_string(status.as_str()));
        let date = format_ymd(today);
        match status {
            Status::Completed => {
                if was != Some(Status::Completed) {
                    self.set("completed_at", value_string(date.as_str()));
                }
                self.remove("cancelled_at");
            },
            Status::Cancelled => {
                if was != Some(Status::Cancelled) {
                    self.set("cancelled_at", value_string(date.as_str()));
                }
                self.remove("completed_at");
            },
            _ => {
                self.remove("completed_at");
                self.remove("cancelled_at");
            },
        }
    }

    pub fn set_priority(&mut self, p: Priority)
        ensures
            final(self).fm() == upsert(old(self).fm(), "priority"@, YamlV::Str(priority_text(p))),
            final(self).wf(),
            final(self).same_besides_fm(*old(self)),
    {
        self.set("priority", value_string(p.as_str()));
    }

    pub fn set_effort(&mut self, e: Effort)
        ensures
            final(self).fm() == upsert(old(self).fm(), "effort"@, YamlV::Str(effort_text(e))),
            final(self).wf(),
            final(self).same_besides_fm(*old(self)),
    {
        self.set("effort", value_string(e.as_str()));
    }

    pub fn set_task_type(&mut self, t: TaskType)
        ensures
            final(self).fm() == upsert(old(self).fm(), "type"@, YamlV::Str(task_type_text(t))),
            final(self).wf(),
            final(self).same_besides_fm(*old(self)),
    {
        self.set("type", value_string(t.as_str()));
    }

    /// Set `phase`, or remove it with `None`.
    pub fn set_phase(&mut self, v: Option<&str>)
        ensures
            final(self).fm() == (match v {
                Some(x) => upsert(old(self).fm(), "phase"@, YamlV::Str(x@)),
                None => without(old(self).fm(), "phase"@),
            }),
            final(self).wf(),
            final(self).same_besides_fm(*old(self)),
    {
        match v {
            Some(x) => self.set("phase", value_string(x)),
            None => self.remove("phase"),
        }
    }

    /// Set `owner`, or remove it with `None`.
    pub fn set_owner(&mut self, v: Option<&str>)
        ensures
            final(self).fm() == (match v {
                Some(x) => upsert(old(self).fm(), "owner"@, YamlV::Str(x@)),
                None => without(old(self).fm(), "owner"@),
            }),
            final(self).wf(),
            final(self).same_besides_fm(*old(self)),
    {
        match v {
            Some(x) => self.set("owner", value_string(x)),
            None => self.remove("owner"),
        }
    }

    /// Set `due`, or remove it with `None`.
    pub fn set_due(&mut self, v: Option<&str>)
        ensures
            final(self).fm() == (match v {
                Some(x) => upsert(old(self).fm(), "due"@, YamlV::Str(x@)),
                None => without(old(self).fm(), "due"@),
            }),
            final(self).wf(),
            final(self).same_besides_fm(*old(self)),
    {
        match v {
            Some(x) => self.set("due", value_string(x)),
            None => self.remove("due"),
        }
    }

    /// Set `parent`, or remove it with `None`.
    pub fn set_parent(&mut self, v: Option<&str>)
        ensures
            final(self).fm() == (match v {
                Some(x) => upsert(old(self).fm(), "parent"@, YamlV::Str(x@)),
                None => without(old(self).fm(), "parent"@),
            }),
            final(self).wf(),
            final(self).same_besides_fm(*old(self)),
    {
        match v {
            Some(x) => self.set("parent", value_string(x)),
            None => self.remove("parent"),
        }
    }

    fn set_list(&mut self, key: &str, items: &[String])
        ensures
            final(self).fm() == upsert(old(self).fm(), key@, YamlV::Sequence(items@.map_values(|s: String| YamlV::Str(s@)))),
            final(self).wf(),
            final(self).same_besides_fm(*old(self)),
    {
        self.set(key, value_strings(items));
    }

    pub fn set_tags(&mut self, tags: &[String])
        ensures
            final(self).fm() == upsert(old(self).fm(), "tags"@, YamlV::Sequence(tags@.map_values(|s: String| YamlV::Str(s@)))),
            final(self).wf(),
            final(self).same_besides_fm(*old(self)),
    {
        self.set_list("tags", tags);
    }

    pub fn set_dependencies(&mut self, deps: &[String])
        ensures
            final(self).fm() == upsert(old(self).fm(), "dependencies"@, YamlV::Sequence(deps@.map_values(|s: String| YamlV::Str(s@)))),
            final(self).wf(),
            final(self).same_besides_fm(*old(self)),
    {
        self.set_list("dependencies", deps);
    }

    /// Add a pull-request link unless it is already listed; the list is
    /// rewritten from its readable entries.
    pub fn add_pr(&mut self, url: &str)
        ensures
            final(self).fm() == upsert(
                old(self).fm(),
                "pr"@,
                YamlV::Sequence(pr_list_after(old(self).list("pr"@), url@).map_values(|t: Seq<char>| YamlV::Str(t))),
            ),
            final(self).wf(),
            final(self).same_besides_fm(*old(self)),
    {
        let mut prs = self.pr();
        let ghost before = texts(prs@);
        if !contains_str(&prs, url) {
            prs.push(url.to_owned());
            assert(texts(prs@) =~= before.push(url@));
        }
        assert(prs@.map_values(|s: String| YamlV::Str(s@)) =~= texts(prs@).map_values(|t: Seq<char>| YamlV::Str(t)));
        self.set_list("pr", prs.as_slice());
    }

    /// Replace the body, normalized to a blank line, the trimmed content
    /// and one trailing newline (just a newline when it trims to nothing).
    pub fn set_body(&mut self, body: &str)
        ensures
            final(self).body@ == normalized_body(body@),
            final(self).fm() == old(self).fm(),
            final(self).rel_path == old(self).rel_path,
            final(self).dir_group == old(self).dir_group,
    {
        let c = chars_of(body);
        let t = trim_chars(&c);
        if t.len() == 0 {
            self.body = "\n".to_owned();
        } else {
            let mut b = "\n".to_owned();
            let ts = string_of(&t);
            b.append(ts.as_str());
            b.append("\n");
            self.body = b;
        }
    }
}

/// The `pr` list after adding `url` unless already there.
pub open spec fn pr_list_after(prs: Seq<Seq<char>>, url: Seq<char>) -> Seq<Seq<char>> {
    if prs.contains(url) {
        prs
    } else {
        prs.push(url)
    }
}

/// Status changes keep the timestamps: the status reads back as set;
/// `completed_at` carries today's date after a move to `completed` (the old
/// date when the task was already completed) and is gone after any other
/// change; `cancelled_at` likewise; every other key keeps its value.
pub proof fn law_status_timestamps(
    e: Seq<(YamlV, YamlV)>,
    was: Option<Status>,
    status: Status,
    date: Seq<char>,
    other: Seq<char>,
)
    requires
        keys_distinct(e),
    ensures
        keys_distinct(status_change(e, was, status, date)),
        lookup(status_change(e, was, status, date), "status"@) == Some(
            YamlV::Str(status_text(status)),
        ),
        lookup(status_change(e, was, status, date), "completed_at"@) == (if status
            == Status::Completed {
            if was == Some(Status::Completed) {
                lookup(e, "completed_at"@)
            } else {
                Some(YamlV::Str(date))
            }
        } else {
            None
        }),
        lookup(status_change(e, was, status, date), "cancelled_at"@) == (if status
            == Status::Cancelled {
            if was == Some(Status::Cancelled) {
                lookup(e, "cancelled_at"@)
            } else {
                Some(YamlV::Str(date))
            }
        } else {
            None
        }),
        other != "status"@ && other != "completed_at"@ && other != "cancelled_at"@ ==> lookup(
            status_change(e, was, status, date),
            other,
        ) == lookup(e, other),
{
    let st = "status"@;
    let ca = "completed_at"@;
    let xa = "cancelled_at"@;
    reveal_strlit("status");
    reveal_strlit("completed_at");
    reveal_strlit("cancelled_at");
    assert(st.len() != ca.len());
    assert(st.len() != xa.len());
    assert(ca[1] != xa[1]);
    let sv = YamlV::Str(status_text(status));
    let dv = YamlV::Str(date);
    let e1 = upsert(e, st, sv);
    lemma_upsert(e, st, sv);
    lemma_upsert_other(e, st, sv, ca);
    lemma_upsert_other(e, st, sv, xa);
    if other != st {
        lemma_upsert_other(e, st, sv, other);
    }
    match status {
        Status::Completed => {
            let e2 = if was != Some(Status::Completed) {
                upsert(e1, ca, dv)
            } else {
                e1
            };
            if was != Some(Status::Completed) {
                lemma_upsert(e1, ca, dv);
                lemma_upsert_other(e1, ca, dv, st);
                lemma_upsert_other(e1, ca, dv, xa);
                if other != ca {
                    lemma_upsert_other(e1, ca, dv, other);
                }
            }
            lemma_without_absent(e2, xa);
            lemma_without_other(e2, xa, st);
            lemma_without_other(e2, xa, ca);
            if other != xa {
                lemma_without_other(e2, xa, other);
            }
        },
        Status::Cancelled => {
            let e2 = if was != Some(Status::Cancelled) {
                upsert(e1, xa, dv)
            } else {
                e1
            };
            if was != Some(Status::Cancelled) {
                lemma_upsert(e1, xa, dv);
                lemma_upsert_other(e1, xa, dv, st);
                lemma_upsert_other(e1, xa, dv, ca);
                if other != xa {
                    lemma_upsert_other(e1, xa, dv, other);
                }
            }
            lemma_without_absent(e2, ca);
            lemma_without_other(e2, ca, st);
            lemma_without_other(e2, ca, xa);
            if other != ca {
                lemma_without_other(e2, ca, other);
            }
        },
        _ => {
            let e2 = without(e1, ca);
            lemma_without_absent(e1, ca);
            lemma_without_other(e1, ca, st);
            lemma_without_other(e1, ca, xa);
            if other != ca {
                lemma_without_other(e1, ca, other);
            }
            lemma_without_absent(e2, xa);
            lemma_without_other(e2, xa, st);
            lemma_without_other(e2, xa, ca);
            if other != xa {
                lemma_without_other(e2, xa, other);
            }
        },
    }
}

/// A line that ends inside `t` ends at the same place once more text follows.
proof fn lemma_line_end_prefix(t: Seq<char>, r: Seq<char>, start: int)
    requires
        0 <= start < t.len(),
        t.last() == '\n',
    ensures
        line_end(t + r, start) == line_end(t, start),
        line_end(t, start) <= t.len(),
    decreases t.len() - start,
{
    let s = t + r;
    assert(s[start] == t[start]);
    if t[start] != '\n' {
        assert(start + 1 < t.len());
        lemma_line_end_prefix(t, r, start + 1);
    }
}

/// In fence-free text ending in a line break, the first fence of the text
/// followed by a fence line is that line.
proof fn lemma_fence_after(t: Seq<char>, body: Seq<char>, start: int)
    requires
        0 <= start <= t.len(),
        t.len() == 0 || t.last() == '\n',
        start == t.len() || fence_from(t, start) is None,
    ensures
        fence_from(t + "---\n"@ + body, start) == Some((t.len() as int, t.len() + 4int)),
    decreases t.len() - start,
{
    reveal_strlit("---\n");
    reveal_strlit("---");
    let s = t + "---\n"@ + body;
    if start == t.len() {
        assert(s[start] == '-' && s[start + 1] == '-' && s[start + 2] == '-' && s[start + 3] == '\n');
        assert(line_end(s, start + 3) == start + 4);
        assert(line_end(s, start + 2) == start + 4);
        assert(line_end(s, start + 1) == start + 4);
        assert(line_end(s, start) == start + 4);
        assert(s.subrange(start, start + 4) =~= "---\n"@);
        assert("---\n"@.drop_last() =~= "---"@);
        assert(trim_end_newlines("---"@) == "---"@);
        assert(trim_end_newlines(s.subrange(start, start + 4)) == "---"@);
    } else {
        let r = "---\n"@ + body;
        assert(s =~= t + r);
        lemma_line_end_prefix(t, r, start);
        let e = line_end(t, start);
        lemma_line_end(t, start);
        assert(s.subrange(start, e) =~= t.subrange(start, e));
        lemma_fence_after(t, body, e);
    }
}

/// What a write gives back on reading: a task printed to markdown splits
/// back into the printed frontmatter and the body byte for byte, and reads as
/// a task again, provided the printed frontmatter holds no fence line and
/// the YAML library reads back the entries it printed.
pub proof fn law_markdown_round_trip(t: Task, text: Seq<char>)
    requires
        t.wf(),
        spec_yaml_dump(t.fm()) == Some(text),
        text.len() == 0 || text.last() == '\n',
        fence_from(text, 0) is None,
        spec_yaml_parse(text) == Ok::<YamlV, Seq<char>>(YamlV::Dict(t.fm())),
        has_text(t.fm(), "id"@),
        has_text(t.fm(), "title"@),
    ensures
        split_spec("---\n"@ + text + "---\n"@ + t.body@) == Some((text, t.body@)),
        Task::parse_spec_kind("---\n"@ + text + "---\n"@ + t.body@) == 0,
{
    reveal_strlit("---\n");
    reveal_strlit("---\r\n");
    let md = "---\n"@ + text + "---\n"@ + t.body@;
    assert(md[3] == '\n');
    assert(md.take(4) =~= "---\n"@);
    assert(md.len() < 5 || md.take(5) != "---\r\n"@) by {
        if md.len() >= 5 {
            assert(md.take(5)[3] != "---\r\n"@[3]);
        }
    }
    let rest = md.skip(4);
    assert(rest =~= text + "---\n"@ + t.body@);
    lemma_fence_after(text, t.body@, 0);
    assert(rest.take(text.len() as int) =~= text);
    assert(rest.skip(text.len() + 4int) =~= t.body@);
    lemma_key_index(t.fm(), "id"@);
}

impl Task {
    /// Print the task back to markdown: the frontmatter in order between
    /// fences, then the body byte for byte.
    pub fn to_markdown(&self) -> (r: String)
        requires
            spec_yaml_dump(self.fm()) is Some,
        ensures
            r@ == "---\n"@ + spec_yaml_dump(self.fm())->0 + "---\n"@ + self.body@,
    {
        let fm = match yaml_dump(&self.doc) {
            Some(t) => t,
            None => String::new(),
        };
        let mut out = "---\n".to_owned();
        out.append(fm.as_str());
        out.append("---\n");
        out.append(self.body.as_str());
        out
    }

    /// [`Task::to_markdown`], or `None` when the frontmatter cannot be printed.
    pub fn try_to_markdown(&self) -> (r: Option<String>)
        ensures
            match spec_yaml_dump(self.fm()) {
                Some(fm) => r matches Some(t) && t@ == "---\n"@ + fm + "---\n"@ + self.body@,
                None => r is None,
            },
    {
        match yaml_dump(&self.doc) {
            Some(_) => Some(self.to_markdown()),
            None => None,
        }
    }
}

} // verus!
