//! One task view behind every output format: the human table here, and the
//! machine formats the application prints from the same view.

use vstd::prelude::*;

use vstd::string::StringExecFns;

use crate::date::{Date, date_parts, spec_format_ymd};
use crate::taskmd::graph::{Graph, blockers_spec, ready_spec};
use crate::taskmd::model::{Task, priority_text, status_text};
use crate::text::{chars_of, opt_text, string_of, texts, trim, trim_chars};

verus! {

/// Output format selector shared by every reading command.
#[derive(Debug, Clone, Copy, PartialEq, Eq, Structural)]
pub enum Format {
    Human,
    Json,
    Yaml,
}

impl Format {
    /// Combine the `--json` / `--yaml` flags; `--json` wins.
    pub fn from_flags(json: bool, yaml: bool) -> (r: Format)
        ensures
            r == (if json {
                Format::Json
            } else if yaml {
                Format::Yaml
            } else {
                Format::Human
            }),
    {
        if json {
            Format::Json
        } else if yaml {
            Format::Yaml
        } else {
            Format::Human
        }
    }
}

impl Default for Format {
    fn default() -> (r: Format)
        ensures
            r == Format::Human,
    {
        Format::Human
    }
}

/// The slice of a task every output shows; field names follow the frontmatter.
#[derive(Debug, Clone, PartialEq)]
pub struct TaskView {
    pub id: String,
    pub title: String,
    pub status: String,
    pub priority: String,
    pub effort: Option<String>,
    pub task_type: Option<String>,
    pub phase: Option<String>,
    /// Target date as written; may be malformed.
    pub due: Option<String>,
    pub tags: Vec<String>,
    pub dependencies: Vec<String>,
    pub group: Option<String>,
    pub owner: Option<String>,
    pub parent: Option<String>,
    pub created_at: Option<String>,
    pub completed_at: Option<String>,
    pub cancelled_at: Option<String>,
    pub recurring: Option<String>,
    pub file: Option<String>,
    /// All dependencies `completed`.
    pub ready: bool,
    /// Ids of the open dependencies blocking the task.
    pub blockers: Vec<String>,
    /// Markdown body, trimmed; only for detail views.
    pub body: Option<String>,
}

/// A date field as `YYYY-MM-DD` text.
pub open spec fn date_text(d: Option<(int, int, int)>) -> Option<Seq<char>> {
    match d {
        Some((y, m, dd)) => Some(spec_format_ymd(y, m, dd)),
        None => None,
    }
}

/// A text, or a default where it is absent.
pub open spec fn or_text(o: Option<Seq<char>>, dflt: Seq<char>) -> Seq<char> {
    match o {
        Some(t) => t,
        None => dflt,
    }
}

fn date_string(d: Option<Date>) -> (r: Option<String>)
    requires
        d matches Some(x) ==> x.wf(),
    ensures
        opt_text(r) == date_text(date_parts(d)),
{
    match d {
        Some(x) => Some(x.format()),
        None => None,
    }
}

/// `r` is the view of task `t` over the tasks `ts`.
pub open spec fn view_ok(ts: Seq<Task>, t: Task, r: TaskView, with_body: bool) -> bool {
    &&& r.id@ == t.id_spec()
    &&& r.title@ == t.title_spec()
    &&& r.status@ == or_text(t.text("status"@), status_text(t.effective_status_spec()))
    &&& r.priority@ == or_text(t.text("priority"@), priority_text(t.effective_priority_spec()))
    &&& opt_text(r.effort) == t.text("effort"@)
    &&& opt_text(r.task_type) == t.text("type"@)
    &&& opt_text(r.phase) == t.text("phase"@)
    &&& opt_text(r.due) == t.text("due"@)
    &&& texts(r.tags@) == t.list("tags"@)
    &&& texts(r.dependencies@) == t.list("dependencies"@)
    &&& opt_text(r.group) == (match t.text("group"@) {
                Some(g) => Some(g),
                None => opt_text(t.dir_group),
            })
    &&& opt_text(r.owner) == t.text("owner"@)
    &&& opt_text(r.parent) == t.text("parent"@)
    &&& opt_text(r.created_at) == date_text(if t.field("created_at"@) is Some {
                t.date("created_at"@)
            } else {
                t.date("created"@)
            })
    &&& opt_text(r.completed_at) == date_text(t.date("completed_at"@))
    &&& opt_text(r.cancelled_at) == date_text(t.date("cancelled_at"@))
    &&& opt_text(r.recurring) == t.text("recurring"@)
    &&& opt_text(r.file) == opt_text(t.rel_path)
    &&& r.ready == ready_spec(ts, t.list("dependencies"@))
    &&& texts(r.blockers@) == blockers_spec(ts, t.list("dependencies"@)).map_values(
                |t: Task| t.id_spec(),
            )
    &&& opt_text(r.body) == (if with_body {
                Some(trim(t.body@))
            } else {
                None
            })
}

impl TaskView {
    /// Build the view of one task: raw enum texts as written (defaults where
    /// absent), readiness and blockers from the graph, the trimmed body for
    /// detail views.
    pub fn build(task: &Task, graph: &Graph, with_body: bool) -> (r: TaskView)
        ensures
            view_ok(graph.tasks_spec(), *task, r, with_body),
    {
        let status = match task.status_raw() {
            Some(s) => s,
            None => task.effective_status().as_str().to_owned(),
        };
        let priority = match task.priority_raw() {
            Some(p) => p,
            None => task.effective_priority().as_str().to_owned(),
        };
        let bl = graph.blockers(task);
        let mut blockers: Vec<String> = Vec::new();
        let mut k: usize = 0;
        while k < bl.len()
            invariant
                k <= bl.len(),
                blockers.len() == k,
                forall|j: int| 0 <= j < k ==> (#[trigger] blockers@[j])@ == bl@[j].id_spec(),
            decreases bl.len() - k,
        {
            blockers.push(bl[k].id());
            k += 1;
        }
        proof {
            let want = blockers_spec(graph.tasks_spec(), task.list("dependencies"@)).map_values(|t: Task| t.id_spec());
            assert(bl@.map_values(|t: &Task| *t) == blockers_spec(graph.tasks_spec(), task.list("dependencies"@)));
            assert forall|j: int| 0 <= j < want.len() implies texts(blockers@)[j] == want[j] by {
                assert(bl@.map_values(|t: &Task| *t)[j] == *bl@[j]);
            }
            assert(texts(blockers@) =~= want);
        }
        let body = if with_body {
            let c = chars_of(task.body.as_str());
            Some(string_of(&trim_chars(&c)))
        } else {
            None
        };
        let file = match &task.rel_path {
            Some(p) => Some(p.clone()),
            None => None,
        };
        TaskView {
            id: task.id(),
            title: task.title(),
            status,
            priority,
            effort: task.effort_raw(),
            task_type: task.task_type_raw(),
            phase: task.phase(),
            due: task.due_raw(),
            tags: task.tags(),
            dependencies: task.dependencies(),
            group: task.group(),
            owner: task.owner(),
            parent: task.parent(),
            created_at: date_string(task.created_at()),
            completed_at: date_string(task.completed_at()),
            cancelled_at: date_string(task.cancelled_at()),
            recurring: task.recurring(),
            file,
            ready: graph.is_ready(task),
            blockers,
            body,
        }
    }
}

// ---------------------------------------------------------------------------
// The human table

/// Bytes a character takes in UTF-8.
pub open spec fn utf8_width(c: char) -> int {
    if (c as u32) < 0x80 {
        1
    } else if (c as u32) < 0x800 {
        2
    } else if (c as u32) < 0x10000 {
        3
    } else {
        4
    }
}

/// Bytes a text takes in UTF-8 (what `str::len` counts).
pub open spec fn utf8_len(s: Seq<char>) -> int
    decreases s.len(),
{
    if s.len() == 0 {
        0
    } else {
        utf8_len(s.drop_last()) + utf8_width(s.last())
    }
}

/// A byte count as a `usize` holds it (saturating at the largest).
pub open spec fn clip(x: int) -> int {
    if x > usize::MAX {
        usize::MAX as int
    } else {
        x
    }
}

proof fn lemma_utf8_len_grows(s: Seq<char>)
    ensures
        0 <= utf8_len(s),
    decreases s.len(),
{
    if s.len() > 0 {
        lemma_utf8_len_grows(s.drop_last());
    }
}

fn utf8_length(s: &str) -> (r: usize)
    ensures
        r as int == clip(utf8_len(s@)),
{
    let c = chars_of(s);
    let mut n: usize = 0;
    let mut i: usize = 0;
    while i < c.len()
        invariant
            i <= c.len(),
            n as int == clip(utf8_len(c@.take(i as int))),
        decreases c.len() - i,
    {
        assert(c@.take(i + 1).drop_last() =~= c@.take(i as int));
        let x = c[i] as u32;
        let w: usize = if x < 0x80 {
            1
        } else if x < 0x800 {
            2
        } else if x < 0x10000 {
            3
        } else {
            4
        };
        proof {
            lemma_utf8_len_grows(c@.take(i as int));
        }
        n = n.saturating_add(w);
        i += 1;
    }
    assert(c@.take(c.len() as int) =~= c@);
    n
}

/// `s` padded with spaces on the right to `w` characters (`{:<w$}`).
pub open spec fn pad_right(s: Seq<char>, w: int) -> Seq<char> {
    if s.len() < w {
        s + Seq::new((w - s.len()) as nat, |i: int| ' ')
    } else {
        s
    }
}

/// Items joined by `, `.
pub open spec fn join_comma(items: Seq<Seq<char>>) -> Seq<char>
    decreases items.len(),
{
    if items.len() == 0 {
        Seq::empty()
    } else if items.len() == 1 {
        items[0]
    } else {
        join_comma(items.drop_last()) + ", "@ + items.last()
    }
}

/// The title cell: the title, with its blockers when it waits on any.
pub open spec fn title_cell(v: TaskView) -> Seq<char> {
    if v.ready || v.blockers.len() == 0 {
        v.title@
    } else {
        v.title@ + " [waits on "@ + join_comma(texts(v.blockers@)) + "]"@
    }
}

/// The five cells of a row: id, status, priority, phase, title.
pub open spec fn row_cells(v: TaskView) -> Seq<Seq<char>> {
    seq![v.id@, v.status@, v.priority@, or_text(opt_text(v.phase), Seq::empty()), title_cell(v)]
}

pub open spec fn header_cells() -> Seq<Seq<char>> {
    seq!["id"@, "status"@, "prio"@, "phase"@, "title"@]
}

pub open spec fn dash_cells() -> Seq<Seq<char>> {
    seq!["--"@, "------"@, "----"@, "-----"@, "-----"@]
}

/// Width of column `c`: the widest of its header and cells, in bytes.
pub open spec fn col_width(views: Seq<TaskView>, c: int) -> int
    decreases views.len(),
{
    if views.len() == 0 {
        clip(utf8_len(header_cells()[c]))
    } else {
        let w = col_width(views.drop_last(), c);
        let x = clip(utf8_len(row_cells(views.last())[c]));
        if x > w {
            x
        } else {
            w
        }
    }
}

/// One table line: cells joined by two spaces, all but the last padded.
pub open spec fn table_line(cells: Seq<Seq<char>>, views: Seq<TaskView>, n: int) -> Seq<char>
    decreases n,
{
    if n <= 0 {
        Seq::empty()
    } else {
        let prev = table_line(cells, views, n - 1);
        let sep = if n > 1 {
            "  "@
        } else {
            Seq::empty()
        };
        let cell = if n == 5 {
            cells[n - 1]
        } else {
            pad_right(cells[n - 1], col_width(views, n - 1))
        };
        prev + sep + cell
    }
}

/// The human task table: header, dashes, one line per view.
pub open spec fn table_spec(views: Seq<TaskView>) -> Seq<char> {
    if views.len() == 0 {
        "no tasks match"@
    } else {
        table_rows(views, views.len() as int)
    }
}

/// Header, dash line and the first `n` rows.
pub open spec fn table_rows(views: Seq<TaskView>, n: int) -> Seq<char>
    decreases n,
{
    if n <= 0 {
        table_line(header_cells(), views, 5) + "\n"@ + table_line(dash_cells(), views, 5)
    } else {
        table_rows(views, n - 1) + "\n"@ + table_line(row_cells(views[n - 1]), views, 5)
    }
}

fn join_comma_exec(items: &Vec<String>) -> (r: String)
    ensures
        r@ == join_comma(texts(items@)),
{
    let mut out = String::new();
    let mut i: usize = 0;
    while i < items.len()
        invariant
            i <= items.len(),
            out@ == join_comma(texts(items@.take(i as int))),
        decreases items.len() - i,
    {
        let ghost prev = texts(items@.take(i as int));
        assert(texts(items@.take(i + 1)).drop_last() =~= prev);
        assert(texts(items@.take(i + 1)).last() == items@[i as int]@);
        if i > 0 {
            out.append(", ");
        }
        out.append(items[i].as_str());
        proof {
            if i == 0 {
                assert(out@ =~= join_comma(texts(items@.take(i + 1))));
            }
        }
        i += 1;
    }
    assert(items@.take(items.len() as int) =~= items@);
    out
}

fn cells_of(v: &TaskView) -> (r: Vec<String>)
    ensures
        texts(r@) == row_cells(*v),
{
    let title = if v.ready || v.blockers.len() == 0 {
        v.title.clone()
    } else {
        let mut t = v.title.clone();
        t.append(" [waits on ");
        t.append(join_comma_exec(&v.blockers).as_str());
        t.append("]");
        t
    };
    let phase = match &v.phase {
        Some(p) => p.clone(),
        None => String::new(),
    };
    let r = vec![v.id.clone(), v.status.clone(), v.priority.clone(), phase, title];
    assert(texts(r@) =~= row_cells(*v));
    r
}

fn pad_right_exec(s: &str, w: usize) -> (r: String)
    ensures
        r@ == pad_right(s@, w as int),
{
    let c = chars_of(s);
    let mut out: Vec<char> = c.clone();
    assert(out@ == c@);
    if c.len() < w {
        let mut k = c.len();
        while k < w
            invariant
                c.len() <= k <= w,
                out@ =~= c@ + Seq::new((k - c.len()) as nat, |i: int| ' '),
            decreases w - k,
        {
            out.push(' ');
            k += 1;
        }
    }
    string_of(&out)
}

fn line_exec(cells: &Vec<String>, widths: &Vec<usize>, Ghost(views): Ghost<Seq<TaskView>>) -> (r: String)
    requires
        cells.len() == 5,
        widths.len() == 5,
        forall|c: int| 0 <= c < 5 ==> widths@[c] as int == col_width(views, c),
    ensures
        r@ == table_line(texts(cells@), views, 5),
{
    let mut out = String::new();
    let mut n: usize = 0;
    while n < 5
        invariant
            n <= 5,
            cells.len() == 5,
            widths.len() == 5,
            forall|c: int| 0 <= c < 5 ==> widths@[c] as int == col_width(views, c),
            out@ == table_line(texts(cells@), views, n as int),
        decreases 5 - n,
    {
        if n > 0 {
            out.append("  ");
        }
        if n == 4 {
            out.append(cells[n].as_str());
        } else {
            out.append(pad_right_exec(cells[n].as_str(), widths[n]).as_str());
        }
        proof {
            assert(texts(cells@)[n as int] == cells@[n as int]@);
            assert(out@ =~= table_line(texts(cells@), views, n + 1));
        }
        n += 1;
    }
    out
}

/// The human-readable task table (list and query results): id, status,
/// priority, phase and title columns, each as wide as its widest entry, the
/// last unpadded; a task waiting on open dependencies lists them after its
/// title.
pub fn task_table(views: &[TaskView]) -> (r: String)
    ensures
        r@ == table_spec(views@),
{
    if views.len() == 0 {
        return "no tasks match".to_owned();
    }
    let headers: Vec<String> = vec!["id".to_owned(), "status".to_owned(), "prio".to_owned(), "phase".to_owned(), "title".to_owned()];
    let dashes: Vec<String> = vec!["--".to_owned(), "------".to_owned(), "----".to_owned(), "-----".to_owned(), "-----".to_owned()];
    assert(texts(headers@) =~= header_cells());
    assert(texts(dashes@) =~= dash_cells());
    let mut rows: Vec<Vec<String>> = Vec::new();
    let mut i: usize = 0;
    while i < views.len()
        invariant
            i <= views.len(),
            rows.len() == i,
            forall|j: int| 0 <= j < i ==> texts((#[trigger] rows@[j])@) == row_cells(views@[j]),
        decreases views.len() - i,
    {
        rows.push(cells_of(&views[i]));
        i += 1;
    }
    let mut widths: Vec<usize> = Vec::new();
    let mut c: usize = 0;
    while c < 5
        invariant
            c <= 5,
            widths.len() == c,
            rows.len() == views.len(),
            headers.len() == 5,
            texts(headers@) == header_cells(),
            forall|j: int| 0 <= j < views.len() ==> texts((#[trigger] rows@[j])@) == row_cells(views@[j]),
            forall|k: int| 0 <= k < c ==> (#[trigger] widths@[k]) as int == col_width(views@, k),
        decreases 5 - c,
    {
        assert(texts(headers@)[c as int] == headers@[c as int]@);
        let mut w = utf8_length(headers[c].as_str());
        assert(views@.take(0) =~= Seq::<TaskView>::empty());
        let mut j: usize = 0;
        while j < rows.len()
            invariant
                j <= rows.len(),
                c < 5,
                rows.len() == views.len(),
                forall|q: int| 0 <= q < views.len() ==> texts((#[trigger] rows@[q])@) == row_cells(views@[q]),
                w as int == col_width(views@.take(j as int), c as int),
            decreases rows.len() - j,
        {
            assert(views@.take(j + 1).drop_last() =~= views@.take(j as int));
            assert(views@.take(j + 1).last() == views@[j as int]);
            assert(texts(rows@[j as int]@)[c as int] == rows@[j as int]@[c as int]@);
            assert(rows[j as int]@.len() == texts(rows@[j as int]@).len());
            let x = utf8_length(rows[j][c].as_str());
            if x > w {
                w = x;
            }
            j += 1;
        }
        assert(views@.take(views.len() as int) =~= views@);
        widths.push(w);
        c += 1;
    }
    let mut out = line_exec(&headers, &widths, Ghost(views@));
    out.append("\n");
    out.append(line_exec(&dashes, &widths, Ghost(views@)).as_str());
    let mut k: usize = 0;
    while k < rows.len()
        invariant
            k <= rows.len(),
            rows.len() == views.len(),
            widths.len() == 5,
            forall|q: int| 0 <= q < 5 ==> (#[trigger] widths@[q]) as int == col_width(views@, q),
            forall|q: int| 0 <= q < views.len() ==> texts((#[trigger] rows@[q])@) == row_cells(views@[q]),
            out@ == table_rows(views@, k as int),
        decreases rows.len() - k,
    {
        out.append("\n");
        assert(rows@[k as int]@.len() == texts(rows@[k as int]@).len());
        out.append(line_exec(&rows[k], &widths, Ghost(views@)).as_str());
        k += 1;
    }
    out
}

/// How many line breaks a text holds.
pub open spec fn nl_count(s: Seq<char>) -> nat
    decreases s.len(),
{
    if s.len() == 0 {
        0
    } else {
        nl_count(s.drop_last()) + if s.last() == '\n' {
            1nat
        } else {
            0nat
        }
    }
}

/// A text holds no line break.
pub open spec fn one_line(s: Seq<char>) -> bool {
    forall|i: int| 0 <= i < s.len() ==> #[trigger] s[i] != '\n'
}

proof fn lemma_nl_concat(a: Seq<char>, b: Seq<char>)
    ensures
        nl_count(a + b) == nl_count(a) + nl_count(b),
    decreases b.len(),
{
    if b.len() > 0 {
        lemma_nl_concat(a, b.drop_last());
        assert((a + b).drop_last() =~= a + b.drop_last());
        assert((a + b).last() == b.last());
    } else {
        assert(a + b =~= a);
    }
}

proof fn lemma_one_line_none(s: Seq<char>)
    requires
        one_line(s),
    ensures
        nl_count(s) == 0,
    decreases s.len(),
{
    if s.len() > 0 {
        assert(one_line(s.drop_last())) by {
            assert forall|i: int| 0 <= i < s.drop_last().len() implies #[trigger] s.drop_last()[i] != '\n' by {
                assert(s.drop_last()[i] == s[i]);
            }
        }
        lemma_one_line_none(s.drop_last());
        assert(s.last() == s[s.len() - 1]);
    }
}

proof fn lemma_one_line_concat(a: Seq<char>, b: Seq<char>)
    requires
        one_line(a),
        one_line(b),
    ensures
        one_line(a + b),
{
    assert forall|i: int| 0 <= i < (a + b).len() implies #[trigger] (a + b)[i] != '\n' by {
        if i < a.len() {
            assert((a + b)[i] == a[i]);
        } else {
            assert((a + b)[i] == b[i - a.len()]);
        }
    }
}

proof fn lemma_join_one_line(items: Seq<Seq<char>>)
    requires
        forall|k: int| 0 <= k < items.len() ==> one_line(#[trigger] items[k]),
    ensures
        one_line(join_comma(items)),
    decreases items.len(),
{
    reveal_strlit(", ");
    if items.len() > 1 {
        let p = items.drop_last();
        assert forall|k: int| 0 <= k < p.len() implies one_line(#[trigger] p[k]) by {
            assert(p[k] == items[k]);
        }
        lemma_join_one_line(p);
        assert(one_line(items[items.len() - 1]));
        assert(one_line(", "@));
        lemma_one_line_concat(join_comma(p), ", "@);
        lemma_one_line_concat(join_comma(p) + ", "@, items.last());
    } else if items.len() == 1 {
        assert(one_line(items[0]));
    }
}

proof fn lemma_line_one_line(cells: Seq<Seq<char>>, views: Seq<TaskView>, n: int)
    requires
        cells.len() == 5,
        0 <= n <= 5,
        forall|k: int| 0 <= k < 5 ==> one_line(#[trigger] cells[k]),
    ensures
        one_line(table_line(cells, views, n)),
    decreases n,
{
    reveal_strlit("  ");
    if n > 0 {
        lemma_line_one_line(cells, views, n - 1);
        let c = cells[n - 1];
        assert(one_line(c));
        let w = col_width(views, n - 1);
        if c.len() < w {
            let sp = Seq::new((w - c.len()) as nat, |i: int| ' ');
            assert(one_line(sp));
            lemma_one_line_concat(c, sp);
        }
        let sep = if n > 1 {
            "  "@
        } else {
            Seq::<char>::empty()
        };
        assert(one_line(sep));
        let prev = table_line(cells, views, n - 1);
        lemma_one_line_concat(prev, sep);
        let cell = if n == 5 {
            c
        } else {
            pad_right(c, w)
        };
        assert(one_line(cell));
        lemma_one_line_concat(prev + sep, cell);
    }
}

/// A view whose shown texts hold no line break.
pub open spec fn view_one_line(v: TaskView) -> bool {
    &&& one_line(v.id@)
    &&& one_line(v.status@)
    &&& one_line(v.priority@)
    &&& (v.phase matches Some(p) ==> one_line(p@))
    &&& one_line(v.title@)
    &&& forall|k: int| 0 <= k < v.blockers.len() ==> one_line(#[trigger] texts(v.blockers@)[k])
}

proof fn lemma_rows_count(views: Seq<TaskView>, n: int)
    requires
        0 <= n <= views.len(),
        forall|i: int| 0 <= i < views.len() ==> view_one_line(#[trigger] views[i]),
    ensures
        nl_count(table_rows(views, n)) == n + 1,
    decreases n,
{
    reveal_strlit("\n");
    reveal_strlit("id");
    reveal_strlit("status");
    reveal_strlit("prio");
    reveal_strlit("phase");
    reveal_strlit("title");
    reveal_strlit("--");
    reveal_strlit("------");
    reveal_strlit("----");
    reveal_strlit("-----");
    assert(nl_count("\n"@) == 1) by {
        assert("\n"@.len() == 1);
        assert("\n"@.drop_last() =~= Seq::<char>::empty());
        assert(nl_count(Seq::<char>::empty()) == 0);
        assert("\n"@.last() == '\n');
    }
    if n == 0 {
        let h = header_cells();
        let d = dash_cells();
        assert forall|k: int| 0 <= k < 5 implies one_line(#[trigger] h[k]) by {}
        assert forall|k: int| 0 <= k < 5 implies one_line(#[trigger] d[k]) by {}
        lemma_line_one_line(h, views, 5);
        lemma_line_one_line(d, views, 5);
        lemma_one_line_none(table_line(h, views, 5));
        lemma_one_line_none(table_line(d, views, 5));
        lemma_nl_concat(table_line(h, views, 5), "\n"@);
        lemma_nl_concat(table_line(h, views, 5) + "\n"@, table_line(d, views, 5));
    } else {
        lemma_rows_count(views, n - 1);
        let v = views[n - 1];
        assert(view_one_line(v));
        let cells = row_cells(v);
        reveal_strlit(" [waits on ");
        reveal_strlit("]");
        if !(v.ready || v.blockers.len() == 0) {
            lemma_join_one_line(texts(v.blockers@));
            lemma_one_line_concat(v.title@, " [waits on "@);
            lemma_one_line_concat(v.title@ + " [waits on "@, join_comma(texts(v.blockers@)));
            lemma_one_line_concat(v.title@ + " [waits on "@ + join_comma(texts(v.blockers@)), "]"@);
        }
        assert(one_line(Seq::<char>::empty()));
        assert forall|k: int| 0 <= k < 5 implies one_line(#[trigger] cells[k]) by {}
        lemma_line_one_line(cells, views, 5);
        lemma_one_line_none(table_line(cells, views, 5));
        let prev = table_rows(views, n - 1);
        lemma_nl_concat(prev, "\n"@);
        lemma_nl_concat(prev + "\n"@, table_line(cells, views, 5));
    }
}

/// The table of one or more views whose shown texts hold no line break has
/// exactly one line more than views beyond the header: a header line, a
/// dash line and one line per view, so `views.len() + 1` line breaks.
pub proof fn law_table_line_count(views: Seq<TaskView>)
    requires
        views.len() > 0,
        forall|i: int| 0 <= i < views.len() ==> view_one_line(#[trigger] views[i]),
    ensures
        nl_count(table_spec(views)) == views.len() + 1,
{
    lemma_rows_count(views, views.len() as int);
}

} // verus!
