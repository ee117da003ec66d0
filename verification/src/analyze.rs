//! Read-only aggregate views over a vault: the dependency graph (as data and
//! as Graphviz DOT) and computed stats.

use vstd::prelude::*;

use crate::taskmd::graph::{Graph, blockers_spec, ready_spec};
use crate::taskmd::model::{Status, Task, priority_text, status_text};
use crate::text::{
    dec, dec_chars, lemma_text_lt_total, lemma_text_lt_trans, opt_text, replace_spec, replace_str, str_eq,
    string_of, strictly_sorted, text_less, text_lt, texts,
};

verus! {

/// One node of the exported dependency graph.
#[derive(Debug, Clone, PartialEq)]
pub struct GraphNode {
    pub id: String,
    pub title: String,
    pub status: String,
    /// All dependencies completed.
    pub ready: bool,
    /// The ids of the tasks it needs.
    pub dependencies: Vec<String>,
    /// Open dependencies currently blocking it.
    pub blockers: Vec<String>,
}

/// The dependency graph as data.
#[derive(Debug, Clone, PartialEq)]
pub struct GraphView {
    pub nodes: Vec<GraphNode>,
}

/// A node describes its task within the scanned tasks `ts`.
pub open spec fn node_ok(ts: Seq<Task>, t: Task, n: GraphNode) -> bool {
    &&& n.id@ == t.id_spec()
    &&& n.title@ == t.title_spec()
    &&& n.status@ == status_text(t.effective_status_spec())
    &&& n.ready == ready_spec(ts, t.list("dependencies"@))
    &&& texts(n.dependencies@) == t.list("dependencies"@)
    &&& texts(n.blockers@) == blockers_spec(ts, t.list("dependencies"@)).map_values(|b: Task| b.id_spec())
}

impl GraphNode {
    pub fn build(task: &Task, graph: &Graph) -> (r: GraphNode)
        ensures
            node_ok(graph.tasks_spec(), *task, r),
    {
        let bl = graph.blockers(task);
        let mut blockers: Vec<String> = Vec::new();
        let mut k: usize = 0;
        while k < bl.len()
            invariant
                k <= bl.len(),
                blockers.len() == k,
                forall|j: int| 0 <= j < k ==> (#[trigger] blockers@[j])@ == bl@[j].id_spec(),
            decreases bl.len() - k,
        {
            blockers.push(bl[k].id());
            k += 1;
        }
        proof {
            let want = blockers_spec(graph.tasks_spec(), task.list("dependencies"@)).map_values(|t: Task| t.id_spec());
            assert(bl@.map_values(|t: &Task| *t) == blockers_spec(graph.tasks_spec(), task.list("dependencies"@)));
            assert forall|j: int| 0 <= j < want.len() implies texts(blockers@)[j] == want[j] by {
                assert(bl@.map_values(|t: &Task| *t)[j] == *bl@[j]);
            }
            assert(texts(blockers@) =~= want);
        }
        GraphNode {
            id: task.id(),
            title: task.title(),
            status: task.effective_status().as_str().to_owned(),
            ready: graph.is_ready(task),
            dependencies: task.dependencies(),
            blockers,
        }
    }
}

impl GraphView {
    /// One node per task, in order.
    pub fn build(tasks: &[Task], graph: &Graph) -> (r: GraphView)
        ensures
            r.nodes.len() == tasks.len(),
            forall|i: int| 0 <= i < tasks.len() ==> node_ok(graph.tasks_spec(), tasks@[i], #[trigger] r.nodes@[i]),
    {
        let mut nodes: Vec<GraphNode> = Vec::new();
        let mut i: usize = 0;
        while i < tasks.len()
            invariant
                i <= tasks.len(),
                nodes.len() == i,
                forall|j: int| 0 <= j < i ==> node_ok(graph.tasks_spec(), tasks@[j], #[trigger] nodes@[j]),
            decreases tasks.len() - i,
        {
            nodes.push(GraphNode::build(&tasks[i], graph));
            i += 1;
        }
        GraphView { nodes }
    }
}

/// A string escaped for a DOT double-quoted label: backslashes, then quotes.
pub open spec fn dot_escape_spec(s: Seq<char>) -> Seq<char> {
    replace_spec(replace_spec(s, seq!['\\'], seq!['\\', '\\']), seq!['"'], seq!['\\', '"'])
}

fn dot_escape(s: &str) -> (r: String)
    ensures
        r@ == dot_escape_spec(s@),
{
    let a = replace_str(s, "\\", "\\\\");
    proof {
        reveal_strlit("\\");
        reveal_strlit("\\\\");
        reveal_strlit("\"");
        reveal_strlit("\\\"");
        assert("\\"@ =~= seq!['\\']);
        assert("\\\\"@ =~= seq!['\\', '\\']);
        assert("\""@ =~= seq!['"']);
        assert("\\\""@ =~= seq!['\\', '"']);
    }
    replace_str(a.as_str(), "\"", "\\\"")
}

/// The node lines of the first `n` nodes.
pub open spec fn dot_nodes(nodes: Seq<GraphNode>, n: int) -> Seq<char>
    decreases n,
{
    if n <= 0 {
        Seq::empty()
    } else {
        let x = nodes[n - 1];
        dot_nodes(nodes, n - 1) + "  \""@ + dot_escape_spec(x.id@) + "\" [label=\""@ + dot_escape_spec(x.id@) + ": "@
            + dot_escape_spec(x.title@) + "\"];\n"@
    }
}

/// The edge lines of a node's first `k` dependencies.
pub open spec fn dot_edges_of(deps: Seq<Seq<char>>, id: Seq<char>, k: int) -> Seq<char>
    decreases k,
{
    if k <= 0 {
        Seq::empty()
    } else {
        dot_edges_of(deps, id, k - 1) + "  \""@ + dot_escape_spec(deps[k - 1]) + "\" -> \""@ + dot_escape_spec(id)
            + "\";\n"@
    }
}

/// The edge lines of the first `n` nodes.
pub open spec fn dot_edges(nodes: Seq<GraphNode>, n: int) -> Seq<char>
    decreases n,
{
    if n <= 0 {
        Seq::empty()
    } else {
        let x = nodes[n - 1];
        dot_edges(nodes, n - 1) + dot_edges_of(texts(x.dependencies@), x.id@, x.dependencies.len() as int)
    }
}

/// The graph as Graphviz DOT: an edge points from each dependency to the
/// task that needs it.
pub open spec fn dot_spec(nodes: Seq<GraphNode>) -> Seq<char> {
    "digraph tasks {\n  rankdir=LR;\n"@ + dot_nodes(nodes, nodes.len() as int) + dot_edges(nodes, nodes.len() as int) + "}"@
}

pub fn to_dot(view: &GraphView) -> (r: String)
    ensures
        r@ == dot_spec(view.nodes@),
{
    let mut out = "digraph tasks {\n  rankdir=LR;\n".to_owned();
    let ghost head = out@;
    let mut i: usize = 0;
    while i < view.nodes.len()
        invariant
            i <= view.nodes.len(),
            out@ == head + dot_nodes(view.nodes@, i as int),
        decreases view.nodes.len() - i,
    {
        let n = &view.nodes[i];
        let e = dot_escape(n.id.as_str());
        out.append("  \"");
        out.append(e.as_str());
        out.append("\" [label=\"");
        out.append(e.as_str());
        out.append(": ");
        out.append(dot_escape(n.title.as_str()).as_str());
        out.append("\"];\n");
        proof {
            assert(out@ =~= head + dot_nodes(view.nodes@, i + 1));
        }
        i += 1;
    }
    let ghost mid = out@;
    let mut i: usize = 0;
    while i < view.nodes.len()
        invariant
            i <= view.nodes.len(),
            out@ == mid + dot_edges(view.nodes@, i as int),
        decreases view.nodes.len() - i,
    {
        let n = &view.nodes[i];
        let id = dot_escape(n.id.as_str());
        let ghost before = out@;
        let mut k: usize = 0;
        while k < n.dependencies.len()
            invariant
                k <= n.dependencies.len(),
                id@ == dot_escape_spec(n.id@),
                out@ == before + dot_edges_of(texts(n.dependencies@), n.id@, k as int),
            decreases n.dependencies.len() - k,
        {
            out.append("  \"");
            out.append(dot_escape(n.dependencies[k].as_str()).as_str());
            out.append("\" -> \"");
            out.append(id.as_str());
            out.append("\";\n");
            proof {
                assert(texts(n.dependencies@)[k as int] == n.dependencies@[k as int]@);
                assert(out@ =~= before + dot_edges_of(texts(n.dependencies@), n.id@, k + 1));
            }
            k += 1;
        }
        proof {
            assert(out@ =~= mid + dot_edges(view.nodes@, i + 1));
        }
        i += 1;
    }
    out.append("}");
    out
}

// ---------------------------------------------------------------------------
// Stats

/// How often `k` occurs among the first `n` keys.
pub open spec fn occurrences(keys: Seq<Seq<char>>, k: Seq<char>, n: int) -> int
    decreases n,
{
    if n <= 0 {
        0
    } else {
        occurrences(keys, k, n - 1) + if keys[n - 1] == k {
            1int
        } else {
            0int
        }
    }
}

pub open spec fn tally_keys(v: Seq<(String, usize)>) -> Seq<Seq<char>> {
    v.map_values(|p: (String, usize)| p.0@)
}

/// A tally of the first `n` keys: each key that occurs, once, in sorted
/// order, with its count.
pub open spec fn tally_ok(v: Seq<(String, usize)>, keys: Seq<Seq<char>>, n: int) -> bool {
    &&& strictly_sorted(tally_keys(v))
    &&& forall|i: int| 0 <= i < v.len() ==> (#[trigger] v[i]).1 as int == occurrences(keys, v[i].0@, n) && v[i].1 >= 1
    &&& forall|j: int| 0 <= j < n ==> tally_keys(v).contains(#[trigger] keys[j])
}

proof fn lemma_occurrences_bound(keys: Seq<Seq<char>>, k: Seq<char>, n: int)
    requires
        0 <= n,
    ensures
        0 <= occurrences(keys, k, n) <= n,
    decreases n,
{
    if n > 0 {
        lemma_occurrences_bound(keys, k, n - 1);
    }
}

/// Count one more key (`keys[n]`).
fn tally_add(v: &mut Vec<(String, usize)>, k: String, Ghost(keys): Ghost<Seq<Seq<char>>>, Ghost(n): Ghost<int>)
    requires
        0 <= n < keys.len(),
        keys[n] == k@,
        n < usize::MAX,
        tally_ok(old(v)@, keys, n),
    ensures
        tally_ok(final(v)@, keys, n + 1),
{
    let ghost v0 = v@;
    let mut q: usize = 0;
    while q < v.len() && text_less(v[q].0.as_str(), k.as_str())
        invariant
            q <= v.len(),
            v@ == v0,
            forall|j: int| 0 <= j < q ==> text_lt(#[trigger] tally_keys(v0)[j], k@),
        decreases v.len() - q,
    {
        q += 1;
    }
    proof {
        assert forall|x: Seq<char>| #[trigger] occurrences(keys, x, n + 1) == occurrences(keys, x, n) + if x == k@ {
            1int
        } else {
            0int
        } by {}
    }
    if q < v.len() && str_eq(v[q].0.as_str(), k.as_str()) {
        let (kk, c) = v.remove(q);
        proof {
            lemma_occurrences_bound(keys, k@, n);
        }
        v.insert(q, (kk, c + 1));
        proof {
            assert(v@ =~= v0.update(q as int, (kk, (c + 1) as usize)));
            assert(tally_keys(v@) =~= tally_keys(v0));
            let t0 = tally_keys(v0);
            assert(t0[q as int] == k@);
            assert forall|i: int| 0 <= i < v@.len() implies (#[trigger] v@[i]).1 as int == occurrences(keys, v@[i].0@, n + 1)
                && v@[i].1 >= 1 by {
                if i != q {
                    assert(v@[i] == v0[i]);
                    crate::text::lemma_text_lt_irrefl(k@);
                    if i < q {
                        assert(text_lt(t0[i], t0[q as int]));
                    } else {
                        assert(text_lt(t0[q as int], t0[i]));
                    }
                    assert(t0[i] != k@);
                }
            }
            assert forall|j: int| 0 <= j < n + 1 implies tally_keys(v@).contains(#[trigger] keys[j]) by {
                if j == n {
                    assert(tally_keys(v@)[q as int] == keys[j]);
                } else {
                    assert(tally_keys(v0).contains(keys[j]));
                }
            }
        }
    } else {
        proof {
            if q < v.len() {
                lemma_text_lt_total(v0[q as int].0@, k@);
            }
            assert(!tally_keys(v0).contains(k@)) by {
                if tally_keys(v0).contains(k@) {
                    let j = choose|j: int| 0 <= j < tally_keys(v0).len() && tally_keys(v0)[j] == k@;
                    if j < q {
                        crate::text::lemma_text_lt_irrefl(k@);
                    } else if j > q {
                        assert(text_lt(tally_keys(v0)[q as int], tally_keys(v0)[j]));
                        lemma_text_lt_trans(k@, tally_keys(v0)[q as int], k@);
                        crate::text::lemma_text_lt_irrefl(k@);
                    }
                }
            }
            assert(occurrences(keys, k@, n) == 0) by {
                lemma_occurrences_zero(keys, k@, n);
            }
        }
        let ghost kv = k@;
        v.insert(q, (k, 1));
        proof {
            let v1 = v@;
            assert(tally_keys(v1) =~= tally_keys(v0).insert(q as int, kv));
            let t0 = tally_keys(v0);
            let t1 = tally_keys(v1);
            assert forall|a: int, b: int| 0 <= a < b < t1.len() implies text_lt(#[trigger] t1[a], #[trigger] t1[b]) by {
                if a == q as int {
                    assert(t1[b] == t0[b - 1]);
                    if b - 1 == q as int {
                        lemma_text_lt_total(t0[q as int], kv);
                    } else {
                        lemma_text_lt_total(t0[q as int], kv);
                        assert(text_lt(t0[q as int], t0[b - 1]));
                        lemma_text_lt_trans(kv, t0[q as int], t0[b - 1]);
                    }
                } else if b == q as int {
                    assert(t1[a] == t0[a]);
                } else {
                    let ia = if a < q { a } else { a - 1 };
                    let ib = if b < q { b } else { b - 1 };
                    assert(t1[a] == t0[ia]);
                    assert(t1[b] == t0[ib]);
                }
            }
            assert forall|i: int| 0 <= i < v1.len() implies (#[trigger] v1[i]).1 as int == occurrences(keys, v1[i].0@, n + 1)
                && v1[i].1 >= 1 by {
                if i < q {
                    assert(v1[i] == v0[i]);
                    assert(t0[i] != kv) by {
                        crate::text::lemma_text_lt_irrefl(kv);
                    }
                } else if i > q {
                    assert(v1[i] == v0[i - 1]);
                    assert(t0[i - 1] != kv);
                }
            }
            assert forall|j: int| 0 <= j < n + 1 implies t1.contains(#[trigger] keys[j]) by {
                if j == n {
                    assert(t1[q as int] == keys[j]);
                } else {
                    assert(t0.contains(keys[j]));
                    let p = choose|p: int| 0 <= p < t0.len() && t0[p] == keys[j];
                    if p < q {
                        assert(t1[p] == keys[j]);
                    } else {
                        assert(t1[p + 1] == keys[j]);
                    }
                }
            }
        }
    }
}

/// A key that never occurs among the first `n` keys counts zero.
proof fn lemma_occurrences_zero(keys: Seq<Seq<char>>, k: Seq<char>, n: int)
    requires
        0 <= n <= keys.len(),
        forall|j: int| 0 <= j < n ==> keys[j] != k,
    ensures
        occurrences(keys, k, n) == 0,
    decreases n,
{
    if n > 0 {
        lemma_occurrences_zero(keys, k, n - 1);
    }
}

/// Computed vault metrics. Each tally lists its keys in sorted order.
#[derive(Debug, Clone, PartialEq)]
pub struct StatsView {
    pub total: usize,
    /// Count per (effective) status.
    pub by_status: Vec<(String, usize)>,
    /// Count per (effective) priority.
    pub by_priority: Vec<(String, usize)>,
    /// Count per phase; tasks with no phase count under `(none)`.
    pub by_phase: Vec<(String, usize)>,
    /// Not terminal, all dependencies completed.
    pub ready: usize,
    /// Not terminal, with an open dependency.
    pub blocked: usize,
    /// Broken task-like files found while scanning.
    pub invalid: usize,
}

pub open spec fn status_key(t: Task) -> Seq<char> {
    status_text(t.effective_status_spec())
}

pub open spec fn priority_key(t: Task) -> Seq<char> {
    priority_text(t.effective_priority_spec())
}

pub open spec fn phase_key(t: Task) -> Seq<char> {
    match t.text("phase"@) {
        Some(p) => p,
        None => "(none)"@,
    }
}

pub open spec fn open_task(t: Task) -> bool {
    !(t.effective_status_spec() == Status::Completed || t.effective_status_spec() == Status::Cancelled)
}

/// Open tasks among the first `n` that are ready (or, with `want_ready`
/// false, blocked).
pub open spec fn count_open(ts: Seq<Task>, all: Seq<Task>, want_ready: bool, n: int) -> int
    decreases n,
{
    if n <= 0 {
        0
    } else {
        count_open(ts, all, want_ready, n - 1) + if open_task(ts[n - 1]) && ready_spec(all, ts[n - 1].list("dependencies"@))
            == want_ready {
            1int
        } else {
            0int
        }
    }
}

proof fn lemma_count_open_bound(ts: Seq<Task>, all: Seq<Task>, want_ready: bool, n: int)
    requires
        0 <= n,
    ensures
        0 <= count_open(ts, all, want_ready, n) <= n,
    decreases n,
{
    if n > 0 {
        lemma_count_open_bound(ts, all, want_ready, n - 1);
    }
}

impl StatsView {
    pub fn build(tasks: &[Task], graph: &Graph, invalid: usize) -> (r: StatsView)
        ensures
            r.total == tasks.len(),
            tally_ok(r.by_status@, tasks@.map_values(|t: Task| status_key(t)), tasks.len() as int),
            tally_ok(r.by_priority@, tasks@.map_values(|t: Task| priority_key(t)), tasks.len() as int),
            tally_ok(r.by_phase@, tasks@.map_values(|t: Task| phase_key(t)), tasks.len() as int),
            r.ready == count_open(tasks@, graph.tasks_spec(), true, tasks.len() as int),
            r.blocked == count_open(tasks@, graph.tasks_spec(), false, tasks.len() as int),
            r.invalid == invalid,
    {
        let ghost sk = tasks@.map_values(|t: Task| status_key(t));
        let ghost pk = tasks@.map_values(|t: Task| priority_key(t));
        let ghost hk = tasks@.map_values(|t: Task| phase_key(t));
        let mut by_status: Vec<(String, usize)> = Vec::new();
        let mut by_priority: Vec<(String, usize)> = Vec::new();
        let mut by_phase: Vec<(String, usize)> = Vec::new();
        let mut ready: usize = 0;
        let mut blocked: usize = 0;
        let mut i: usize = 0;
        while i < tasks.len()
            invariant
                i <= tasks.len(),
                sk == tasks@.map_values(|t: Task| status_key(t)),
                pk == tasks@.map_values(|t: Task| priority_key(t)),
                hk == tasks@.map_values(|t: Task| phase_key(t)),
                tally_ok(by_status@, sk, i as int),
                tally_ok(by_priority@, pk, i as int),
                tally_ok(by_phase@, hk, i as int),
                ready == count_open(tasks@, graph.tasks_spec(), true, i as int),
                blocked == count_open(tasks@, graph.tasks_spec(), false, i as int),
            decreases tasks.len() - i,
        {
            let t = &tasks[i];
            proof {
                lemma_count_open_bound(tasks@, graph.tasks_spec(), true, i as int);
                lemma_count_open_bound(tasks@, graph.tasks_spec(), false, i as int);
            }
            tally_add(&mut by_status, t.effective_status().as_str().to_owned(), Ghost(sk), Ghost(i as int));
            tally_add(&mut by_priority, t.effective_priority().as_str().to_owned(), Ghost(pk), Ghost(i as int));
            let phase = match t.phase() {
                Some(p) => p,
                None => "(none)".to_owned(),
            };
            tally_add(&mut by_phase, phase, Ghost(hk), Ghost(i as int));
            if !t.effective_status().is_terminal() {
                if graph.is_ready(t) {
                    ready += 1;
                } else {
                    blocked += 1;
                }
            }
            i += 1;
        }
        StatsView { total: tasks.len(), by_status, by_priority, by_phase, ready, blocked, invalid }
    }
}

/// A tally section: its title line, then one indented line per key.
pub open spec fn section_spec(title: Seq<char>, v: Seq<(String, usize)>, n: int) -> Seq<char>
    decreases n,
{
    if n <= 0 {
        title + ":"@
    } else {
        section_spec(title, v, n - 1) + "\n  "@ + v[n - 1].0@ + ": "@ + dec(v[n - 1].1 as nat)
    }
}

fn section(out: &mut String, title: &str, v: &Vec<(String, usize)>)
    ensures
        final(out)@ == old(out)@ + section_spec(title@, v@, v.len() as int),
{
    let ghost start = out@;
    out.append(title);
    out.append(":");
    let mut i: usize = 0;
    while i < v.len()
        invariant
            i <= v.len(),
            out@ == start + section_spec(title@, v@, i as int),
        decreases v.len() - i,
    {
        out.append("\n  ");
        out.append(v[i].0.as_str());
        out.append(": ");
        out.append(string_of(dec_chars(v[i].1 as u64).as_slice()).as_str());
        proof {
            assert(out@ =~= start + section_spec(title@, v@, i + 1));
        }
        i += 1;
    }
}

/// Human-readable stats summary.
pub open spec fn stats_text(s: StatsView) -> Seq<char> {
    dec(s.total as nat) + " task(s)"@ + (if s.invalid > 0 {
        " ("@ + dec(s.invalid as nat) + " broken file(s))"@
    } else {
        Seq::empty()
    }) + "\n"@ + section_spec("by status"@, s.by_status@, s.by_status.len() as int) + "\n"@ + section_spec(
        "by priority"@,
        s.by_priority@,
        s.by_priority.len() as int,
    ) + "\n"@ + section_spec("by phase"@, s.by_phase@, s.by_phase.len() as int) + "\nready: "@ + dec(s.ready as nat)
        + "\nblocked: "@ + dec(s.blocked as nat)
}

pub fn render_stats(s: &StatsView) -> (r: String)
    ensures
        r@ == stats_text(*s),
{
    let mut out = string_of(dec_chars(s.total as u64).as_slice());
    out.append(" task(s)");
    if s.invalid > 0 {
        out.append(" (");
        out.append(string_of(dec_chars(s.invalid as u64).as_slice()).as_str());
        out.append(" broken file(s))");
    }
    out.append("\n");
    section(&mut out, "by status", &s.by_status);
    out.append("\n");
    section(&mut out, "by priority", &s.by_priority);
    out.append("\n");
    section(&mut out, "by phase", &s.by_phase);
    out.append("\nready: ");
    out.append(string_of(dec_chars(s.ready as u64).as_slice()).as_str());
    out.append("\nblocked: ");
    out.append(string_of(dec_chars(s.blocked as u64).as_slice()).as_str());
    out
}

/// Open tasks among the first `n`.
pub open spec fn open_count(ts: Seq<Task>, n: int) -> int
    decreases n,
{
    if n <= 0 {
        0
    } else {
        open_count(ts, n - 1) + if open_task(ts[n - 1]) {
            1int
        } else {
            0int
        }
    }
}

/// Every open task is either ready or blocked, never both: the two stats add
/// up to the open tasks.
pub proof fn law_ready_and_blocked_split_open(ts: Seq<Task>, all: Seq<Task>, n: int)
    requires
        0 <= n <= ts.len(),
    ensures
        count_open(ts, all, true, n) + count_open(ts, all, false, n) == open_count(ts, n),
    decreases n,
{
    if n > 0 {
        law_ready_and_blocked_split_open(ts, all, n - 1);
    }
}

} // verus!
