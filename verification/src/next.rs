//! Ranked next-task recommendation, following taskmd's `next` algorithm so
//! both tools agree on the same vault.
//!
//! Actionable = explicitly `pending` or `in-progress`, every dependency
//! `completed` (a `cancelled` dependency blocks forever), and no unresolved
//! children. Score = priority base (40/30/20/10) + critical-path bonus (15) +
//! downstream bonus (3 per unblocked task, capped at 15) — the last two
//! scaled by the highest priority found downstream (critical/high x1, medium
//! x1/2, else x1/4, rounded down) — + effort bonus (small +5 "quick win",
//! medium +2) + phase bonus (25 - 5 x phase index). Ties break by id.

use vstd::prelude::*;

use crate::taskmd::graph::{
    Graph, blockers_spec, children_spec, dependent_ids, has_id, reaches, ready_spec, task_of,
};
use crate::taskmd::model::{
    Effort, Priority, Status, Task, effort_text, priority_rank, priority_text, status_named, status_text,
};
use crate::validate::file_text;
use crate::taskmd::store::first_with_id;
use crate::text::{
    contains_str, dec, dec_chars, join_sep, join_strings, lemma_text_lt_asym, lemma_text_lt_irrefl,
    lemma_text_lt_total, lemma_text_lt_trans, opt_text, str_eq, string_of, text_less, text_lt, texts,
    i64_text, rtrim, signed_dec, trim_end_string,
};

verus! {

/// One recommendation.
#[derive(Debug, Clone, PartialEq)]
pub struct Recommendation {
    pub rank: usize,
    pub id: String,
    pub title: String,
    pub file_path: String,
    pub status: String,
    pub priority: String,
    pub effort: String,
    pub score: i64,
    pub reasons: Vec<String>,
    pub downstream_count: usize,
    pub on_critical_path: bool,
}

/// A blocked task worth surfacing (high/critical priority, not actionable),
/// with what blocks it.
#[derive(Debug, Clone, PartialEq)]
pub struct Blocked {
    pub id: String,
    pub title: String,
    pub priority: String,
    /// Open dependencies (id + status) standing in the way.
    pub blocked_on: Vec<String>,
}

/// Options mirroring taskmd's `next` flags.
#[derive(Debug, Clone)]
pub struct Options {
    /// Max recommendations; 0 means the default of 5.
    pub limit: usize,
    /// Only `effort: small` tasks.
    pub quick_wins: bool,
    /// Only tasks on the critical path.
    pub critical: bool,
    /// Only tasks in this phase.
    pub phase: Option<String>,
    /// Sort by phase order before score.
    pub strict_phases: bool,
}

impl Default for Options {
    fn default() -> (r: Options)
        ensures
            r.limit == 0,
            !r.quick_wins,
            !r.critical,
            r.phase is None,
            !r.strict_phases,
    {
        Options { limit: 0, quick_wins: false, critical: false, phase: None, strict_phases: false }
    }
}

/// The full result: ranked recommendations plus the blocker view.
#[derive(Debug, PartialEq)]
pub struct NextReport {
    pub recommendations: Vec<Recommendation>,
    /// High-priority tasks that are not actionable, with their blockers.
    pub blocked: Vec<Blocked>,
    /// Id of the recommendation that unblocks the most downstream work, if
    /// any unblocks anything at all.
    pub suggested_unblocker: Option<String>,
}

// ---------------------------------------------------------------------------
// Actionability

pub open spec fn is_terminal_status(s: Status) -> bool {
    s == Status::Completed || s == Status::Cancelled
}

/// Explicitly `pending` or `in-progress` (a missing status does not count).
pub open spec fn explicitly_open(t: Task) -> bool {
    match t.text("status"@) {
        Some(s) => status_named(s) == Some(Status::Pending) || status_named(s) == Some(Status::InProgress),
        None => false,
    }
}

/// taskmd's actionability: explicitly open, every dependency completed, and
/// every child resolved.
pub open spec fn actionable_spec(ts: Seq<Task>, t: Task) -> bool {
    &&& explicitly_open(t)
    &&& ready_spec(ts, t.list("dependencies"@))
    &&& forall|k: int|
        0 <= k < children_spec(ts, t.id_spec()).len() ==> is_terminal_status(
            #[trigger] children_spec(ts, t.id_spec())[k].effective_status_spec(),
        )
}

fn is_actionable(task: &Task, graph: &Graph) -> (r: bool)
    ensures
        r == actionable_spec(graph.tasks_spec(), *task),
{
    let open = match task.status_raw() {
        Some(s) => match Status::parse(s.as_str()) {
            Some(Status::Pending) | Some(Status::InProgress) => true,
            _ => false,
        },
        None => false,
    };
    if !open {
        return false;
    }
    if !graph.is_ready(task) {
        return false;
    }
    let kids = graph.children(task.id().as_str());
    let ghost cs = children_spec(graph.tasks_spec(), task.id_spec());
    let mut i: usize = 0;
    while i < kids.len()
        invariant
            i <= kids.len(),
            crate::taskmd::graph::derefs(kids@) == cs,
            cs == children_spec(graph.tasks_spec(), task.id_spec()),
            forall|k: int| 0 <= k < i ==> is_terminal_status(#[trigger] cs[k].effective_status_spec()),
        decreases kids.len() - i,
    {
        assert(cs[i as int] == *kids@[i as int]);
        if !kids[i].effective_status().is_terminal() {
            return false;
        }
        i += 1;
    }
    true
}

// ---------------------------------------------------------------------------
// Depth of remaining work

/// An id whose task (first file) exists and is not resolved.
pub open spec fn open_id(ts: Seq<Task>, x: Seq<char>) -> bool {
    has_id(ts, x) && !is_terminal_status(task_of(ts, x).effective_status_spec())
}

/// A step between open tasks: `a` lists `b` as a dependency.
pub open spec fn open_step(ts: Seq<Task>, a: Seq<char>, b: Seq<char>) -> bool {
    open_id(ts, a) && open_id(ts, b) && task_of(ts, a).list("dependencies"@).contains(b)
}

pub open spec fn open_steps(ts: Seq<Task>, c: Seq<Seq<char>>) -> bool {
    forall|k: int| 0 <= k < c.len() - 1 ==> #[trigger] open_step(ts, c[k], c[k + 1])
}

/// No chain of open dependencies leads back to where it started.
pub open spec fn open_acyclic(ts: Seq<Task>) -> bool {
    forall|c: Seq<Seq<char>>| c.len() >= 1 && #[trigger] open_steps(ts, c) ==> !open_step(ts, c.last(), c[0])
}

/// The depth an id has in a depth map (first entry), 0 when it has none.
pub open spec fn depth_of(m: Seq<(Seq<char>, nat)>, x: Seq<char>) -> nat
    decreases m.len(),
{
    if m.len() == 0 {
        0
    } else if m[0].0 == x {
        m[0].1
    } else {
        depth_of(m.drop_first(), x)
    }
}

pub open spec fn has_depth(m: Seq<(Seq<char>, nat)>, x: Seq<char>) -> bool {
    exists|k: int| 0 <= k < m.len() && #[trigger] m[k].0 == x
}

/// The deepest of some dependencies.
pub open spec fn max_depth_over(m: Seq<(Seq<char>, nat)>, deps: Seq<Seq<char>>) -> nat
    decreases deps.len(),
{
    if deps.len() == 0 {
        0
    } else {
        let a = max_depth_over(m, deps.drop_last());
        let b = depth_of(m, deps.last());
        if a >= b {
            a
        } else {
            b
        }
    }
}

/// One more, stopping at the largest `usize`.
pub open spec fn sat_succ(n: nat) -> nat {
    if n < usize::MAX {
        n + 1
    } else {
        usize::MAX as nat
    }
}

pub open spec fn dmodel(v: Seq<(String, usize)>) -> Seq<(Seq<char>, nat)> {
    v.map_values(|e: (String, usize)| (e.0@, e.1 as nat))
}

pub open spec fn keys_distinct(m: Seq<(Seq<char>, nat)>) -> bool {
    forall|a: int, b: int| 0 <= a < b < m.len() ==> #[trigger] m[a].0 != #[trigger] m[b].0
}

/// Each entry is one more than its deepest dependency.
pub open spec fn entries_consistent(ts: Seq<Task>, m: Seq<(Seq<char>, nat)>) -> bool {
    forall|k: int|
        0 <= k < m.len() ==> #[trigger] m[k].1 == sat_succ(
            max_depth_over(m, task_of(ts, m[k].0).list("dependencies"@)),
        )
}

/// Every open dependency of an entry has an entry itself.
pub open spec fn entries_closed(ts: Seq<Task>, m: Seq<(Seq<char>, nat)>) -> bool {
    forall|k: int, d: Seq<char>|
        0 <= k < m.len() && open_id(ts, d) && #[trigger] task_of(ts, m[k].0).list("dependencies"@).contains(d)
            ==> has_depth(m, d)
}

/// The depth map: keyed by open ids, each once, every value at least 1;
/// every task whose first file is open has an entry; and, when the open
/// dependencies form no cycle, each entry is one more than its deepest
/// dependency (a resolved or missing dependency counting 0).
pub open spec fn depths_ok(ts: Seq<Task>, m: Seq<(Seq<char>, nat)>) -> bool {
    &&& keys_distinct(m)
    &&& forall|k: int| 0 <= k < m.len() ==> open_id(ts, #[trigger] m[k].0) && m[k].1 >= 1
    &&& forall|i: int| 0 <= i < ts.len() && open_id(ts, #[trigger] ts[i].id_spec()) ==> has_depth(m, ts[i].id_spec())
    &&& open_acyclic(ts) ==> entries_consistent(ts, m)
}

/// The state of the depth walk.
pub open spec fn memo_inv(ts: Seq<Task>, m: Seq<(Seq<char>, nat)>, visiting: Seq<Seq<char>>) -> bool {
    &&& keys_distinct(m)
    &&& forall|k: int| 0 <= k < m.len() ==> open_id(ts, #[trigger] m[k].0) && m[k].1 >= 1 && !visiting.contains(m[k].0)
    &&& open_acyclic(ts) ==> entries_consistent(ts, m) && entries_closed(ts, m)
}

proof fn lemma_depth_of(m: Seq<(Seq<char>, nat)>, x: Seq<char>)
    requires
        keys_distinct(m),
    ensures
        has_depth(m, x) ==> exists|k: int| 0 <= k < m.len() && m[k].0 == x && m[k].1 == depth_of(m, x),
        !has_depth(m, x) ==> depth_of(m, x) == 0,
    decreases m.len(),
{
    if m.len() > 0 {
        let t = m.drop_first();
        assert(keys_distinct(t)) by {
            assert forall|a: int, b: int| 0 <= a < b < t.len() implies #[trigger] t[a].0 != #[trigger] t[b].0 by {
                assert(t[a] == m[a + 1] && t[b] == m[b + 1]);
            }
        }
        lemma_depth_of(t, x);
        if m[0].0 != x {
            if has_depth(m, x) {
                let k = choose|k: int| 0 <= k < m.len() && #[trigger] m[k].0 == x;
                assert(t[k - 1] == m[k]);
                let j = choose|j: int| 0 <= j < t.len() && t[j].0 == x && t[j].1 == depth_of(t, x);
                assert(m[j + 1] == t[j]);
            } else {
                assert forall|j: int| 0 <= j < t.len() implies #[trigger] t[j].0 != x by {
                    assert(t[j] == m[j + 1]);
                }
            }
        } else {
            assert(m[0].0 == x);
        }
    }
}

/// An entry's depth is where it is listed.
proof fn lemma_depth_at(m: Seq<(Seq<char>, nat)>, k: int)
    requires
        keys_distinct(m),
        0 <= k < m.len(),
    ensures
        depth_of(m, m[k].0) == m[k].1,
{
    lemma_depth_of(m, m[k].0);
    let j = choose|j: int| 0 <= j < m.len() && m[j].0 == m[k].0 && m[j].1 == depth_of(m, m[k].0);
    if j != k {
        if j < k {
            assert(m[j].0 != m[k].0);
        } else {
            assert(m[k].0 != m[j].0);
        }
    }
}

/// Growing the map leaves the depths of earlier keys and of keys that never
/// appear alone.
proof fn lemma_depth_grow(m1: Seq<(Seq<char>, nat)>, m2: Seq<(Seq<char>, nat)>, x: Seq<char>)
    requires
        keys_distinct(m2),
        m1.len() <= m2.len(),
        m2.take(m1.len() as int) == m1,
        has_depth(m1, x) || !has_depth(m2, x),
    ensures
        depth_of(m2, x) == depth_of(m1, x),
        has_depth(m1, x) ==> has_depth(m2, x),
{
    assert(keys_distinct(m1)) by {
        assert forall|a: int, b: int| 0 <= a < b < m1.len() implies #[trigger] m1[a].0 != #[trigger] m1[b].0 by {
            assert(m1[a] == m2[a] && m1[b] == m2[b]);
        }
    }
    lemma_depth_of(m1, x);
    lemma_depth_of(m2, x);
    if has_depth(m1, x) {
        let k = choose|k: int| 0 <= k < m1.len() && m1[k].0 == x && m1[k].1 == depth_of(m1, x);
        assert(m2[k] == m1[k]);
        lemma_depth_at(m2, k);
    } else {
        assert forall|k: int| 0 <= k < m1.len() implies #[trigger] m1[k].0 != x by {
            assert(m1[k] == m2[k]);
        }
    }
}

proof fn lemma_max_grow(ts: Seq<Task>, m1: Seq<(Seq<char>, nat)>, m2: Seq<(Seq<char>, nat)>, deps: Seq<Seq<char>>)
    requires
        keys_distinct(m2),
        m1.len() <= m2.len(),
        m2.take(m1.len() as int) == m1,
        forall|d: Seq<char>| #[trigger] deps.contains(d) ==> has_depth(m1, d) || !has_depth(m2, d),
    ensures
        max_depth_over(m2, deps) == max_depth_over(m1, deps),
    decreases deps.len(),
{
    if deps.len() > 0 {
        assert forall|d: Seq<char>| #[trigger] deps.drop_last().contains(d) implies has_depth(m1, d) || !has_depth(m2, d) by {
            let j = choose|j: int| 0 <= j < deps.drop_last().len() && deps.drop_last()[j] == d;
            assert(deps[j] == d);
            assert(deps.contains(d));
        }
        lemma_max_grow(ts, m1, m2, deps.drop_last());
        assert(deps.contains(deps.last())) by {
            assert(deps[deps.len() - 1] == deps.last());
        }
        lemma_depth_grow(m1, m2, deps.last());
    }
}

/// An id on the walk while the open dependencies are acyclic cannot come
/// back.
proof fn lemma_visiting_fresh(ts: Seq<Task>, v: Seq<Seq<char>>, x: Seq<char>)
    requires
        open_acyclic(ts),
        open_steps(ts, v),
        forall|y: Seq<char>| v.contains(y) ==> open_id(ts, y),
        v.len() > 0 ==> task_of(ts, v.last()).list("dependencies"@).contains(x),
    ensures
        !v.contains(x),
{
    if v.contains(x) {
        let j = choose|j: int| 0 <= j < v.len() && v[j] == x;
        let c = v.subrange(j, v.len() as int);
        assert forall|k: int| 0 <= k < c.len() - 1 implies #[trigger] open_step(ts, c[k], c[k + 1]) by {
            let i = j + k;
            assert(open_step(ts, v[i], v[i + 1]));
        }
        assert(open_steps(ts, c));
        assert(c.last() == v.last());
        assert(v.contains(v.last())) by {
            assert(v[v.len() - 1] == v.last());
        }
        assert(open_step(ts, c.last(), c[0]));
    }
}

fn memo_get(memo: &Vec<(String, usize)>, id: &str) -> (r: Option<usize>)
    requires
        keys_distinct(dmodel(memo@)),
    ensures
        r is Some <==> has_depth(dmodel(memo@), id@),
        r matches Some(d) ==> d == depth_of(dmodel(memo@), id@),
{
    let ghost m = dmodel(memo@);
    let mut i: usize = 0;
    while i < memo.len()
        invariant
            i <= memo.len(),
            m == dmodel(memo@),
            keys_distinct(m),
            forall|j: int| 0 <= j < i ==> #[trigger] m[j].0 != id@,
        decreases memo.len() - i,
    {
        if str_eq(memo[i].0.as_str(), id) {
            proof {
                assert(m[i as int].0 == id@);
                lemma_depth_at(m, i as int);
            }
            return Some(memo[i].1);
        }
        assert(m[i as int].0 == memo@[i as int].0@);
        i += 1;
    }
    None
}

/// Depth of remaining work below `id`: a resolved or missing task counts 0;
/// otherwise 1 + the deepest dependency. An id already on the walk counts 0.
fn depth_rec(
    graph: &Graph,
    id: &str,
    memo: &mut Vec<(String, usize)>,
    visiting: &mut Vec<String>,
    Ghost(fuel): Ghost<nat>,
) -> (r: usize)
    requires
        memo_inv(graph.tasks_spec(), dmodel(old(memo)@), texts(old(visiting)@)),
        texts(old(visiting)@).no_duplicates(),
        open_steps(graph.tasks_spec(), texts(old(visiting)@)),
        forall|y: Seq<char>| texts(old(visiting)@).contains(y) ==> open_id(graph.tasks_spec(), y),
        old(visiting).len() > 0 ==> task_of(graph.tasks_spec(), texts(old(visiting)@).last()).list(
            "dependencies"@,
        ).contains(id@),
        fuel + old(visiting).len() >= crate::taskmd::graph::all_ids(graph.tasks_spec()).len(),
    ensures
        final(visiting)@ == old(visiting)@,
        old(memo).len() <= final(memo).len(),
        dmodel(final(memo)@).take(old(memo).len() as int) == dmodel(old(memo)@),
        memo_inv(graph.tasks_spec(), dmodel(final(memo)@), texts(final(visiting)@)),
        !open_id(graph.tasks_spec(), id@) ==> r == 0,
        (open_id(graph.tasks_spec(), id@) && !texts(old(visiting)@).contains(id@)) ==> has_depth(
            dmodel(final(memo)@),
            id@,
        ) && r == depth_of(dmodel(final(memo)@), id@),
    decreases fuel,
{
    let ghost ts = graph.tasks_spec();
    let ghost m0 = dmodel(memo@);
    if let Some(d) = memo_get(memo, id) {
        proof {
            assert(dmodel(memo@).take(memo.len() as int) =~= dmodel(memo@));
            let k = choose|k: int| 0 <= k < m0.len() && #[trigger] m0[k].0 == id@;
            assert(open_id(ts, m0[k].0));
        }
        return d;
    }
    if contains_str(visiting, id) {
        proof {
            assert(dmodel(memo@).take(memo.len() as int) =~= dmodel(memo@));
        }
        return 0;
    }
    let t = match graph.get(id) {
        None => {
            proof {
                assert(dmodel(memo@).take(memo.len() as int) =~= dmodel(memo@));
            }
            return 0;
        },
        Some(t) => t,
    };
    if t.effective_status().is_terminal() {
        proof {
            assert(dmodel(memo@).take(memo.len() as int) =~= dmodel(memo@));
        }
        return 0;
    }
    proof {
        assert(open_id(ts, id@));
        let u = crate::taskmd::graph::all_ids(ts);
        vstd::seq_lib::seq_to_set_is_finite(ts.map_values(|t: Task| t.id_spec()));
        let v2 = texts(visiting@).push(id@);
        assert(v2.no_duplicates()) by {
            assert forall|a: int, b: int| 0 <= a < b < v2.len() implies v2[a] != v2[b] by {
                if b == v2.len() - 1 {
                    assert(texts(visiting@)[a] == v2[a]);
                    assert(texts(visiting@).contains(v2[a]));
                } else {
                    assert(texts(visiting@)[a] == v2[a] && texts(visiting@)[b] == v2[b]);
                }
            }
        }
        assert forall|x: Seq<char>| v2.contains(x) implies u.contains(x) by {
            let j = choose|j: int| 0 <= j < v2.len() && v2[j] == x;
            if j < visiting.len() {
                assert(texts(visiting@)[j] == x);
                assert(texts(visiting@).contains(x));
                assert(open_id(ts, x));
            } else {
                assert(x == id@);
            }
            crate::taskmd::graph::lemma_has_id_in_all(ts, x);
        }
        crate::taskmd::graph::lemma_distinct_within(v2, u);
    }
    let ghost v0 = visiting@;
    let owned = id.to_owned();
    let ghost pushed = owned;
    visiting.push(owned);
    proof {
        let vv = texts(visiting@);
        assert(vv =~= texts(v0).push(id@));
        assert forall|k: int| 0 <= k < vv.len() - 1 implies #[trigger] open_step(ts, vv[k], vv[k + 1]) by {
            if k < v0.len() - 1 {
                assert(vv[k] == texts(v0)[k] && vv[k + 1] == texts(v0)[k + 1]);
                assert(open_step(ts, texts(v0)[k], texts(v0)[k + 1]));
            } else {
                assert(vv[k] == texts(v0).last());
                assert(texts(v0).contains(texts(v0).last())) by {
                    assert(texts(v0)[v0.len() - 1] == texts(v0).last());
                }
            }
        }
        assert forall|y: Seq<char>| vv.contains(y) implies open_id(ts, y) by {
            let j = choose|j: int| 0 <= j < vv.len() && vv[j] == y;
            if j < v0.len() {
                assert(texts(v0)[j] == y);
                assert(texts(v0).contains(y));
            }
        }
        assert forall|k: int| 0 <= k < m0.len() implies !vv.contains(#[trigger] m0[k].0) by {
            if vv.contains(m0[k].0) {
                let j = choose|j: int| 0 <= j < vv.len() && vv[j] == m0[k].0;
                if j < v0.len() {
                    assert(texts(v0)[j] == m0[k].0);
                    assert(texts(v0).contains(m0[k].0));
                } else {
                    assert(has_depth(m0, id@));
                }
            }
        }
    }
    let deps = t.dependencies();
    let ghost ds = texts(deps@);
    assert(ds == task_of(ts, id@).list("dependencies"@));
    let mut best: usize = 0;
    let mut k: usize = 0;
    while k < deps.len()
        invariant
            ts == graph.tasks_spec(),
            visiting@ == v0.push(pushed),
            pushed@ == id@,
            texts(visiting@) == texts(v0).push(id@),
            texts(visiting@).no_duplicates(),
            open_steps(ts, texts(visiting@)),
            forall|y: Seq<char>| texts(visiting@).contains(y) ==> open_id(ts, y),
            open_id(ts, id@),
            fuel >= 1,
            (fuel - 1) + visiting.len() >= crate::taskmd::graph::all_ids(ts).len(),
            ds == texts(deps@),
            ds == task_of(ts, id@).list("dependencies"@),
            k <= deps.len(),
            m0.len() <= memo.len(),
            dmodel(memo@).take(m0.len() as int) == m0,
            memo_inv(ts, dmodel(memo@), texts(visiting@)),
            open_acyclic(ts) ==> best as nat == max_depth_over(dmodel(memo@), ds.take(k as int)),
            open_acyclic(ts) ==> forall|d: Seq<char>|
                #[trigger] ds.take(k as int).contains(d) && open_id(ts, d) ==> has_depth(dmodel(memo@), d),
        decreases deps.len() - k,
    {
        let ghost m1 = dmodel(memo@);
        proof {
            assert(ds[k as int] == deps@[k as int]@);
            assert(texts(visiting@).last() == id@);
            assert(ds.contains(ds[k as int]));
        }
        let d = depth_rec(graph, deps[k].as_str(), memo, visiting, Ghost((fuel - 1) as nat));
        proof {
            let m2 = dmodel(memo@);
            assert(m2.take(m0.len() as int) =~= m0) by {
                assert forall|j: int| 0 <= j < m0.len() implies m2[j] == m0[j] by {
                    assert(m1[j] == m0[j]);
                    assert(m2.take(m1.len() as int)[j] == m2[j]);
                }
            }
            if open_acyclic(ts) {
                let dk = ds[k as int];
                assert(ds.take(k + 1).drop_last() =~= ds.take(k as int));
                assert(ds.take(k + 1).last() == dk);
                lemma_visiting_fresh(ts, texts(v0).push(id@), dk);
                assert forall|x: Seq<char>| #[trigger] ds.take(k as int).contains(x) implies has_depth(m1, x) || !has_depth(m2, x) by {
                    if has_depth(m2, x) && !has_depth(m1, x) {
                        let j = choose|j: int| 0 <= j < m2.len() && #[trigger] m2[j].0 == x;
                        assert(open_id(ts, m2[j].0));
                    }
                }
                lemma_max_grow(ts, m1, m2, ds.take(k as int));
                assert forall|x: Seq<char>| #[trigger] ds.take(k + 1).contains(x) && open_id(ts, x) implies has_depth(m2, x) by {
                    let j = choose|j: int| 0 <= j < ds.take(k + 1).len() && #[trigger] ds.take(k + 1)[j] == x;
                    if j < k {
                        assert(ds.take(k as int)[j] == x);
                        assert(ds.take(k as int).contains(x));
                        lemma_depth_grow(m1, m2, x);
                    }
                }
                if !open_id(ts, dk) {
                    assert(!has_depth(m2, dk)) by {
                        if has_depth(m2, dk) {
                            let j = choose|j: int| 0 <= j < m2.len() && #[trigger] m2[j].0 == dk;
                            assert(open_id(ts, m2[j].0));
                        }
                    }
                    lemma_depth_of(m2, dk);
                }
            }
        }
        if d > best {
            best = d;
        }
        k += 1;
    }
    let ghost m3 = dmodel(memo@);
    visiting.pop();
    proof {
        assert(visiting@ =~= v0);
        assert(ds.take(deps.len() as int) =~= ds);
    }
    let v = best.saturating_add(1);
    let ghost before = memo@;
    memo.push((id.to_owned(), v));
    proof {
        let m4 = dmodel(memo@);
        assert(m4 =~= m3.push((id@, v as nat)));
        assert(m4.take(m3.len() as int) =~= m3);
        assert(!has_depth(m3, id@)) by {
            if has_depth(m3, id@) {
                let j = choose|j: int| 0 <= j < m3.len() && #[trigger] m3[j].0 == id@;
                assert(!texts(visiting@).push(id@).contains(m3[j].0)) by {
                    assert(texts(v0).push(id@) == texts(v0).push(id@));
                }
                assert(texts(v0).push(id@)[v0.len() as int] == id@);
            }
        }
        assert(keys_distinct(m4)) by {
            assert forall|a: int, b: int| 0 <= a < b < m4.len() implies #[trigger] m4[a].0 != #[trigger] m4[b].0 by {
                if b == m4.len() - 1 {
                    assert(m4[a] == m3[a]);
                } else {
                    assert(m4[a] == m3[a] && m4[b] == m3[b]);
                }
            }
        }
        assert(m4.take(m0.len() as int) =~= m0) by {
            assert forall|j: int| 0 <= j < m0.len() implies m4[j] == m0[j] by {
                assert(m3.take(m0.len() as int)[j] == m3[j]);
            }
        }
        assert(has_depth(m4, id@)) by {
            assert(m4[m4.len() - 1].0 == id@);
        }
        lemma_depth_at(m4, m4.len() - 1);
        assert forall|k: int| 0 <= k < m4.len() implies open_id(ts, #[trigger] m4[k].0) && m4[k].1 >= 1
            && !texts(visiting@).contains(m4[k].0) by {
            if k < m3.len() {
                assert(m4[k] == m3[k]);
                if texts(visiting@).contains(m3[k].0) {
                    let j = choose|j: int| 0 <= j < texts(visiting@).len() && texts(visiting@)[j] == m3[k].0;
                    assert(texts(v0).push(id@)[j] == m3[k].0);
                }
            } else {
                if texts(visiting@).contains(id@) {
                    let j = choose|j: int| 0 <= j < texts(visiting@).len() && texts(visiting@)[j] == id@;
                    assert(texts(v0).push(id@)[j] == id@);
                    assert(texts(v0).push(id@)[v0.len() as int] == id@);
                }
            }
        }
        if open_acyclic(ts) {
            assert forall|x: Seq<char>| #[trigger] ds.contains(x) implies has_depth(m3, x) || !has_depth(m4, x) by {
                if x == id@ && ds.contains(x) {
                    assert(open_steps(ts, seq![id@]));
                    assert(open_step(ts, id@, id@));
                }
                if has_depth(m4, x) && !has_depth(m3, x) {
                    let j = choose|j: int| 0 <= j < m4.len() && #[trigger] m4[j].0 == x;
                    if j < m3.len() {
                        assert(m4[j] == m3[j]);
                    }
                }
            }
            lemma_max_grow(ts, m3, m4, ds);
            assert(entries_consistent(ts, m4)) by {
                assert forall|k: int| 0 <= k < m4.len() implies #[trigger] m4[k].1 == sat_succ(
                    max_depth_over(m4, task_of(ts, m4[k].0).list("dependencies"@)),
                ) by {
                    if k < m3.len() {
                        assert(m4[k] == m3[k]);
                        let dk = task_of(ts, m3[k].0).list("dependencies"@);
                        assert forall|x: Seq<char>| #[trigger] dk.contains(x) implies has_depth(m3, x) || !has_depth(m4, x) by {
                            if open_id(ts, x) {
                                assert(has_depth(m3, x));
                            } else if has_depth(m4, x) {
                                let j = choose|j: int| 0 <= j < m4.len() && #[trigger] m4[j].0 == x;
                            }
                        }
                        lemma_max_grow(ts, m3, m4, dk);
                    }
                }
            }
            assert(entries_closed(ts, m4)) by {
                assert forall|k: int, d: Seq<char>|
                    0 <= k < m4.len() && open_id(ts, d) && #[trigger] task_of(ts, m4[k].0).list("dependencies"@).contains(d)
                    implies has_depth(m4, d) by {
                    if k < m3.len() {
                        assert(m4[k] == m3[k]);
                        assert(has_depth(m3, d));
                        lemma_depth_grow(m3, m4, d);
                    } else {
                        assert(ds.contains(d));
                        assert(ds.take(ds.len() as int) == ds);
                        assert(has_depth(m3, d));
                        lemma_depth_grow(m3, m4, d);
                    }
                }
            }
        }
    }
    v
}

/// The depth map over all tasks, visited in order with one shared memo.
fn depth_map(tasks: &[Task], graph: &Graph) -> (r: Vec<(String, usize)>)
    requires
        graph.tasks_spec() == tasks@,
    ensures
        depths_ok(tasks@, dmodel(r@)),
{
    let ghost ts = tasks@;
    let mut memo: Vec<(String, usize)> = Vec::new();
    let mut i: usize = 0;
    proof {
        assert(dmodel(memo@) =~= Seq::<(Seq<char>, nat)>::empty());
    }
    while i < tasks.len()
        invariant
            ts == tasks@,
            graph.tasks_spec() == ts,
            i <= tasks.len(),
            memo_inv(ts, dmodel(memo@), Seq::empty()),
            forall|j: int| 0 <= j < i && open_id(ts, #[trigger] ts[j].id_spec()) ==> has_depth(dmodel(memo@), ts[j].id_spec()),
        decreases tasks.len() - i,
    {
        let id = tasks[i].id();
        let mut visiting: Vec<String> = Vec::new();
        let ghost m1 = dmodel(memo@);
        proof {
            assert(texts(visiting@) =~= Seq::<Seq<char>>::empty());
        }
        let _ = depth_rec(graph, id.as_str(), &mut memo, &mut visiting, Ghost(crate::taskmd::graph::all_ids(ts).len()));
        proof {
            assert(texts(visiting@) =~= Seq::<Seq<char>>::empty());
            let m2 = dmodel(memo@);
            assert forall|j: int| 0 <= j < i + 1 && open_id(ts, #[trigger] ts[j].id_spec()) implies has_depth(m2, ts[j].id_spec()) by {
                if j < i {
                    lemma_depth_grow(m1, m2, ts[j].id_spec());
                }
            }
        }
        i += 1;
    }
    memo
}

// ---------------------------------------------------------------------------
// Critical path

/// The largest depth in the map (0 when empty).
pub open spec fn max_value(m: Seq<(Seq<char>, nat)>) -> nat
    decreases m.len(),
{
    if m.len() == 0 {
        0
    } else {
        let a = max_value(m.drop_last());
        if a >= m.last().1 {
            a
        } else {
            m.last().1
        }
    }
}

/// One step down the critical path: a dependency exactly one level
/// shallower.
pub open spec fn crit_step(ts: Seq<Task>, m: Seq<(Seq<char>, nat)>, a: Seq<char>, b: Seq<char>) -> bool {
    has_id(ts, a) && task_of(ts, a).list("dependencies"@).contains(b) && has_depth(m, b) && depth_of(m, b)
        + 1 == depth_of(m, a)
}

/// A chain down the critical path from an entry of the largest depth.
pub open spec fn crit_chain(ts: Seq<Task>, m: Seq<(Seq<char>, nat)>, c: Seq<Seq<char>>) -> bool {
    &&& c.len() >= 1
    &&& has_depth(m, c[0])
    &&& depth_of(m, c[0]) == max_value(m)
    &&& forall|k: int| 0 <= k < c.len() - 1 ==> #[trigger] crit_step(ts, m, c[k], c[k + 1])
}

/// On the critical path: everything at the largest depth, plus the
/// dependency chains that carry that depth down level by level.
pub open spec fn on_path_spec(ts: Seq<Task>, m: Seq<(Seq<char>, nat)>, x: Seq<char>) -> bool {
    exists|c: Seq<Seq<char>>| #[trigger] crit_chain(ts, m, c) && c.last() == x
}

/// Every critical step from `x` lands in `on`.
pub open spec fn step_closed_at(ts: Seq<Task>, m: Seq<(Seq<char>, nat)>, on: Seq<Seq<char>>, x: Seq<char>) -> bool {
    forall|b: Seq<char>| #[trigger] crit_step(ts, m, x, b) ==> on.contains(b)
}

proof fn lemma_max_value(m: Seq<(Seq<char>, nat)>)
    ensures
        forall|k: int| 0 <= k < m.len() ==> #[trigger] m[k].1 <= max_value(m),
        m.len() > 0 ==> exists|k: int| 0 <= k < m.len() && m[k].1 == max_value(m),
    decreases m.len(),
{
    if m.len() > 0 {
        lemma_max_value(m.drop_last());
        assert forall|k: int| 0 <= k < m.len() implies #[trigger] m[k].1 <= max_value(m) by {
            if k < m.len() - 1 {
                assert(m[k] == m.drop_last()[k]);
            }
        }
        if m.drop_last().len() > 0 && max_value(m.drop_last()) >= m.last().1 {
            let k = choose|k: int| 0 <= k < m.drop_last().len() && m.drop_last()[k].1 == max_value(m.drop_last());
            assert(m[k] == m.drop_last()[k]);
        } else {
            assert(m[m.len() - 1] == m.last());
        }
    }
}

/// Everything a closed set holding a chain's start holds the chain's end.
proof fn lemma_chain_covered(ts: Seq<Task>, m: Seq<(Seq<char>, nat)>, on: Seq<Seq<char>>, c: Seq<Seq<char>>, k: int)
    requires
        crit_chain(ts, m, c),
        on.contains(c[0]),
        forall|x: Seq<char>| on.contains(x) ==> step_closed_at(ts, m, on, x),
        0 <= k < c.len(),
    ensures
        on.contains(c[k]),
    decreases k,
{
    if k > 0 {
        lemma_chain_covered(ts, m, on, c, k - 1);
        let j = k - 1;
        assert(crit_step(ts, m, c[j], c[j + 1]));
        assert(step_closed_at(ts, m, on, c[j]));
    }
}

proof fn lemma_contains_push(v: Seq<Seq<char>>, x: Seq<char>, y: Seq<char>)
    ensures
        v.push(x).contains(y) <==> (v.contains(y) || y == x),
{
    if v.push(x).contains(y) && y != x {
        let j = choose|j: int| 0 <= j < v.push(x).len() && v.push(x)[j] == y;
        assert(v[j] == y);
    }
    if v.contains(y) {
        let j = choose|j: int| 0 <= j < v.len() && v[j] == y;
        assert(v.push(x)[j] == y);
    }
    if y == x {
        assert(v.push(x)[v.len() as int] == x);
    }
}

/// Mark the dependencies that carry `id`'s depth one level down, and theirs,
/// recursively.
fn mark_chain(
    graph: &Graph,
    depths: &Vec<(String, usize)>,
    id: &str,
    target: usize,
    on: &mut Vec<String>,
    Ghost(stack): Ghost<Seq<Seq<char>>>,
)
    requires
        keys_distinct(dmodel(depths@)),
        forall|k: int| 0 <= k < depths.len() ==> open_id(graph.tasks_spec(), #[trigger] dmodel(depths@)[k].0),
        has_depth(dmodel(depths@), id@),
        target == depth_of(dmodel(depths@), id@),
        texts(old(on)@).contains(id@),
        forall|x: Seq<char>| #[trigger] texts(old(on)@).contains(x) ==> on_path_spec(graph.tasks_spec(), dmodel(depths@), x),
        forall|x: Seq<char>| #[trigger] texts(old(on)@).contains(x) ==> step_closed_at(graph.tasks_spec(), dmodel(depths@), texts(old(on)@), x)
            || stack.contains(x) || x == id@,
    ensures
        forall|x: Seq<char>| #[trigger] texts(old(on)@).contains(x) ==> texts(final(on)@).contains(x),
        forall|x: Seq<char>| #[trigger] texts(final(on)@).contains(x) ==> on_path_spec(graph.tasks_spec(), dmodel(depths@), x),
        forall|x: Seq<char>| #[trigger] texts(final(on)@).contains(x) ==> step_closed_at(graph.tasks_spec(), dmodel(depths@), texts(final(on)@), x)
            || stack.contains(x),
    decreases target,
{
    let ghost ts = graph.tasks_spec();
    let ghost m = dmodel(depths@);
    proof {
        let k = choose|k: int| 0 <= k < m.len() && #[trigger] m[k].0 == id@;
        assert(open_id(ts, m[k].0));
    }
    let t = graph.get(id).unwrap();
    let deps = t.dependencies();
    let ghost ds = texts(deps@);
    let ghost on0 = texts(on@);
    let mut k: usize = 0;
    while k < deps.len()
        invariant
            ts == graph.tasks_spec(),
            m == dmodel(depths@),
            keys_distinct(m),
            forall|k: int| 0 <= k < depths.len() ==> open_id(ts, #[trigger] m[k].0),
            has_id(ts, id@),
            has_depth(m, id@),
            target == depth_of(m, id@),
            ds == texts(deps@),
            ds == task_of(ts, id@).list("dependencies"@),
            k <= deps.len(),
            forall|x: Seq<char>| #[trigger] on0.contains(x) ==> texts(on@).contains(x),
            texts(on@).contains(id@),
            forall|x: Seq<char>| #[trigger] texts(on@).contains(x) ==> on_path_spec(ts, m, x),
            forall|x: Seq<char>| #[trigger] texts(on@).contains(x) ==> step_closed_at(ts, m, texts(on@), x)
                || stack.contains(x) || x == id@,
            forall|j: int| 0 <= j < k && #[trigger] crit_step(ts, m, id@, ds[j]) ==> texts(on@).contains(ds[j]),
        decreases deps.len() - k,
    {
        let dep = deps[k].as_str();
        proof {
            assert(ds[k as int] == dep@);
            assert(ds.contains(dep@));
        }
        let hit = memo_get(depths, dep);
        let qualifies = match hit {
            Some(d) => target >= 1 && d == target - 1,
            None => false,
        };
        proof {
            assert(qualifies == crit_step(ts, m, id@, dep@));
        }
        if qualifies && !contains_str(on, dep) {
            let ghost on1 = texts(on@);
            proof {
                let c = choose|c: Seq<Seq<char>>| #[trigger] crit_chain(ts, m, c) && c.last() == id@;
                let c2 = c.push(dep@);
                assert forall|i: int| 0 <= i < c2.len() - 1 implies #[trigger] crit_step(ts, m, c2[i], c2[i + 1]) by {
                    if i < c.len() - 1 {
                        assert(c2[i] == c[i] && c2[i + 1] == c[i + 1]);
                        assert(crit_step(ts, m, c[i], c[i + 1]));
                    } else {
                        assert(c2[i] == id@ && c2[i + 1] == dep@);
                    }
                }
                assert(crit_chain(ts, m, c2));
                assert(on_path_spec(ts, m, dep@));
            }
            on.push(dep.to_owned());
            proof {
                let on2 = texts(on@);
                assert(on2 =~= on1.push(dep@));
                assert forall|x: Seq<char>| #[trigger] on2.contains(x) implies on_path_spec(ts, m, x) by {
                    lemma_contains_push(on1, dep@, x);
                }
                assert forall|x: Seq<char>| #[trigger] on2.contains(x) implies step_closed_at(ts, m, on2, x)
                    || stack.push(id@).contains(x) || x == dep@ by {
                    lemma_contains_push(on1, dep@, x);
                    lemma_contains_push(stack, id@, x);
                    if on1.contains(x) && step_closed_at(ts, m, on1, x) {
                        assert forall|b: Seq<char>| #[trigger] crit_step(ts, m, x, b) implies on2.contains(b) by {
                            lemma_contains_push(on1, dep@, b);
                        }
                    }
                }
                assert(on2.contains(dep@)) by {
                    lemma_contains_push(on1, dep@, dep@);
                }
                assert forall|x: Seq<char>| #[trigger] on0.contains(x) implies on2.contains(x) by {
                    lemma_contains_push(on1, dep@, x);
                }
                assert(depth_of(m, dep@) == (target - 1) as nat);
            }
            let ghost on_before = texts(on@);
            mark_chain(graph, depths, dep, target - 1, on, Ghost(stack.push(id@)));
            proof {
                let on3 = texts(on@);
                assert(on_before.contains(id@)) by {
                    lemma_contains_push(on1, dep@, id@);
                }
                assert(on3.contains(id@));
                assert forall|x: Seq<char>| #[trigger] on3.contains(x) implies step_closed_at(ts, m, on3, x)
                    || stack.contains(x) || x == id@ by {
                    lemma_contains_push(stack, id@, x);
                }
                assert forall|j: int| 0 <= j < k + 1 && #[trigger] crit_step(ts, m, id@, ds[j]) implies on3.contains(ds[j]) by {
                    if j < k {
                        assert(on_before.contains(ds[j])) by {
                            lemma_contains_push(on1, dep@, ds[j]);
                        }
                    } else {
                        assert(on_before.contains(dep@)) by {
                            lemma_contains_push(on1, dep@, dep@);
                        }
                    }
                }
            }
        } else {
            proof {
                assert forall|j: int| 0 <= j < k + 1 && #[trigger] crit_step(ts, m, id@, ds[j]) implies texts(on@).contains(ds[j]) by {
                    if j == k {
                        assert(ds[j] == dep@);
                    }
                }
            }
        }
        k += 1;
    }
    proof {
        let on4 = texts(on@);
        assert(step_closed_at(ts, m, on4, id@)) by {
            assert forall|b: Seq<char>| #[trigger] crit_step(ts, m, id@, b) implies on4.contains(b) by {
                let j = choose|j: int| 0 <= j < ds.len() && ds[j] == b;
                assert(crit_step(ts, m, id@, ds[j]));
            }
        }
    }
}

/// The ids on the critical path.
fn critical_path(graph: &Graph, depths: &Vec<(String, usize)>) -> (r: Vec<String>)
    requires
        depths_ok(graph.tasks_spec(), dmodel(depths@)),
    ensures
        forall|x: Seq<char>| #[trigger] texts(r@).contains(x) <==> on_path_spec(graph.tasks_spec(), dmodel(depths@), x),
{
    let ghost ts = graph.tasks_spec();
    let ghost m = dmodel(depths@);
    let mut max: usize = 0;
    let mut i: usize = 0;
    while i < depths.len()
        invariant
            i <= depths.len(),
            m == dmodel(depths@),
            max as nat == max_value(m.take(i as int)),
        decreases depths.len() - i,
    {
        assert(m.take(i + 1).drop_last() =~= m.take(i as int));
        assert(m.take(i + 1).last() == m[i as int]);
        if depths[i].1 > max {
            max = depths[i].1;
        }
        i += 1;
    }
    assert(m.take(depths.len() as int) =~= m);
    proof {
        lemma_max_value(m);
    }
    let mut on: Vec<String> = Vec::new();
    proof {
        assert(texts(on@) =~= Seq::<Seq<char>>::empty());
    }
    let mut k: usize = 0;
    while k < depths.len()
        invariant
            ts == graph.tasks_spec(),
            m == dmodel(depths@),
            depths_ok(ts, m),
            max as nat == max_value(m),
            k <= depths.len(),
            forall|x: Seq<char>| #[trigger] texts(on@).contains(x) ==> on_path_spec(ts, m, x),
            forall|x: Seq<char>| #[trigger] texts(on@).contains(x) ==> step_closed_at(ts, m, texts(on@), x),
            forall|j: int| 0 <= j < k && #[trigger] m[j].1 == max_value(m) ==> texts(on@).contains(m[j].0),
        decreases depths.len() - k,
    {
        assert(m[k as int] == (depths@[k as int].0@, depths@[k as int].1 as nat));
        if depths[k].1 == max {
            let id = depths[k].0.as_str();
            proof {
                lemma_depth_at(m, k as int);
                assert(has_depth(m, id@)) by {
                    assert(m[k as int].0 == id@);
                }
                let c = seq![id@];
                assert(crit_chain(ts, m, c));
                assert(on_path_spec(ts, m, id@));
            }
            let ghost on1 = texts(on@);
            if !contains_str(&on, id) {
                on.push(id.to_owned());
                proof {
                    let on2 = texts(on@);
                    assert(on2 =~= on1.push(id@));
                    assert forall|x: Seq<char>| #[trigger] on2.contains(x) implies on_path_spec(ts, m, x) by {
                        lemma_contains_push(on1, id@, x);
                    }
                    assert forall|x: Seq<char>| #[trigger] on2.contains(x) implies step_closed_at(ts, m, on2, x)
                        || Seq::<Seq<char>>::empty().contains(x) || x == id@ by {
                        lemma_contains_push(on1, id@, x);
                        if on1.contains(x) {
                            assert forall|b: Seq<char>| #[trigger] crit_step(ts, m, x, b) implies on2.contains(b) by {
                                lemma_contains_push(on1, id@, b);
                            }
                        }
                    }
                    assert(on2.contains(id@)) by {
                        lemma_contains_push(on1, id@, id@);
                    }
                }
            }
            let ghost on_mid = texts(on@);
            mark_chain(graph, depths, id, depths[k].1, &mut on, Ghost(Seq::empty()));
            proof {
                assert forall|j: int| 0 <= j < k + 1 && #[trigger] m[j].1 == max_value(m) implies texts(on@).contains(m[j].0) by {
                    if j < k {
                        assert(on1.contains(m[j].0));
                        lemma_contains_push(on1, id@, m[j].0);
                        assert(on_mid.contains(m[j].0));
                    } else {
                        assert(on_mid.contains(id@)) by {
                            lemma_contains_push(on1, id@, id@);
                        }
                    }
                }
            }
        }
        k += 1;
    }
    proof {
        assert forall|x: Seq<char>| on_path_spec(ts, m, x) implies #[trigger] texts(on@).contains(x) by {
            let c = choose|c: Seq<Seq<char>>| #[trigger] crit_chain(ts, m, c) && c.last() == x;
            lemma_depth_of(m, c[0]);
            let j = choose|j: int| 0 <= j < m.len() && m[j].0 == c[0] && m[j].1 == depth_of(m, c[0]);
            assert(texts(on@).contains(m[j].0));
            lemma_chain_covered(ts, m, texts(on@), c, c.len() - 1);
        }
    }
    on
}

// ---------------------------------------------------------------------------
// Downstream work and scores

/// The ids that transitively depend on `a`, `a` itself excluded.
pub open spec fn down_set(ts: Seq<Task>, a: Seq<char>) -> Set<Seq<char>> {
    Set::new(|x: Seq<char>| reaches(ts, a, x) && x != a)
}

/// How many tasks `a` transitively unblocks.
pub open spec fn down_count(ts: Seq<Task>, a: Seq<char>) -> nat {
    down_set(ts, a).len()
}

/// taskmd's weight of a priority (a missing one weighs like `low`).
pub open spec fn weight_of(p: Option<Priority>) -> int {
    match p {
        Some(Priority::Critical) => 4,
        Some(Priority::High) => 3,
        Some(Priority::Medium) => 2,
        _ => 1,
    }
}

/// The bonus scale, in quarters, from the highest priority found
/// downstream: critical/high x1, medium x1/2, anything else x1/4.
pub open spec fn down_quarters(ts: Seq<Task>, a: Seq<char>) -> int {
    if exists|x: Seq<char>| #[trigger] down_set(ts, a).contains(x) && has_id(ts, x) && weight_of(task_of(ts, x).priority_spec()) >= 3 {
        4
    } else if exists|x: Seq<char>| #[trigger] down_set(ts, a).contains(x) && has_id(ts, x) && weight_of(task_of(ts, x).priority_spec()) == 2 {
        2
    } else {
        1
    }
}

pub open spec fn base_points(p: Option<Priority>) -> int {
    match p {
        Some(Priority::Critical) => 40,
        Some(Priority::High) => 30,
        Some(Priority::Medium) => 20,
        _ => 10,
    }
}

pub open spec fn base_reasons(p: Option<Priority>) -> Seq<Seq<char>> {
    match p {
        Some(Priority::Critical) => seq!["critical priority"@],
        Some(Priority::High) => seq!["high priority"@],
        _ => Seq::empty(),
    }
}

/// 3 per unblocked task, at most 15.
pub open spec fn capped_downstream(count: nat) -> int {
    if count >= 5 {
        15
    } else {
        (3 * count) as int
    }
}

pub open spec fn unblock_reasons(count: nat) -> Seq<Seq<char>> {
    if count > 0 {
        seq!["unblocks "@ + dec(count) + if count == 1 {
            " task"@
        } else {
            " tasks"@
        }]
    } else {
        Seq::empty()
    }
}

pub open spec fn effort_of(t: Task) -> Option<Effort> {
    crate::query::effort_of(t)
}

pub open spec fn effort_points(e: Option<Effort>) -> int {
    match e {
        Some(Effort::Small) => 5,
        Some(Effort::Medium) => 2,
        _ => 0,
    }
}

pub open spec fn effort_reasons(e: Option<Effort>) -> Seq<Seq<char>> {
    match e {
        Some(Effort::Small) => seq!["quick win"@],
        _ => Seq::empty(),
    }
}

/// First position of `x` in `order`.
pub open spec fn position_in(order: Seq<Seq<char>>, x: Seq<char>) -> Option<int>
    decreases order.len(),
{
    if order.len() == 0 {
        None
    } else if order[0] == x {
        Some(0)
    } else {
        match position_in(order.drop_first(), x) {
            Some(i) => Some(i + 1),
            None => None,
        }
    }
}

/// 25 - 5 x the phase's index in the configured order, when positive.
pub open spec fn phase_points(t: Task, order: Seq<Seq<char>>) -> int {
    match t.text("phase"@) {
        Some(ph) => match position_in(order, ph) {
            Some(i) => if 25 - 5 * i > 0 {
                25 - 5 * i
            } else {
                0
            },
            None => 0,
        },
        None => 0,
    }
}

pub open spec fn phase_reasons(t: Task, order: Seq<Seq<char>>) -> Seq<Seq<char>> {
    match t.text("phase"@) {
        Some(ph) => if phase_points(t, order) > 0 {
            seq!["phase "@ + ph]
        } else {
            Seq::empty()
        },
        None => Seq::empty(),
    }
}

/// A task's score, given whether it is on the critical path, how many tasks
/// it unblocks, and the bonus scale in quarters.
pub open spec fn score_spec(t: Task, on: bool, count: nat, q: int, order: Seq<Seq<char>>) -> int {
    base_points(t.priority_spec()) + (if on {
        (15 * q) / 4
    } else {
        0
    }) + (capped_downstream(count) * q) / 4 + effort_points(effort_of(t)) + phase_points(t, order)
}

/// The reasons behind a score, in order.
pub open spec fn reasons_spec(t: Task, on: bool, count: nat, order: Seq<Seq<char>>) -> Seq<Seq<char>> {
    base_reasons(t.priority_spec()) + (if on {
        seq!["on critical path"@]
    } else {
        Seq::empty()
    }) + unblock_reasons(count) + effort_reasons(effort_of(t)) + phase_reasons(t, order)
}

/// What a task unblocks: how many tasks, and the bonus scale in quarters.
fn downstream_info(graph: &Graph, id: &str) -> (r: (usize, i64))
    ensures
        r.0 as nat == down_count(graph.tasks_spec(), id@),
        r.1 as int == down_quarters(graph.tasks_spec(), id@),
{
    let ghost ts = graph.tasks_spec();
    let ids = graph.downstream_ids(id);
    proof {
        assert forall|b: Seq<char>| texts(ids@).contains(b) <==> #[trigger] down_set(ts, id@).contains(b) by {
            crate::taskmd::graph::law_downstream_exact(ts, id@, texts(ids@), b);
        }
        assert(texts(ids@).to_set() =~= down_set(ts, id@));
        texts(ids@).unique_seq_to_set();
    }
    let mut best: i64 = 0;
    let mut i: usize = 0;
    while i < ids.len()
        invariant
            i <= ids.len(),
            ts == graph.tasks_spec(),
            0 <= best <= 4,
            forall|j: int| 0 <= j < i && has_id(ts, #[trigger] texts(ids@)[j]) ==> weight_of(task_of(ts, texts(ids@)[j]).priority_spec()) <= best,
            best > 0 ==> exists|j: int| 0 <= j < i && has_id(ts, #[trigger] texts(ids@)[j]) && weight_of(task_of(ts, texts(ids@)[j]).priority_spec()) == best,
        decreases ids.len() - i,
    {
        assert(texts(ids@)[i as int] == ids@[i as int]@);
        match graph.get(ids[i].as_str()) {
            Some(t) => {
                let w: i64 = match t.priority() {
                    Some(Priority::Critical) => 4,
                    Some(Priority::High) => 3,
                    Some(Priority::Medium) => 2,
                    _ => 1,
                };
                if w > best {
                    best = w;
                }
            },
            None => {},
        }
        i += 1;
    }
    let q: i64 = if best >= 3 {
        4
    } else if best == 2 {
        2
    } else {
        1
    };
    proof {
        let ds = down_set(ts, id@);
        if best >= 3 {
            let j = choose|j: int| 0 <= j < ids.len() && has_id(ts, #[trigger] texts(ids@)[j]) && weight_of(task_of(ts, texts(ids@)[j]).priority_spec()) == best;
            assert(texts(ids@).contains(texts(ids@)[j]));
            assert(ds.contains(texts(ids@)[j]));
        } else {
            assert(!exists|x: Seq<char>| #[trigger] ds.contains(x) && has_id(ts, x) && weight_of(task_of(ts, x).priority_spec()) >= 3) by {
                assert forall|x: Seq<char>| #[trigger] ds.contains(x) && has_id(ts, x) implies weight_of(task_of(ts, x).priority_spec()) < 3 by {
                    assert(texts(ids@).contains(x));
                    let j = choose|j: int| 0 <= j < texts(ids@).len() && texts(ids@)[j] == x;
                }
            }
            if best == 2 {
                let j = choose|j: int| 0 <= j < ids.len() && has_id(ts, #[trigger] texts(ids@)[j]) && weight_of(task_of(ts, texts(ids@)[j]).priority_spec()) == best;
                assert(texts(ids@).contains(texts(ids@)[j]));
                assert(ds.contains(texts(ids@)[j]));
            } else {
                assert(!exists|x: Seq<char>| #[trigger] ds.contains(x) && has_id(ts, x) && weight_of(task_of(ts, x).priority_spec()) == 2) by {
                    assert forall|x: Seq<char>| #[trigger] ds.contains(x) && has_id(ts, x) implies weight_of(task_of(ts, x).priority_spec()) != 2 by {
                        assert(texts(ids@).contains(x));
                        let j = choose|j: int| 0 <= j < texts(ids@).len() && texts(ids@)[j] == x;
                    }
                }
            }
        }
    }
    (ids.len(), q)
}

/// First position of `x` in `order`.
fn position_of_text(order: &[String], x: &str) -> (r: Option<usize>)
    ensures
        match r {
            Some(k) => position_in(texts(order@), x@) == Some(k as int),
            None => position_in(texts(order@), x@) is None,
        },
{
    let mut i: usize = 0;
    assert(texts(order@).skip(0) =~= texts(order@));
    while i < order.len()
        invariant
            i <= order.len(),
            position_in(texts(order@), x@) == (match position_in(texts(order@).skip(i as int), x@) {
                Some(k) => Some(k + i),
                None => None,
            }),
        decreases order.len() - i,
    {
        assert(texts(order@).skip(i as int).drop_first() =~= texts(order@).skip(i + 1));
        assert(texts(order@).skip(i as int)[0] == order@[i as int]@);
        if str_eq(order[i].as_str(), x) {
            return Some(i);
        }
        i += 1;
    }
    None
}

fn push_text(v: &mut Vec<String>, s: String)
    ensures
        texts(final(v)@) == texts(old(v)@).push(s@),
{
    let ghost before = v@;
    v.push(s);
    assert(texts(v@) =~= texts(before).push(s@));
}

fn number_string(n: usize) -> (r: String)
    ensures
        r@ == dec(n as nat),
{
    let c = dec_chars(n as u64);
    string_of(c.as_slice())
}

/// The phase bonus and its reason.
fn phase_part(task: &Task, phase_order: &[String]) -> (r: (i64, Option<String>))
    ensures
        0 <= r.0 <= 25,
        r.0 as int == phase_points(*task, texts(phase_order@)),
        (match r.1 {
            Some(x) => seq![x@],
            None => Seq::<Seq<char>>::empty(),
        }) == phase_reasons(*task, texts(phase_order@)),
{
    if let Some(phase) = task.phase() {
        if let Some(idx) = position_of_text(phase_order, phase.as_str()) {
            proof {
                assert(task.text("phase"@) == Some(phase@));
                assert(position_in(texts(phase_order@), phase@) == Some(idx as int));
            }
            if idx < 5 {
                let bonus: i64 = 25 - (idx as i64) * 5;
                let mut m = "phase ".to_owned();
                m.append(phase.as_str());
                assert(phase_points(*task, texts(phase_order@)) == bonus as int);
                assert(phase_reasons(*task, texts(phase_order@)) == seq![m@]);
                return (bonus, Some(m));
            }
        }
    }
    (0, None)
}

/// The downstream reason, if the task unblocks anything.
fn unblock_part(count: usize) -> (r: Option<String>)
    ensures
        (match r {
            Some(x) => seq![x@],
            None => Seq::<Seq<char>>::empty(),
        }) == unblock_reasons(count as nat),
{
    if count > 0 {
        let mut m = "unblocks ".to_owned();
        m.append(number_string(count).as_str());
        if count == 1 {
            m.append(" task");
        } else {
            m.append(" tasks");
        }
        Some(m)
    } else {
        None
    }
}

fn push_opt(v: &mut Vec<String>, s: Option<String>)
    ensures
        texts(final(v)@) == texts(old(v)@) + (match s {
            Some(x) => seq![x@],
            None => Seq::<Seq<char>>::empty(),
        }),
{
    match s {
        Some(x) => {
            let ghost before = texts(v@);
            push_text(v, x);
            assert(texts(v@) =~= before + seq![x@]);
        },
        None => {
            assert(texts(v@) =~= texts(v@) + Seq::<Seq<char>>::empty());
        },
    }
}

/// A task's score and the reasons behind it.
fn score_task(task: &Task, on: bool, count: usize, q: i64, phase_order: &[String]) -> (r: (i64, Vec<String>))
    requires
        q == 1 || q == 2 || q == 4,
    ensures
        r.0 as int == score_spec(*task, on, count as nat, q as int, texts(phase_order@)),
        texts(r.1@) == reasons_spec(*task, on, count as nat, texts(phase_order@)),
{
    let p = task.priority();
    let base: i64 = match p {
        Some(Priority::Critical) => 40,
        Some(Priority::High) => 30,
        Some(Priority::Medium) => 20,
        _ => 10,
    };
    let first: Option<String> = match p {
        Some(Priority::Critical) => Some("critical priority".to_owned()),
        Some(Priority::High) => Some("high priority".to_owned()),
        _ => None,
    };
    let cp: i64 = if on {
        (15 * q) / 4
    } else {
        0
    };
    let capped: i64 = if count >= 5 {
        15
    } else {
        3 * (count as i64)
    };
    assert(0 <= capped * q <= 60) by (nonlinear_arith)
        requires
            0 <= capped <= 15,
            1 <= q <= 4,
    ;
    let ds: i64 = (capped * q) / 4;
    let e = task.effort();
    let ep: i64 = match e {
        Some(Effort::Small) => 5,
        Some(Effort::Medium) => 2,
        _ => 0,
    };
    let (pp, preason) = phase_part(task, phase_order);
    let score = base + cp + ds + ep + pp;
    let mut reasons: Vec<String> = Vec::new();
    assert(texts(reasons@) =~= Seq::<Seq<char>>::empty());
    push_opt(&mut reasons, first);
    let ghost r1 = texts(reasons@);
    assert(r1 =~= base_reasons(task.priority_spec()));
    push_opt(&mut reasons, if on {
        Some("on critical path".to_owned())
    } else {
        None
    });
    let ghost r2 = texts(reasons@);
    push_opt(&mut reasons, unblock_part(count));
    let ghost r3 = texts(reasons@);
    push_opt(&mut reasons, match e {
        Some(Effort::Small) => Some("quick win".to_owned()),
        _ => None,
    });
    let ghost r4 = texts(reasons@);
    push_opt(&mut reasons, preason);
    proof {
        assert(r2 =~= r1 + (if on { seq!["on critical path"@] } else { Seq::<Seq<char>>::empty() }));
        assert(r4 =~= r3 + effort_reasons(effort_of(*task)));
        assert(texts(reasons@) =~= reasons_spec(*task, on, count as nat, texts(phase_order@)));
    }
    (score, reasons)
}

// ---------------------------------------------------------------------------
// Ordering

/// A strict total order on indices.
pub open spec fn strict_total(lt: spec_fn(int, int) -> bool) -> bool {
    &&& forall|x: int, y: int, z: int| #[trigger] lt(x, y) && #[trigger] lt(y, z) ==> lt(x, z)
    &&& forall|x: int, y: int| x != y ==> #[trigger] lt(x, y) || lt(y, x)
    &&& forall|x: int| !#[trigger] lt(x, x)
}

/// `sel` holds the indices of `cands`, each once, sorted by `lt`.
pub open spec fn sorted_by(lt: spec_fn(int, int) -> bool, cands: Seq<int>, sel: Seq<int>) -> bool {
    &&& sel.len() == cands.len()
    &&& sel.to_set() == cands.to_set()
    &&& forall|a: int, b: int| 0 <= a < b < sel.len() ==> lt(#[trigger] sel[a], #[trigger] sel[b])
}

/// Inserting `i` before the first element it precedes keeps a sorted list
/// sorted.
proof fn lemma_insert_ordered(lt: spec_fn(int, int) -> bool, r: Seq<int>, q: int, i: int)
    requires
        strict_total(lt),
        0 <= q <= r.len(),
        forall|a: int, b: int| 0 <= a < b < r.len() ==> lt(#[trigger] r[a], #[trigger] r[b]),
        forall|k: int| 0 <= k < q ==> !lt(i, #[trigger] r[k]),
        q < r.len() ==> lt(i, r[q]),
        !r.contains(i),
    ensures
        forall|a: int, b: int|
            0 <= a < b < r.insert(q, i).len() ==> lt(#[trigger] r.insert(q, i)[a], #[trigger] r.insert(q, i)[b]),
{
    let r2 = r.insert(q, i);
    assert forall|a: int, b: int| 0 <= a < b < r2.len() implies lt(#[trigger] r2[a], #[trigger] r2[b]) by {
        if a == q {
            assert(r2[b] == r[b - 1]);
            if b - 1 != q {
                assert(lt(r[q], r[b - 1]));
            }
        } else if b == q {
            assert(r2[a] == r[a]);
            assert(r.contains(r[a]));
            assert(r[a] != i);
            assert(lt(i, r[a]) || lt(r[a], i));
        } else {
            let ia = if a < q { a } else { a - 1 };
            let ib = if b < q { b } else { b - 1 };
            assert(r2[a] == r[ia]);
            assert(r2[b] == r[ib]);
        }
    }
}

/// Insert `i` (new) where it keeps `v` sorted by `lt`, given where it goes.
proof fn lemma_sorted_insert_set(r: Seq<int>, q: int, i: int)
    requires
        0 <= q <= r.len(),
    ensures
        r.insert(q, i).to_set() == r.to_set().insert(i),
        r.insert(q, i).len() == r.len() + 1,
{
    let r2 = r.insert(q, i);
    assert forall|x: int| r2.to_set().contains(x) <==> r.to_set().insert(i).contains(x) by {
        if r2.contains(x) {
            let j = choose|j: int| 0 <= j < r2.len() && r2[j] == x;
            if j < q {
                assert(r[j] == x);
            } else if j > q {
                assert(r[j - 1] == x);
            }
        }
        if r.contains(x) {
            let j = choose|j: int| 0 <= j < r.len() && r[j] == x;
            if j < q {
                assert(r2[j] == x);
            } else {
                assert(r2[j + 1] == x);
            }
        }
        if x == i {
            assert(r2[q] == i);
        }
    }
    assert(r2.to_set() =~= r.to_set().insert(i));
}

// ---------------------------------------------------------------------------
// Recommendation

/// Passes the option filters, actionability first.
pub open spec fn passes(ts: Seq<Task>, m: Seq<(Seq<char>, nat)>, opts: Options, t: Task) -> bool {
    &&& actionable_spec(ts, t)
    &&& (opts.phase matches Some(p) ==> t.text("phase"@) == Some(p@))
    &&& (opts.quick_wins ==> effort_of(t) == Some(Effort::Small))
    &&& (opts.critical ==> on_path_spec(ts, m, t.id_spec()))
}

/// Indices of the tasks below `n` that pass the filters, in order.
pub open spec fn candidates(ts: Seq<Task>, m: Seq<(Seq<char>, nat)>, opts: Options, n: int) -> Seq<int>
    decreases n,
{
    if n <= 0 {
        Seq::empty()
    } else if passes(ts, m, opts, ts[n - 1]) {
        candidates(ts, m, opts, n - 1).push(n - 1)
    } else {
        candidates(ts, m, opts, n - 1)
    }
}

pub open spec fn task_score(ts: Seq<Task>, m: Seq<(Seq<char>, nat)>, order: Seq<Seq<char>>, i: int) -> int {
    let id = ts[i].id_spec();
    score_spec(ts[i], on_path_spec(ts, m, id), down_count(ts, id), down_quarters(ts, id), order)
}

/// A task's place in the phase order; tasks without a configured phase last.
pub open spec fn phase_rank(t: Task, order: Seq<Seq<char>>) -> int {
    match t.text("phase"@) {
        Some(p) => match position_in(order, p) {
            Some(i) => i,
            None => order.len() as int,
        },
        None => order.len() as int,
    }
}

/// Ranking order: phase order first (under strict phases), then score
/// descending, then id, then file order.
pub open spec fn rec_before(
    ts: Seq<Task>,
    m: Seq<(Seq<char>, nat)>,
    order: Seq<Seq<char>>,
    strict: bool,
) -> spec_fn(int, int) -> bool {
    |i: int, j: int|
        {
            let use_phase = strict && order.len() > 0;
            if use_phase && phase_rank(ts[i], order) != phase_rank(ts[j], order) {
                phase_rank(ts[i], order) < phase_rank(ts[j], order)
            } else if task_score(ts, m, order, i) != task_score(ts, m, order, j) {
                task_score(ts, m, order, i) > task_score(ts, m, order, j)
            } else if ts[i].id_spec() != ts[j].id_spec() {
                text_lt(ts[i].id_spec(), ts[j].id_spec())
            } else {
                i < j
            }
        }
}

proof fn lemma_rec_order(ts: Seq<Task>, m: Seq<(Seq<char>, nat)>, order: Seq<Seq<char>>, strict: bool)
    ensures
        strict_total(rec_before(ts, m, order, strict)),
{
    let lt = rec_before(ts, m, order, strict);
    assert forall|x: int, y: int, z: int| #[trigger] lt(x, y) && #[trigger] lt(y, z) implies lt(x, z) by {
        let (ix, iy, iz) = (ts[x].id_spec(), ts[y].id_spec(), ts[z].id_spec());
        if ix != iy && iy != iz && text_lt(ix, iy) && text_lt(iy, iz) {
            lemma_text_lt_trans(ix, iy, iz);
        }
        if ix != iz && text_lt(ix, iy) && text_lt(iy, iz) {
            lemma_text_lt_trans(ix, iy, iz);
        }
        if ix == iz && ix != iy && text_lt(ix, iy) && text_lt(iy, iz) {
            lemma_text_lt_asym(ix, iy);
        }
    }
    assert forall|x: int, y: int| x != y implies #[trigger] lt(x, y) || lt(y, x) by {
        lemma_text_lt_total(ts[x].id_spec(), ts[y].id_spec());
    }
    assert forall|x: int| !#[trigger] lt(x, x) by {
        lemma_text_lt_irrefl(ts[x].id_spec());
    }
}

/// Blocked view order: by id, file order among equal ids.
pub open spec fn id_before(ts: Seq<Task>) -> spec_fn(int, int) -> bool {
    |i: int, j: int|
        text_lt(ts[i].id_spec(), ts[j].id_spec()) || (ts[i].id_spec() == ts[j].id_spec() && i < j)
}

proof fn lemma_id_order(ts: Seq<Task>)
    ensures
        strict_total(id_before(ts)),
{
    let lt = id_before(ts);
    assert forall|x: int, y: int, z: int| #[trigger] lt(x, y) && #[trigger] lt(y, z) implies lt(x, z) by {
        let (ix, iy, iz) = (ts[x].id_spec(), ts[y].id_spec(), ts[z].id_spec());
        if text_lt(ix, iy) && text_lt(iy, iz) {
            lemma_text_lt_trans(ix, iy, iz);
        }
    }
    assert forall|x: int, y: int| x != y implies #[trigger] lt(x, y) || lt(y, x) by {
        lemma_text_lt_total(ts[x].id_spec(), ts[y].id_spec());
    }
    assert forall|x: int| !#[trigger] lt(x, x) by {
        lemma_text_lt_irrefl(ts[x].id_spec());
    }
}

pub open spec fn text_or_empty(o: Option<Seq<char>>) -> Seq<char> {
    match o {
        Some(x) => x,
        None => Seq::empty(),
    }
}

/// Recommendation `k` describes task `i`.
pub open spec fn rec_matches(
    ts: Seq<Task>,
    m: Seq<(Seq<char>, nat)>,
    order: Seq<Seq<char>>,
    r: Recommendation,
    k: int,
    i: int,
) -> bool {
    let t = ts[i];
    let id = t.id_spec();
    &&& r.rank == k + 1
    &&& r.id@ == id
    &&& r.title@ == t.title_spec()
    &&& r.file_path@ == file_text(t)
    &&& r.status@ == text_or_empty(t.text("status"@))
    &&& r.priority@ == text_or_empty(t.text("priority"@))
    &&& r.effort@ == (match effort_of(t) {
        Some(e) => effort_text(e),
        None => Seq::empty(),
    })
    &&& r.score == task_score(ts, m, order, i)
    &&& texts(r.reasons@) == reasons_spec(t, on_path_spec(ts, m, id), down_count(ts, id), order)
    &&& r.downstream_count == down_count(ts, id)
    &&& r.on_critical_path == on_path_spec(ts, m, id)
}

/// Open, high or critical, and not actionable.
pub open spec fn blocked_candidate(ts: Seq<Task>, t: Task) -> bool {
    let s = t.effective_status_spec();
    &&& (s == Status::Pending || s == Status::InProgress || s == Status::Blocked)
    &&& priority_rank(t.effective_priority_spec()) >= 2
    &&& !actionable_spec(ts, t)
}

pub open spec fn blocked_candidates(ts: Seq<Task>, n: int) -> Seq<int>
    decreases n,
{
    if n <= 0 {
        Seq::empty()
    } else if blocked_candidate(ts, ts[n - 1]) {
        blocked_candidates(ts, n - 1).push(n - 1)
    } else {
        blocked_candidates(ts, n - 1)
    }
}

/// The dependencies that do not exist, labelled.
pub open spec fn missing_texts(ts: Seq<Task>, deps: Seq<Seq<char>>) -> Seq<Seq<char>>
    decreases deps.len(),
{
    if deps.len() == 0 {
        Seq::empty()
    } else if has_id(ts, deps.last()) {
        missing_texts(ts, deps.drop_last())
    } else {
        missing_texts(ts, deps.drop_last()).push(deps.last() + " (missing)"@)
    }
}

/// What stands in the way: open dependencies with their status, then the
/// missing ones.
pub open spec fn blocker_texts(ts: Seq<Task>, deps: Seq<Seq<char>>) -> Seq<Seq<char>> {
    blockers_spec(ts, deps).map_values(
        |d: Task| d.id_spec() + " ("@ + status_text(d.effective_status_spec()) + ")"@,
    ) + missing_texts(ts, deps)
}

pub open spec fn blocked_matches(ts: Seq<Task>, b: Blocked, i: int) -> bool {
    let t = ts[i];
    &&& b.id@ == t.id_spec()
    &&& b.title@ == t.title_spec()
    &&& b.priority@ == priority_text(t.effective_priority_spec())
    &&& texts(b.blocked_on@) == blocker_texts(ts, t.list("dependencies"@))
}

/// The id of the last recommendation with the largest downstream count,
/// among those that unblock anything.
pub open spec fn best_unblocker(rs: Seq<Recommendation>) -> Option<(nat, Seq<char>)>
    decreases rs.len(),
{
    if rs.len() == 0 {
        None
    } else {
        let b = best_unblocker(rs.drop_last());
        let r = rs.last();
        if r.downstream_count > 0 && (b is None || r.downstream_count >= b.unwrap().0) {
            Some((r.downstream_count as nat, r.id@))
        } else {
            b
        }
    }
}

pub open spec fn effective_limit(opts: Options) -> int {
    if opts.limit == 0 {
        5
    } else {
        opts.limit as int
    }
}

/// The report for a depth map: recommendations in ranking order up to the
/// limit, the blocker view sorted by id, and the best unblocker.
pub open spec fn report_for(
    ts: Seq<Task>,
    m: Seq<(Seq<char>, nat)>,
    order: Seq<Seq<char>>,
    opts: Options,
    r: NextReport,
) -> bool {
    exists|sel: Seq<int>, bsel: Seq<int>|
        #![trigger sorted_by(rec_before(ts, m, order, opts.strict_phases), candidates(ts, m, opts, ts.len() as int), sel), sorted_by(id_before(ts), blocked_candidates(ts, ts.len() as int), bsel)]
        {
            &&& sorted_by(rec_before(ts, m, order, opts.strict_phases), candidates(ts, m, opts, ts.len() as int), sel)
            &&& r.recommendations.len() == (if sel.len() < effective_limit(opts) {
                sel.len() as int
            } else {
                effective_limit(opts)
            })
            &&& forall|k: int|
                0 <= k < r.recommendations.len() ==> rec_matches(ts, m, order, #[trigger] r.recommendations@[k], k, sel[k])
            &&& sorted_by(id_before(ts), blocked_candidates(ts, ts.len() as int), bsel)
            &&& r.blocked.len() == bsel.len()
            &&& forall|k: int| 0 <= k < r.blocked.len() ==> blocked_matches(ts, #[trigger] r.blocked@[k], bsel[k])
            &&& opt_text(r.suggested_unblocker) == (match best_unblocker(r.recommendations@) {
                Some(b) => Some(b.1),
                None => None,
            })
        }
}

/// A candidate with its score, kept in ranking order.
struct Scored {
    index: usize,
    score: i64,
    reasons: Vec<String>,
    count: usize,
    on: bool,
}

/// The scored entry for task `i` agrees with the spec.
spec fn scored_ok(ts: Seq<Task>, m: Seq<(Seq<char>, nat)>, order: Seq<Seq<char>>, e: Scored) -> bool {
    let id = ts[e.index as int].id_spec();
    &&& 0 <= e.index < ts.len()
    &&& e.score == task_score(ts, m, order, e.index as int)
    &&& texts(e.reasons@) == reasons_spec(ts[e.index as int], on_path_spec(ts, m, id), down_count(ts, id), order)
    &&& e.count == down_count(ts, id)
    &&& e.on == on_path_spec(ts, m, id)
}

spec fn indices(v: Seq<Scored>) -> Seq<int> {
    v.map_values(|e: Scored| e.index as int)
}

fn clone_texts(v: &Vec<String>) -> (r: Vec<String>)
    ensures
        texts(r@) == texts(v@),
{
    let mut out: Vec<String> = Vec::new();
    let mut i: usize = 0;
    while i < v.len()
        invariant
            i <= v.len(),
            texts(out@) == texts(v@).take(i as int),
        decreases v.len() - i,
    {
        push_text(&mut out, v[i].clone());
        assert(texts(v@).take(i + 1) =~= texts(v@).take(i as int).push(v@[i as int]@));
        i += 1;
    }
    assert(texts(v@).take(v.len() as int) =~= texts(v@));
    out
}

/// A task's place in the phase order.
fn phase_rank_of(t: &Task, order: &[String]) -> (r: usize)
    ensures
        r as int == phase_rank(*t, texts(order@)),
{
    match t.phase() {
        Some(p) => match position_of_text(order, p.as_str()) {
            Some(i) => i,
            None => order.len(),
        },
        None => order.len(),
    }
}

/// Whether `a` ranks before `b`.
fn ranks_before(tasks: &[Task], order: &[String], strict: bool, a: &Scored, b: &Scored, Ghost(m): Ghost<Seq<(Seq<char>, nat)>>) -> (r: bool)
    requires
        scored_ok(tasks@, m, texts(order@), *a),
        scored_ok(tasks@, m, texts(order@), *b),
    ensures
        r == rec_before(tasks@, m, texts(order@), strict)(a.index as int, b.index as int),
{
    let ta = &tasks[a.index];
    let tb = &tasks[b.index];
    if strict && order.len() > 0 {
        let pa = phase_rank_of(ta, order);
        let pb = phase_rank_of(tb, order);
        if pa != pb {
            return pa < pb;
        }
    }
    if a.score != b.score {
        return a.score > b.score;
    }
    let ia = ta.id();
    let ib = tb.id();
    if !str_eq(ia.as_str(), ib.as_str()) {
        return text_less(ia.as_str(), ib.as_str());
    }
    a.index < b.index
}

/// Whether a task passes the filters.
fn passes_exec(graph: &Graph, on: &Vec<String>, opts: &Options, t: &Task, Ghost(m): Ghost<Seq<(Seq<char>, nat)>>) -> (r: bool)
    requires
        forall|x: Seq<char>| #[trigger] texts(on@).contains(x) <==> on_path_spec(graph.tasks_spec(), m, x),
    ensures
        r == passes(graph.tasks_spec(), m, *opts, *t),
{
    if !is_actionable(t, graph) {
        return false;
    }
    match &opts.phase {
        Some(p) => {
            let ok = match t.phase() {
                Some(ph) => str_eq(ph.as_str(), p.as_str()),
                None => false,
            };
            if !ok {
                return false;
            }
        },
        None => {},
    }
    if opts.quick_wins {
        let small = match t.effort() {
            Some(Effort::Small) => true,
            _ => false,
        };
        if !small {
            return false;
        }
    }
    if opts.critical {
        if !contains_str(on, t.id().as_str()) {
            return false;
        }
    }
    true
}

/// The labelled open and missing dependencies of a task.
fn blocked_on_of(graph: &Graph, t: &Task) -> (r: Vec<String>)
    ensures
        texts(r@) == blocker_texts(graph.tasks_spec(), t.list("dependencies"@)),
{
    let ghost ts = graph.tasks_spec();
    let bs = graph.blockers(t);
    let ghost bv = crate::taskmd::graph::derefs(bs@);
    let mut out: Vec<String> = Vec::new();
    let mut i: usize = 0;
    while i < bs.len()
        invariant
            i <= bs.len(),
            bv == crate::taskmd::graph::derefs(bs@),
            texts(out@) == bv.take(i as int).map_values(
                |d: Task| d.id_spec() + " ("@ + status_text(d.effective_status_spec()) + ")"@,
            ),
        decreases bs.len() - i,
    {
        let d = bs[i];
        let mut line = d.id();
        line.append(" (");
        line.append(d.effective_status().as_str());
        line.append(")");
        push_text(&mut out, line);
        assert(bv[i as int] == *d);
        assert(bv.take(i + 1).map_values(|d: Task| d.id_spec() + " ("@ + status_text(d.effective_status_spec()) + ")"@)
            =~= bv.take(i as int).map_values(|d: Task| d.id_spec() + " ("@ + status_text(d.effective_status_spec()) + ")"@).push(
            line@,
        ));
        i += 1;
    }
    assert(bv.take(bs.len() as int) =~= bv);
    let ghost part = texts(out@);
    let deps = t.dependencies();
    let ghost ds = texts(deps@);
    let mut k: usize = 0;
    assert(part + missing_texts(ts, ds.take(0)) =~= part);
    while k < deps.len()
        invariant
            k <= deps.len(),
            ds == texts(deps@),
            ts == graph.tasks_spec(),
            texts(out@) == part + missing_texts(ts, ds.take(k as int)),
        decreases deps.len() - k,
    {
        assert(ds.take(k + 1).drop_last() =~= ds.take(k as int));
        assert(ds.take(k + 1).last() == deps@[k as int]@);
        if graph.get(deps[k].as_str()).is_none() {
            let mut line = deps[k].clone();
            line.append(" (missing)");
            let ghost before = texts(out@);
            push_text(&mut out, line);
            assert(texts(out@) =~= part + missing_texts(ts, ds.take(k + 1)));
        }
        k += 1;
    }
    assert(ds.take(deps.len() as int) =~= ds);
    out
}

/// Rank actionable tasks per taskmd's algorithm and collect the blocker
/// view. `phase_order` holds the configured phase keys, in order.
pub fn recommend(tasks: &[Task], phase_order: &[String], opts: &Options) -> (r: NextReport)
    ensures
        exists|m: Seq<(Seq<char>, nat)>|
            #[trigger] depths_ok(tasks@, m) && report_for(tasks@, m, texts(phase_order@), *opts, r),
{
    let ghost ts = tasks@;
    let ghost order = texts(phase_order@);
    let graph = Graph::build(tasks);
    let depths = depth_map(tasks, &graph);
    let ghost m = dmodel(depths@);
    let on = critical_path(&graph, &depths);
    let ghost lt = rec_before(ts, m, order, opts.strict_phases);
    proof {
        lemma_rec_order(ts, m, order, opts.strict_phases);
    }
    let mut scored: Vec<Scored> = Vec::new();
    let mut i: usize = 0;
    proof {
        assert(indices(scored@) =~= Seq::<int>::empty());
        assert(candidates(ts, m, *opts, 0) =~= Seq::<int>::empty());
    }
    while i < tasks.len()
        invariant
            ts == tasks@,
            graph.tasks_spec() == ts,
            order == texts(phase_order@),
            lt == rec_before(ts, m, order, opts.strict_phases),
            strict_total(lt),
            forall|x: Seq<char>| #[trigger] texts(on@).contains(x) <==> on_path_spec(ts, m, x),
            i <= tasks.len(),
            sorted_by(lt, candidates(ts, m, *opts, i as int), indices(scored@)),
            forall|k: int| 0 <= k < scored.len() ==> scored_ok(ts, m, order, #[trigger] scored@[k]),
            forall|k: int| 0 <= k < scored.len() ==> (#[trigger] scored@[k]).index < i,
        decreases tasks.len() - i,
    {
        let t = &tasks[i];
        if passes_exec(&graph, &on, opts, t, Ghost(m)) {
            let id = t.id();
            let on_flag = contains_str(&on, id.as_str());
            let (count, q) = downstream_info(&graph, id.as_str());
            let (score, reasons) = score_task(t, on_flag, count, q, phase_order);
            let entry = Scored { index: i, score, reasons, count, on: on_flag };
            proof {
                assert(scored_ok(ts, m, order, entry));
            }
            let mut q_pos: usize = 0;
            while q_pos < scored.len() && !ranks_before(tasks, phase_order, opts.strict_phases, &entry, &scored[q_pos], Ghost(m))
                invariant
                    q_pos <= scored.len(),
                    scored_ok(ts, m, order, entry),
                    entry.index == i,
                    forall|k: int| 0 <= k < scored.len() ==> scored_ok(ts, m, order, #[trigger] scored@[k]),
                    order == texts(phase_order@),
                    ts == tasks@,
                    lt == rec_before(ts, m, order, opts.strict_phases),
                    forall|k: int| 0 <= k < q_pos ==> !lt(i as int, #[trigger] indices(scored@)[k]),
                decreases scored.len() - q_pos,
            {
                assert(indices(scored@)[q_pos as int] == scored@[q_pos as int].index as int);
                q_pos += 1;
            }
            proof {
                let sel = indices(scored@);
                if (q_pos as int) < scored.len() {
                    assert(sel[q_pos as int] == scored@[q_pos as int].index as int);
                }
                assert(!sel.contains(i as int)) by {
                    if sel.contains(i as int) {
                        let j = choose|j: int| 0 <= j < sel.len() && sel[j] == i as int;
                        assert(scored@[j].index < i);
                    }
                }
                lemma_insert_ordered(lt, sel, q_pos as int, i as int);
                lemma_sorted_insert_set(sel, q_pos as int, i as int);
            }
            let ghost before = scored@;
            scored.insert(q_pos, entry);
            proof {
                assert(indices(scored@) =~= indices(before).insert(q_pos as int, i as int));
                assert(candidates(ts, m, *opts, i + 1) == candidates(ts, m, *opts, i as int).push(i as int));
                candidates(ts, m, *opts, i as int).lemma_push_to_set_commute(i as int);
                assert forall|k: int| 0 <= k < scored.len() implies scored_ok(ts, m, order, #[trigger] scored@[k]) && scored@[k].index < i + 1 by {
                    if k < q_pos {
                        assert(scored@[k] == before[k]);
                    } else if k > q_pos {
                        assert(scored@[k] == before[k - 1]);
                    }
                }
            }
        } else {
            proof {
                assert(candidates(ts, m, *opts, i + 1) == candidates(ts, m, *opts, i as int));
            }
        }
        i += 1;
    }
    let limit: usize = if opts.limit == 0 {
        5
    } else {
        opts.limit
    };
    let take = if scored.len() < limit {
        scored.len()
    } else {
        limit
    };
    let mut recommendations: Vec<Recommendation> = Vec::new();
    let mut k: usize = 0;
    while k < take
        invariant
            ts == tasks@,
            order == texts(phase_order@),
            take <= scored.len(),
            k <= take,
            recommendations.len() == k,
            forall|j: int| 0 <= j < scored.len() ==> scored_ok(ts, m, order, #[trigger] scored@[j]),
            forall|j: int| 0 <= j < k ==> rec_matches(ts, m, order, #[trigger] recommendations@[j], j, indices(scored@)[j]),
        decreases take - k,
    {
        let e = &scored[k];
        let t = &tasks[e.index];
        let file_path = match &t.rel_path {
            Some(p) => p.clone(),
            None => String::new(),
        };
        let status = match t.status_raw() {
            Some(x) => x,
            None => String::new(),
        };
        let priority = match t.priority_raw() {
            Some(x) => x,
            None => String::new(),
        };
        let effort = match t.effort() {
            Some(x) => x.as_str().to_owned(),
            None => String::new(),
        };
        let rec = Recommendation {
            rank: k + 1,
            id: t.id(),
            title: t.title(),
            file_path,
            status,
            priority,
            effort,
            score: e.score,
            reasons: clone_texts(&e.reasons),
            downstream_count: e.count,
            on_critical_path: e.on,
        };
        proof {
            assert(indices(scored@)[k as int] == e.index as int);
            assert(rec_matches(ts, m, order, rec, k as int, e.index as int));
        }
        recommendations.push(rec);
        proof {
            assert forall|j: int| 0 <= j < k + 1 implies rec_matches(ts, m, order, #[trigger] recommendations@[j], j, indices(scored@)[j]) by {
                if j == k {
                    assert(recommendations@[j] == rec);
                }
            }
        }
        k += 1;
    }
    let ghost bl = id_before(ts);
    proof {
        lemma_id_order(ts);
    }
    let mut blocked_sorted: Vec<(usize, Blocked)> = Vec::new();
    let mut i: usize = 0;
    proof {
        assert(blocked_sorted@.map_values(|e: (usize, Blocked)| e.0 as int) =~= Seq::<int>::empty());
        assert(blocked_candidates(ts, 0) =~= Seq::<int>::empty());
    }
    while i < tasks.len()
        invariant
            ts == tasks@,
            graph.tasks_spec() == ts,
            bl == id_before(ts),
            strict_total(bl),
            i <= tasks.len(),
            sorted_by(bl, blocked_candidates(ts, i as int), blocked_sorted@.map_values(|e: (usize, Blocked)| e.0 as int)),
            forall|k: int| 0 <= k < blocked_sorted.len() ==> (#[trigger] blocked_sorted@[k]).0 < i && blocked_matches(
                ts,
                blocked_sorted@[k].1,
                blocked_sorted@[k].0 as int,
            ),
        decreases tasks.len() - i,
    {
        let t = &tasks[i];
        let s = t.effective_status();
        let open3 = match s {
            Status::Pending | Status::InProgress | Status::Blocked => true,
            _ => false,
        };
        if open3 && t.effective_priority().rank() >= 2 && !is_actionable(t, &graph) {
            let b = Blocked {
                id: t.id(),
                title: t.title(),
                priority: t.effective_priority().as_str().to_owned(),
                blocked_on: blocked_on_of(&graph, t),
            };
            let ghost sel = blocked_sorted@.map_values(|e: (usize, Blocked)| e.0 as int);
            let mut q_pos: usize = 0;
            while q_pos < blocked_sorted.len() && !(text_less(b.id.as_str(), blocked_sorted[q_pos].1.id.as_str()))
                invariant
                    q_pos <= blocked_sorted.len(),
                    sel == blocked_sorted@.map_values(|e: (usize, Blocked)| e.0 as int),
                    forall|k: int| 0 <= k < blocked_sorted.len() ==> (#[trigger] blocked_sorted@[k]).0 < i && blocked_matches(
                        ts,
                        blocked_sorted@[k].1,
                        blocked_sorted@[k].0 as int,
                    ),
                    b.id@ == ts[i as int].id_spec(),
                    bl == id_before(ts),
                    i < ts.len(),
                    forall|k: int| 0 <= k < q_pos ==> !bl(i as int, #[trigger] sel[k]),
                decreases blocked_sorted.len() - q_pos,
            {
                assert(sel[q_pos as int] == blocked_sorted@[q_pos as int].0 as int);
                assert(blocked_sorted@[q_pos as int].1.id@ == ts[sel[q_pos as int]].id_spec());
                q_pos += 1;
            }
            proof {
                if (q_pos as int) < blocked_sorted.len() {
                    assert(sel[q_pos as int] == blocked_sorted@[q_pos as int].0 as int);
                    assert(blocked_sorted@[q_pos as int].1.id@ == ts[sel[q_pos as int]].id_spec());
                }
                assert(!sel.contains(i as int)) by {
                    if sel.contains(i as int) {
                        let j = choose|j: int| 0 <= j < sel.len() && sel[j] == i as int;
                        assert(blocked_sorted@[j].0 < i);
                    }
                }
                lemma_insert_ordered(bl, sel, q_pos as int, i as int);
                lemma_sorted_insert_set(sel, q_pos as int, i as int);
                assert(blocked_matches(ts, b, i as int));
            }
            let ghost before = blocked_sorted@;
            blocked_sorted.insert(q_pos, (i, b));
            proof {
                assert(blocked_sorted@.map_values(|e: (usize, Blocked)| e.0 as int) =~= sel.insert(q_pos as int, i as int));
                assert(blocked_candidates(ts, i + 1) == blocked_candidates(ts, i as int).push(i as int));
                blocked_candidates(ts, i as int).lemma_push_to_set_commute(i as int);
                assert forall|k: int| 0 <= k < blocked_sorted.len() implies (#[trigger] blocked_sorted@[k]).0 < i + 1 && blocked_matches(
                    ts,
                    blocked_sorted@[k].1,
                    blocked_sorted@[k].0 as int,
                ) by {
                    if k < q_pos {
                        assert(blocked_sorted@[k] == before[k]);
                    } else if k > q_pos {
                        assert(blocked_sorted@[k] == before[k - 1]);
                    }
                }
            }
        } else {
            proof {
                assert(blocked_candidates(ts, i + 1) == blocked_candidates(ts, i as int));
            }
        }
        i += 1;
    }
    let ghost bsel = blocked_sorted@.map_values(|e: (usize, Blocked)| e.0 as int);
    let mut blocked: Vec<Blocked> = Vec::new();
    let mut k: usize = 0;
    while k < blocked_sorted.len()
        invariant
            k <= blocked_sorted.len(),
            blocked.len() == k,
            bsel == blocked_sorted@.map_values(|e: (usize, Blocked)| e.0 as int),
            forall|j: int| 0 <= j < blocked_sorted.len() ==> blocked_matches(
                ts,
                (#[trigger] blocked_sorted@[j]).1,
                blocked_sorted@[j].0 as int,
            ),
            forall|j: int| 0 <= j < k ==> blocked_matches(ts, #[trigger] blocked@[j], bsel[j]),
        decreases blocked_sorted.len() - k,
    {
        let src = &blocked_sorted[k].1;
        let b = Blocked {
            id: src.id.clone(),
            title: src.title.clone(),
            priority: src.priority.clone(),
            blocked_on: clone_texts(&src.blocked_on),
        };
        proof {
            assert(bsel[k as int] == blocked_sorted@[k as int].0 as int);
            assert(blocked_matches(ts, b, bsel[k as int]));
        }
        blocked.push(b);
        proof {
            assert forall|j: int| 0 <= j < k + 1 implies blocked_matches(ts, #[trigger] blocked@[j], bsel[j]) by {
                if j == k {
                    assert(blocked@[j] == b);
                }
            }
        }
        k += 1;
    }
    let mut best: Option<(usize, usize)> = None;
    let mut j: usize = 0;
    while j < recommendations.len()
        invariant
            j <= recommendations.len(),
            match best {
                Some((c, at)) => at < j && best_unblocker(recommendations@.take(j as int)) == Some(
                    (c as nat, recommendations@[at as int].id@),
                ),
                None => best_unblocker(recommendations@.take(j as int)) is None,
            },
        decreases recommendations.len() - j,
    {
        proof {
            assert(recommendations@.take(j + 1).drop_last() =~= recommendations@.take(j as int));
            assert(recommendations@.take(j + 1).last() == recommendations@[j as int]);
        }
        let c = recommendations[j].downstream_count;
        let better = match best {
            Some((bc, _)) => c > 0 && c >= bc,
            None => c > 0,
        };
        if better {
            best = Some((c, j));
        }
        j += 1;
    }
    assert(recommendations@.take(recommendations.len() as int) =~= recommendations@);
    let suggested_unblocker = match best {
        Some((_, at)) => Some(recommendations[at].id.clone()),
        None => None,
    };
    let r = NextReport { recommendations, blocked, suggested_unblocker };
    proof {
        let sel = indices(scored@);
        assert(sorted_by(rec_before(ts, m, order, opts.strict_phases), candidates(ts, m, *opts, ts.len() as int), sel));
        assert(sorted_by(id_before(ts), blocked_candidates(ts, ts.len() as int), bsel));
        assert(report_for(ts, m, order, *opts, r));
        assert(depths_ok(ts, m));
    }
    r
}

// ---------------------------------------------------------------------------
// Rendering

pub open spec fn rec_line(r: Recommendation) -> Seq<char> {
    dec(r.rank as nat) + ". "@ + r.id@ + " "@ + r.title@ + " [score "@ + signed_dec(r.score as int) + "]"@
        + (if r.reasons.len() == 0 {
        Seq::empty()
    } else {
        "  ("@ + join_sep(texts(r.reasons@), ", "@) + ")"@
    }) + "\n"@
}

pub open spec fn rec_lines(rs: Seq<Recommendation>) -> Seq<char>
    decreases rs.len(),
{
    if rs.len() == 0 {
        Seq::empty()
    } else {
        rec_lines(rs.drop_last()) + rec_line(rs.last())
    }
}

pub open spec fn blocked_line(b: Blocked) -> Seq<char> {
    "  "@ + b.id@ + " "@ + b.title@ + " ["@ + b.priority@ + "] waits on "@ + join_sep(texts(b.blocked_on@), ", "@)
        + "\n"@
}

pub open spec fn blocked_lines(bs: Seq<Blocked>) -> Seq<char>
    decreases bs.len(),
{
    if bs.len() == 0 {
        Seq::empty()
    } else {
        blocked_lines(bs.drop_last()) + blocked_line(bs.last())
    }
}

/// The human rendering, before trailing whitespace is trimmed.
pub open spec fn render_next_untrimmed(r: NextReport) -> Seq<char> {
    (if r.recommendations.len() == 0 {
        "no actionable tasks"@
    } else {
        Seq::empty()
    }) + rec_lines(r.recommendations@) + (if r.blocked.len() > 0 {
        "\nblocked high-priority work:\n"@ + blocked_lines(r.blocked@) + match r.suggested_unblocker {
            Some(s) => "  -> doing "@ + s@ + " unblocks the most work\n"@,
            None => Seq::empty(),
        }
    } else {
        Seq::empty()
    })
}

fn rec_line_text(r: &Recommendation) -> (s: String)
    ensures
        s@ == rec_line(*r),
{
    let mut out = number_string(r.rank);
    out.append(". ");
    out.append(r.id.as_str());
    out.append(" ");
    out.append(r.title.as_str());
    out.append(" [score ");
    out.append(i64_text(r.score).as_str());
    out.append("]");
    if r.reasons.len() > 0 {
        out.append("  (");
        out.append(join_strings(&r.reasons, ", ").as_str());
        out.append(")");
    }
    out.append("\n");
    out
}

fn blocked_line_text(b: &Blocked) -> (s: String)
    ensures
        s@ == blocked_line(*b),
{
    let mut out = "  ".to_owned();
    out.append(b.id.as_str());
    out.append(" ");
    out.append(b.title.as_str());
    out.append(" [");
    out.append(b.priority.as_str());
    out.append("] waits on ");
    out.append(join_strings(&b.blocked_on, ", ").as_str());
    out.append("\n");
    out
}

/// Human rendering of the report.
pub fn render_human(report: &NextReport) -> (r: String)
    ensures
        r@ == rtrim(render_next_untrimmed(*report)),
{
    let mut out = String::new();
    if report.recommendations.len() == 0 {
        out.append("no actionable tasks");
    }
    let ghost head = out@;
    let mut i: usize = 0;
    while i < report.recommendations.len()
        invariant
            i <= report.recommendations.len(),
            out@ == head + rec_lines(report.recommendations@.take(i as int)),
        decreases report.recommendations.len() - i,
    {
        let r = &report.recommendations[i];
        let ghost before = out@;
        out.append(rec_line_text(r).as_str());
        proof {
            let rs = report.recommendations@.take(i + 1);
            assert(rs.drop_last() =~= report.recommendations@.take(i as int));
            assert(rs.last() == *r);
            assert(out@ =~= before + rec_line(*r));
        }
        i += 1;
    }
    assert(report.recommendations@.take(report.recommendations.len() as int) =~= report.recommendations@);
    if report.blocked.len() > 0 {
        let ghost mid = out@;
        out.append("\nblocked high-priority work:\n");
        let ghost mid2 = out@;
        let mut k: usize = 0;
        while k < report.blocked.len()
            invariant
                k <= report.blocked.len(),
                out@ == mid2 + blocked_lines(report.blocked@.take(k as int)),
            decreases report.blocked.len() - k,
        {
            let b = &report.blocked[k];
            let ghost before = out@;
            out.append(blocked_line_text(b).as_str());
            proof {
                let bs = report.blocked@.take(k + 1);
                assert(bs.drop_last() =~= report.blocked@.take(k as int));
                assert(bs.last() == *b);
                assert(out@ =~= before + blocked_line(*b));
            }
            k += 1;
        }
        assert(report.blocked@.take(report.blocked.len() as int) =~= report.blocked@);
        let ghost mid3 = out@;
        match &report.suggested_unblocker {
            Some(sg) => {
                out.append("  -> doing ");
                out.append(sg.as_str());
                out.append(" unblocks the most work\n");
            },
            None => {},
        }
        proof {
            assert(out@ =~= render_next_untrimmed(*report));
        }
    } else {
        proof {
            assert(out@ =~= render_next_untrimmed(*report));
        }
    }
    trim_end_string(out.as_str())
}

/// Every candidate lies below `n` and passes the filters.
proof fn lemma_candidates_pass(ts: Seq<Task>, m: Seq<(Seq<char>, nat)>, opts: Options, n: int, c: int)
    requires
        candidates(ts, m, opts, n).contains(c),
    ensures
        0 <= c < n,
        passes(ts, m, opts, ts[c]),
    decreases n,
{
    if n > 0 {
        let rest = candidates(ts, m, opts, n - 1);
        if passes(ts, m, opts, ts[n - 1]) && c == n - 1 {
        } else {
            if passes(ts, m, opts, ts[n - 1]) {
                let full = rest.push(n - 1);
                let k = choose|k: int| 0 <= k < full.len() && #[trigger] full[k] == c;
                assert(k < rest.len());
                assert(rest[k] == c);
            }
            lemma_candidates_pass(ts, m, opts, n - 1, c);
        }
    }
}

/// Only actionable tasks are recommended: each recommendation names a task
/// whose own status is pending or in-progress, whose every dependency is
/// completed, and whose every child is finished.
pub proof fn law_recommends_only_actionable(ts: Seq<Task>, order: Seq<Seq<char>>, opts: Options, r: NextReport)
    requires
        exists|m: Seq<(Seq<char>, nat)>| #[trigger] depths_ok(ts, m) && report_for(ts, m, order, opts, r),
    ensures
        forall|k: int|
            0 <= k < r.recommendations.len() ==> exists|i: int|
                0 <= i < ts.len() && ts[i].id_spec() == (#[trigger] r.recommendations@[k]).id@ && actionable_spec(
                    ts,
                    ts[i],
                ),
{
    let m = choose|m: Seq<(Seq<char>, nat)>| #[trigger] depths_ok(ts, m) && report_for(ts, m, order, opts, r);
    let lt = rec_before(ts, m, order, opts.strict_phases);
    let cands = candidates(ts, m, opts, ts.len() as int);
    let bc = blocked_candidates(ts, ts.len() as int);
    let (sel, bsel) = choose|sel: Seq<int>, bsel: Seq<int>|
        #![trigger sorted_by(lt, cands, sel), sorted_by(id_before(ts), bc, bsel)]
        {
            &&& sorted_by(lt, cands, sel)
            &&& r.recommendations.len() == (if sel.len() < effective_limit(opts) {
                sel.len() as int
            } else {
                effective_limit(opts)
            })
            &&& forall|k: int|
                0 <= k < r.recommendations.len() ==> rec_matches(ts, m, order, #[trigger] r.recommendations@[k], k, sel[k])
            &&& sorted_by(id_before(ts), bc, bsel)
            &&& r.blocked.len() == bsel.len()
            &&& forall|k: int| 0 <= k < r.blocked.len() ==> blocked_matches(ts, #[trigger] r.blocked@[k], bsel[k])
            &&& opt_text(r.suggested_unblocker) == (match best_unblocker(r.recommendations@) {
                Some(b) => Some(b.1),
                None => None,
            })
        };
    assert forall|k: int| 0 <= k < r.recommendations.len() implies exists|i: int|
        0 <= i < ts.len() && ts[i].id_spec() == (#[trigger] r.recommendations@[k]).id@ && actionable_spec(ts, ts[i]) by {
        assert(rec_matches(ts, m, order, r.recommendations@[k], k, sel[k]));
        assert(sel.to_set().contains(sel[k]));
        assert(cands.to_set().contains(sel[k]));
        lemma_candidates_pass(ts, m, opts, ts.len() as int, sel[k]);
        let i = sel[k];
        assert(0 <= i < ts.len() && ts[i].id_spec() == r.recommendations@[k].id@ && actionable_spec(ts, ts[i]));
    }
}

/// The recommendations are the top of the ranking: at most the limit (five
/// when unset), ranked 1, 2, ... in the ranking order, and every candidate
/// left out ranks after every one recommended.
pub proof fn law_recommendations_are_the_top(ts: Seq<Task>, order: Seq<Seq<char>>, opts: Options, r: NextReport)
    requires
        exists|m: Seq<(Seq<char>, nat)>| #[trigger] depths_ok(ts, m) && report_for(ts, m, order, opts, r),
    ensures
        exists|m: Seq<(Seq<char>, nat)>, sel: Seq<int>|
            #![trigger depths_ok(ts, m), candidates(ts, m, opts, ts.len() as int).to_set(), sel.to_set()]
            {
                let lt = rec_before(ts, m, order, opts.strict_phases);
                &&& depths_ok(ts, m)
                &&& sel.len() == candidates(ts, m, opts, ts.len() as int).len()
                &&& sel.to_set() == candidates(ts, m, opts, ts.len() as int).to_set()
                &&& r.recommendations.len() == (if sel.len() < effective_limit(opts) {
                    sel.len() as int
                } else {
                    effective_limit(opts)
                })
                &&& forall|k: int|
                    0 <= k < r.recommendations.len() ==> (#[trigger] r.recommendations@[k]).rank == k + 1
                        && r.recommendations@[k].id@ == ts[sel[k]].id_spec()
                &&& forall|k: int, j: int|
                    0 <= k < r.recommendations.len() <= j < sel.len() ==> lt(#[trigger] sel[k], #[trigger] sel[j])
            },
{
    let m = choose|m: Seq<(Seq<char>, nat)>| #[trigger] depths_ok(ts, m) && report_for(ts, m, order, opts, r);
    let lt = rec_before(ts, m, order, opts.strict_phases);
    let cands = candidates(ts, m, opts, ts.len() as int);
    let bc = blocked_candidates(ts, ts.len() as int);
    let (sel, bsel) = choose|sel: Seq<int>, bsel: Seq<int>|
        #![trigger sorted_by(lt, cands, sel), sorted_by(id_before(ts), bc, bsel)]
        {
            &&& sorted_by(lt, cands, sel)
            &&& r.recommendations.len() == (if sel.len() < effective_limit(opts) {
                sel.len() as int
            } else {
                effective_limit(opts)
            })
            &&& forall|k: int|
                0 <= k < r.recommendations.len() ==> rec_matches(ts, m, order, #[trigger] r.recommendations@[k], k, sel[k])
            &&& sorted_by(id_before(ts), bc, bsel)
            &&& r.blocked.len() == bsel.len()
            &&& forall|k: int| 0 <= k < r.blocked.len() ==> blocked_matches(ts, #[trigger] r.blocked@[k], bsel[k])
            &&& opt_text(r.suggested_unblocker) == (match best_unblocker(r.recommendations@) {
                Some(b) => Some(b.1),
                None => None,
            })
        };
    assert forall|k: int|
        0 <= k < r.recommendations.len() implies (#[trigger] r.recommendations@[k]).rank == k + 1
            && r.recommendations@[k].id@ == ts[sel[k]].id_spec() by {
        assert(rec_matches(ts, m, order, r.recommendations@[k], k, sel[k]));
    }
    assert(cands.to_set() == sel.to_set());
}

/// The suggested unblocker is a recommendation with the most downstream
/// work: its count is positive and no recommendation has a larger one, and
/// of those with that count it is the last. There is none exactly when no
/// recommendation unblocks anything.
pub proof fn law_unblocker_is_the_largest(rs: Seq<Recommendation>)
    ensures
        best_unblocker(rs) is None <==> forall|k: int| 0 <= k < rs.len() ==> (#[trigger] rs[k]).downstream_count == 0,
        best_unblocker(rs) matches Some((c, id)) ==> {
            &&& c > 0
            &&& forall|k: int| 0 <= k < rs.len() ==> (#[trigger] rs[k]).downstream_count <= c
            &&& exists|k: int|
                0 <= k < rs.len() && (#[trigger] rs[k]).id@ == id && rs[k].downstream_count == c && forall|j: int|
                    k < j < rs.len() ==> (#[trigger] rs[j]).downstream_count < c
        },
    decreases rs.len(),
{
    if rs.len() > 0 {
        let p = rs.drop_last();
        law_unblocker_is_the_largest(p);
        assert forall|k: int| 0 <= k < p.len() implies #[trigger] p[k] == rs[k] by {}
        let r = rs[rs.len() - 1];
        assert(r == rs.last());
        assert forall|k: int| 0 <= k < rs.len() && best_unblocker(rs) is None implies (#[trigger] rs[k]).downstream_count == 0 by {
            if k < p.len() {
                assert(rs[k] == p[k]);
            }
        }
        if forall|k: int| 0 <= k < rs.len() ==> (#[trigger] rs[k]).downstream_count == 0 {
            assert forall|k: int| 0 <= k < p.len() implies (#[trigger] p[k]).downstream_count == 0 by {
                assert(rs[k] == p[k]);
            }
            assert(rs[rs.len() - 1].downstream_count == 0);
        }
        if let Some((c, id)) = best_unblocker(rs) {
            assert forall|k: int| 0 <= k < rs.len() implies (#[trigger] rs[k]).downstream_count <= c by {
                if k < p.len() {
                    assert(rs[k] == p[k]);
                    assert(p[k].downstream_count <= 0 || best_unblocker(p) is Some);
                }
            }
        }
        match best_unblocker(rs) {
            Some((c, id)) => {
                if r.downstream_count > 0 && (best_unblocker(p) is None || r.downstream_count >= best_unblocker(p).unwrap().0) {
                    assert(rs[rs.len() - 1].id@ == id);
                } else {
                    let k = choose|k: int|
                        0 <= k < p.len() && (#[trigger] p[k]).id@ == id && p[k].downstream_count == c && forall|j: int|
                            k < j < p.len() ==> (#[trigger] p[j]).downstream_count < c;
                    assert(rs[k] == p[k]);
                    assert forall|j: int| k < j < rs.len() implies (#[trigger] rs[j]).downstream_count < c by {
                        if j < p.len() {
                            assert(rs[j] == p[j]);
                        }
                    }
                }
            },
            None => {},
        }
    }
}

/// Without strict phases, recommendations come highest score first, and
/// among equal scores in ascending id order: no recommendation ranks above
/// one with a higher score, or above one with the same score and a smaller
/// id.
pub proof fn law_recommendations_by_score_then_id(ts: Seq<Task>, order: Seq<Seq<char>>, opts: Options, r: NextReport)
    requires
        !opts.strict_phases,
        exists|m: Seq<(Seq<char>, nat)>| #[trigger] depths_ok(ts, m) && report_for(ts, m, order, opts, r),
    ensures
        forall|a: int, b: int|
            0 <= a < b < r.recommendations.len() ==> (#[trigger] r.recommendations@[a]).score
                >= (#[trigger] r.recommendations@[b]).score && (r.recommendations@[a].score
                == r.recommendations@[b].score ==> !text_lt(r.recommendations@[b].id@, r.recommendations@[a].id@)),
{
    let m = choose|m: Seq<(Seq<char>, nat)>| #[trigger] depths_ok(ts, m) && report_for(ts, m, order, opts, r);
    let lt = rec_before(ts, m, order, opts.strict_phases);
    let cands = candidates(ts, m, opts, ts.len() as int);
    let bc = blocked_candidates(ts, ts.len() as int);
    let (sel, bsel) = choose|sel: Seq<int>, bsel: Seq<int>|
        #![trigger sorted_by(lt, cands, sel), sorted_by(id_before(ts), bc, bsel)]
        {
            &&& sorted_by(lt, cands, sel)
            &&& r.recommendations.len() == (if sel.len() < effective_limit(opts) {
                sel.len() as int
            } else {
                effective_limit(opts)
            })
            &&& forall|k: int|
                0 <= k < r.recommendations.len() ==> rec_matches(ts, m, order, #[trigger] r.recommendations@[k], k, sel[k])
            &&& sorted_by(id_before(ts), bc, bsel)
            &&& r.blocked.len() == bsel.len()
            &&& forall|k: int| 0 <= k < r.blocked.len() ==> blocked_matches(ts, #[trigger] r.blocked@[k], bsel[k])
            &&& opt_text(r.suggested_unblocker) == (match best_unblocker(r.recommendations@) {
                Some(b) => Some(b.1),
                None => None,
            })
        };
    assert forall|a: int, b: int| 0 <= a < b < r.recommendations.len() implies (#[trigger] r.recommendations@[a]).score
        >= (#[trigger] r.recommendations@[b]).score && (r.recommendations@[a].score == r.recommendations@[b].score
        ==> !text_lt(r.recommendations@[b].id@, r.recommendations@[a].id@)) by {
        assert(rec_matches(ts, m, order, r.recommendations@[a], a, sel[a]));
        assert(rec_matches(ts, m, order, r.recommendations@[b], b, sel[b]));
        assert(lt(sel[a], sel[b]));
        let ia = ts[sel[a]].id_spec();
        let ib = ts[sel[b]].id_spec();
        if ia == ib {
            lemma_text_lt_irrefl(ia);
        } else if text_lt(ia, ib) {
            lemma_text_lt_asym(ia, ib);
        }
    }
}

} // verus!
