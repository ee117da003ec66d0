//! Dependency graph and parent hierarchy over a set of tasks.
//!
//! A task is ready only when every dependency exists and is `completed` (a
//! `cancelled` dependency does not count). `parent` is hierarchy only. Where
//! several files carry one id, the first wins.

use vstd::prelude::*;

use crate::taskmd::model::{Status, Task};
use crate::taskmd::store::first_with_id;
use crate::text::{
    contains_str, opt_text, lemma_text_lt_asym, lemma_text_lt_total, lemma_text_lt_trans, str_eq, text_less,
    text_lt, texts,
};

verus! {

/// A cycle or reference defect found in the graph.
#[derive(Debug, Clone, PartialEq)]
pub enum GraphIssue {
    /// `task` depends on `missing`, which no task carries as id.
    DanglingDependency { task: String, missing: String },
    /// A dependency cycle, in walk order.
    DependencyCycle { ids: Vec<String> },
    /// `task` names a `parent` that does not exist.
    MissingParent { task: String, parent: String },
    /// `task` is its own parent.
    SelfParent { task: String },
    /// A cycle in the parent chain, in walk order.
    ParentCycle { ids: Vec<String> },
}

/// The tasks that ids resolve to (first file per id), skipping unknown ids.
pub open spec fn resolve(ts: Seq<Task>, ids: Seq<Seq<char>>) -> Seq<Task>
    decreases ids.len(),
{
    if ids.len() == 0 {
        Seq::empty()
    } else {
        let rest = resolve(ts, ids.drop_last());
        match first_with_id(ts, ids.last()) {
            Some(i) => rest.push(ts[i]),
            None => rest,
        }
    }
}

/// The task an id resolves to exists and is completed.
pub open spec fn done_dep(ts: Seq<Task>, dep: Seq<char>) -> bool {
    match first_with_id(ts, dep) {
        Some(i) => ts[i].effective_status_spec() == Status::Completed,
        None => false,
    }
}

/// Every dependency exists and is completed.
pub open spec fn ready_spec(ts: Seq<Task>, deps: Seq<Seq<char>>) -> bool {
    forall|k: int| 0 <= k < deps.len() ==> #[trigger] done_dep(ts, deps[k])
}

/// The existing dependencies that are not completed, in order.
pub open spec fn blockers_spec(ts: Seq<Task>, deps: Seq<Seq<char>>) -> Seq<Task>
    decreases deps.len(),
{
    if deps.len() == 0 {
        Seq::empty()
    } else {
        let rest = blockers_spec(ts, deps.drop_last());
        match first_with_id(ts, deps.last()) {
            Some(i) => if ts[i].effective_status_spec() != Status::Completed {
                rest.push(ts[i])
            } else {
                rest
            },
            None => rest,
        }
    }
}

/// `x` repeated once per occurrence of `id` in `deps`.
pub open spec fn per_mention(deps: Seq<Seq<char>>, id: Seq<char>, x: Seq<char>) -> Seq<Seq<char>>
    decreases deps.len(),
{
    if deps.len() == 0 {
        Seq::empty()
    } else {
        let rest = per_mention(deps.drop_last(), id, x);
        if deps.last() == id {
            rest.push(x)
        } else {
            rest
        }
    }
}

/// Ids of the tasks that list `id` as a dependency, in task order, once per
/// mention.
pub open spec fn dependent_ids(ts: Seq<Task>, id: Seq<char>) -> Seq<Seq<char>>
    decreases ts.len(),
{
    if ts.len() == 0 {
        Seq::empty()
    } else {
        dependent_ids(ts.drop_last(), id) + per_mention(ts.last().list("dependencies"@), id, ts.last().id_spec())
    }
}

/// The tasks whose `parent` is `id`, in order.
pub open spec fn children_spec(ts: Seq<Task>, id: Seq<char>) -> Seq<Task>
    decreases ts.len(),
{
    if ts.len() == 0 {
        Seq::empty()
    } else {
        let rest = children_spec(ts.drop_last(), id);
        if ts.last().text("parent"@) == Some(id) {
            rest.push(ts.last())
        } else {
            rest
        }
    }
}

/// The tasks a list of references points at.
pub open spec fn derefs(v: Seq<&Task>) -> Seq<Task> {
    v.map_values(|t: &Task| *t)
}

/// An edge `a -> b`: task `b` lists `a` as a dependency (`b` waits on `a`).
pub open spec fn dep_edge(ts: Seq<Task>, a: Seq<char>, b: Seq<char>) -> bool {
    dependent_ids(ts, a).contains(b)
}

/// A walk of one or more edges.
pub open spec fn is_walk(ts: Seq<Task>, p: Seq<Seq<char>>) -> bool {
    p.len() >= 2 && forall|k: int| 0 <= k < p.len() - 1 ==> #[trigger] dep_edge(ts, p[k], p[k + 1])
}

/// `b` can be reached from `a` along one or more edges.
pub open spec fn reaches(ts: Seq<Task>, a: Seq<char>, b: Seq<char>) -> bool {
    exists|p: Seq<Seq<char>>| #[trigger] is_walk(ts, p) && p[0] == a && p.last() == b
}

/// Everything a set of ids reaches in one step stays in it.
pub open spec fn step_closed(ts: Seq<Task>, xs: Set<Seq<char>>) -> bool {
    forall|x: Seq<char>, y: Seq<char>| xs.contains(x) && #[trigger] dep_edge(ts, x, y) ==> xs.contains(y)
}

/// The ids of all tasks.
pub open spec fn all_ids(ts: Seq<Task>) -> Set<Seq<char>> {
    ts.map_values(|t: Task| t.id_spec()).to_set()
}

proof fn lemma_per_mention_only(deps: Seq<Seq<char>>, id: Seq<char>, x: Seq<char>, y: Seq<char>)
    requires
        per_mention(deps, id, x).contains(y),
    ensures
        y == x,
    decreases deps.len(),
{
    if deps.len() > 0 {
        let rest = per_mention(deps.drop_last(), id, x);
        if deps.last() == id {
            if y != x {
                let k = choose|k: int| 0 <= k < per_mention(deps, id, x).len() && per_mention(deps, id, x)[k] == y;
                assert(per_mention(deps, id, x)[k] == rest[k]);
                lemma_per_mention_only(deps.drop_last(), id, x, y);
            }
        } else {
            lemma_per_mention_only(deps.drop_last(), id, x, y);
        }
    }
}

/// Every dependent is the id of some task.
proof fn lemma_dependents_are_ids(ts: Seq<Task>, a: Seq<char>, y: Seq<char>)
    requires
        dependent_ids(ts, a).contains(y),
    ensures
        all_ids(ts).contains(y),
    decreases ts.len(),
{
    let prev = dependent_ids(ts.drop_last(), a);
    let extra = per_mention(ts.last().list("dependencies"@), a, ts.last().id_spec());
    let all = dependent_ids(ts, a);
    let k = choose|k: int| 0 <= k < all.len() && all[k] == y;
    let names = ts.map_values(|t: Task| t.id_spec());
    if k < prev.len() {
        assert(all[k] == prev[k]);
        lemma_dependents_are_ids(ts.drop_last(), a, y);
        let names0 = ts.drop_last().map_values(|t: Task| t.id_spec());
        let j = choose|j: int| 0 <= j < names0.len() && names0[j] == y;
        assert(names[j] == names0[j]);
    } else {
        assert(all[k] == extra[k - prev.len()]);
        lemma_per_mention_only(ts.last().list("dependencies"@), a, ts.last().id_spec(), y);
        assert(names[ts.len() - 1] == y);
    }
}

/// Everything in a step-closed set holding `a` covers all `a` reaches.
proof fn lemma_closed_covers(ts: Seq<Task>, xs: Set<Seq<char>>, a: Seq<char>, p: Seq<Seq<char>>, n: int)
    requires
        step_closed(ts, xs),
        xs.contains(a),
        is_walk(ts, p),
        p[0] == a,
        0 <= n < p.len(),
    ensures
        xs.contains(p[n]),
    decreases n,
{
    if n > 0 {
        lemma_closed_covers(ts, xs, a, p, n - 1);
        let k = n - 1;
        assert(dep_edge(ts, p[k], p[k + 1]));
    }
}

/// Graph over borrowed tasks; all queries are by id.
pub struct Graph<'a> {
    tasks: &'a [Task],
}

impl<'a> Graph<'a> {
    /// The tasks the graph is over, in order.
    pub closed spec fn tasks_spec(self) -> Seq<Task> {
        self.tasks@
    }

    pub fn build(tasks: &'a [Task]) -> (r: Graph<'a>)
        ensures
            r.tasks_spec() == tasks@,
    {
        Graph { tasks }
    }

    /// The task with this id (the first file carrying it).
    pub fn get(&self, id: &str) -> (r: Option<&'a Task>)
        ensures
            match first_with_id(self.tasks_spec(), id@) {
                Some(i) => r == Some(&self.tasks_spec()[i]),
                None => r is None,
            },
    {
        let mut i: usize = 0;
        assert(self.tasks@.skip(0) =~= self.tasks@);
        while i < self.tasks.len()
            invariant
                i <= self.tasks.len(),
                first_with_id(self.tasks@, id@) == (match first_with_id(self.tasks@.skip(i as int), id@) {
                    Some(k) => Some(k + i),
                    None => None,
                }),
            decreases self.tasks.len() - i,
        {
            assert(self.tasks@.skip(i as int).drop_first() =~= self.tasks@.skip(i + 1));
            if str_eq(self.tasks[i].id().as_str(), id) {
                return Some(&self.tasks[i]);
            }
            i += 1;
        }
        None
    }

    /// Ready: every dependency exists and is `completed`. A dangling or a
    /// cancelled dependency keeps a task unready.
    pub fn is_ready(&self, task: &Task) -> (r: bool)
        ensures
            r == ready_spec(self.tasks_spec(), task.list("dependencies"@)),
    {
        let deps = task.dependencies();
        let ghost ds = texts(deps@);
        let mut k: usize = 0;
        while k < deps.len()
            invariant
                k <= deps.len(),
                ds == texts(deps@),
                ds == task.list("dependencies"@),
                forall|j: int| 0 <= j < k ==> #[trigger] done_dep(self.tasks_spec(), ds[j]),
            decreases deps.len() - k,
        {
            assert(ds[k as int] == deps@[k as int]@);
            match self.get(deps[k].as_str()) {
                Some(d) => {
                    if d.effective_status() != Status::Completed {
                        assert(!done_dep(self.tasks_spec(), ds[k as int]));
                        return false;
                    }
                },
                None => {
                    assert(!done_dep(self.tasks_spec(), ds[k as int]));
                    return false;
                },
            }
            k += 1;
        }
        true
    }

    /// The open dependencies blocking a task (missing ids are not blockers).
    pub fn blockers(&self, task: &Task) -> (r: Vec<&'a Task>)
        ensures
            derefs(r@) == blockers_spec(self.tasks_spec(), task.list("dependencies"@)),
    {
        let deps = task.dependencies();
        let ghost ds = texts(deps@);
        let mut out: Vec<&'a Task> = Vec::new();
        let mut k: usize = 0;
        assert(derefs(out@) =~= Seq::<Task>::empty());
        while k < deps.len()
            invariant
                k <= deps.len(),
                ds == texts(deps@),
                derefs(out@) == blockers_spec(self.tasks_spec(), ds.take(k as int)),
            decreases deps.len() - k,
        {
            assert(ds.take(k + 1).drop_last() =~= ds.take(k as int));
            assert(ds.take(k + 1).last() == deps@[k as int]@);
            match self.get(deps[k].as_str()) {
                Some(d) => {
                    if d.effective_status() != Status::Completed {
                        out.push(d);
                        assert(derefs(out@) =~= blockers_spec(self.tasks_spec(), ds.take(k + 1)));
                    } else {
                        assert(derefs(out@) =~= blockers_spec(self.tasks_spec(), ds.take(k + 1)));
                    }
                },
                None => {},
            }
            k += 1;
        }
        assert(ds.take(deps.len() as int) =~= ds);
        out
    }

    /// The ids of tasks listing `id` as a dependency (see [`dependent_ids`]).
    fn dependents_of(&self, id: &str) -> (r: Vec<String>)
        ensures
            texts(r@) == dependent_ids(self.tasks_spec(), id@),
    {
        let mut out: Vec<String> = Vec::new();
        let mut i: usize = 0;
        while i < self.tasks.len()
            invariant
                i <= self.tasks.len(),
                texts(out@) == dependent_ids(self.tasks@.take(i as int), id@),
            decreases self.tasks.len() - i,
        {
            assert(self.tasks@.take(i + 1).drop_last() =~= self.tasks@.take(i as int));
            let t = &self.tasks[i];
            let deps = t.dependencies();
            let tid = t.id();
            let ghost base = texts(out@);
            let ghost ds = texts(deps@);
            let mut k: usize = 0;
            while k < deps.len()
                invariant
                    k <= deps.len(),
                    ds == texts(deps@),
                    texts(out@) == base + per_mention(ds.take(k as int), id@, tid@),
                decreases deps.len() - k,
            {
                assert(ds.take(k + 1).drop_last() =~= ds.take(k as int));
                assert(ds.take(k + 1).last() == deps@[k as int]@);
                if str_eq(deps[k].as_str(), id) {
                    let ghost before = texts(out@);
                    let c = tid.clone();
                    out.push(c);
                    assert(texts(out@) =~= before.push(tid@));
                    assert(per_mention(ds.take(k + 1), id@, tid@) == per_mention(ds.take(k as int), id@, tid@).push(tid@));
                    assert(texts(out@) =~= base + per_mention(ds.take(k + 1), id@, tid@));
                } else {
                    assert(texts(out@) =~= base + per_mention(ds.take(k + 1), id@, tid@));
                }
                k += 1;
            }
            assert(ds.take(deps.len() as int) =~= ds);
            assert(self.tasks@.take(i + 1).last() == *t);
            i += 1;
        }
        assert(self.tasks@.take(self.tasks.len() as int) =~= self.tasks@);
        out
    }

    /// Direct dependents of a task: the tasks listing it in `dependencies`.
    pub fn direct_dependents(&self, id: &str) -> (r: Vec<&'a Task>)
        ensures
            derefs(r@) == resolve(self.tasks_spec(), dependent_ids(self.tasks_spec(), id@)),
    {
        let ids = self.dependents_of(id);
        let ghost is = texts(ids@);
        let mut out: Vec<&'a Task> = Vec::new();
        let mut k: usize = 0;
        assert(derefs(out@) =~= Seq::<Task>::empty());
        while k < ids.len()
            invariant
                k <= ids.len(),
                is == texts(ids@),
                derefs(out@) == resolve(self.tasks_spec(), is.take(k as int)),
            decreases ids.len() - k,
        {
            assert(is.take(k + 1).drop_last() =~= is.take(k as int));
            assert(is.take(k + 1).last() == ids@[k as int]@);
            match self.get(ids[k].as_str()) {
                Some(t) => {
                    out.push(t);
                    assert(derefs(out@) =~= resolve(self.tasks_spec(), is.take(k + 1)));
                },
                None => {},
            }
            k += 1;
        }
        assert(is.take(ids.len() as int) =~= is);
        out
    }

    /// Children of a task in the `parent` hierarchy.
    pub fn children(&self, id: &str) -> (r: Vec<&'a Task>)
        ensures
            derefs(r@) == children_spec(self.tasks_spec(), id@),
    {
        let mut out: Vec<&'a Task> = Vec::new();
        let mut i: usize = 0;
        assert(derefs(out@) =~= Seq::<Task>::empty());
        while i < self.tasks.len()
            invariant
                i <= self.tasks.len(),
                derefs(out@) == children_spec(self.tasks@.take(i as int), id@),
            decreases self.tasks.len() - i,
        {
            assert(self.tasks@.take(i + 1).drop_last() =~= self.tasks@.take(i as int));
            assert(self.tasks@.take(i + 1).last() == self.tasks@[i as int]);
            let is_child = match self.tasks[i].parent() {
                Some(p) => str_eq(p.as_str(), id),
                None => false,
            };
            if is_child {
                out.push(&self.tasks[i]);
                assert(derefs(out@) =~= children_spec(self.tasks@.take(i + 1), id@));
            }
            i += 1;
        }
        assert(self.tasks@.take(self.tasks.len() as int) =~= self.tasks@);
        out
    }
}

/// One more edge extends what `a` reaches.
proof fn lemma_reach_step(ts: Seq<Task>, a: Seq<char>, c: Seq<char>, d: Seq<char>)
    requires
        c == a || reaches(ts, a, c),
        dep_edge(ts, c, d),
    ensures
        reaches(ts, a, d),
{
    if c == a {
        let p = seq![a, d];
        assert(dep_edge(ts, p[0], p[1]));
        assert(is_walk(ts, p));
    } else {
        let p = choose|p: Seq<Seq<char>>| #[trigger] is_walk(ts, p) && p[0] == a && p.last() == c;
        let q = p.push(d);
        assert forall|k: int| 0 <= k < q.len() - 1 implies #[trigger] dep_edge(ts, q[k], q[k + 1]) by {
            if k < p.len() - 1 {
                assert(q[k] == p[k] && q[k + 1] == p[k + 1]);
                assert(dep_edge(ts, p[k], p[k + 1]));
            } else {
                assert(q[k] == c && q[k + 1] == d);
            }
        }
        assert(is_walk(ts, q));
        assert(q[0] == a && q.last() == d);
    }
}

/// A list without repeats inside a finite set is no longer than the set.
pub proof fn lemma_distinct_within(xs: Seq<Seq<char>>, u: Set<Seq<char>>)
    requires
        xs.no_duplicates(),
        u.finite(),
        forall|x: Seq<char>| xs.contains(x) ==> u.contains(x),
    ensures
        xs.len() <= u.len(),
{
    xs.unique_seq_to_set();
    assert(xs.to_set().subset_of(u));
    vstd::set_lib::lemma_len_subset(xs.to_set(), u);
}

impl<'a> Graph<'a> {
    /// Ids of all tasks that transitively depend on this one: everything it
    /// reaches along dependency edges, itself excluded, each id once.
    /// Cycle-safe.
    pub fn downstream_ids(&self, id: &str) -> (r: Vec<String>)
        ensures
            texts(r@).no_duplicates(),
            !texts(r@).contains(id@),
            forall|x: Seq<char>| texts(r@).contains(x) ==> reaches(self.tasks_spec(), id@, x),
            step_closed(self.tasks_spec(), texts(r@).to_set().insert(id@)),
    {
        let ghost ts = self.tasks_spec();
        let ghost u = all_ids(ts);
        let ghost a = id@;
        let mut seen: Vec<String> = Vec::new();
        let mut stack: Vec<String> = Vec::new();
        stack.push(id.to_owned());
        proof {
            vstd::seq_lib::seq_to_set_is_finite(ts.map_values(|t: Task| t.id_spec()));
            assert(texts(seen@) =~= Seq::<Seq<char>>::empty());
            assert(texts(stack@) =~= seq![a]);
            assert(texts(stack@)[0] == a);
        }
        while stack.len() > 0
            invariant
                ts == self.tasks_spec(),
                u == all_ids(ts),
                a == id@,
                u.finite(),
                texts(seen@).no_duplicates(),
                forall|x: Seq<char>| #[trigger] texts(seen@).contains(x) ==> u.contains(x) && reaches(ts, a, x),
                forall|j: int| 0 <= j < stack.len() ==> (#[trigger] stack@[j])@ == a || texts(seen@).contains(stack@[j]@),
                forall|x: Seq<char>, y: Seq<char>|
                    (x == a || texts(seen@).contains(x)) && #[trigger] dep_edge(ts, x, y) ==> texts(seen@).contains(y)
                        || texts(stack@).contains(x),
            decreases u.len() - texts(seen@).len(), stack.len(),
        {
            proof {
                lemma_distinct_within(texts(seen@), u);
            }
            let ghost stack0 = texts(stack@);
            let ghost seen_start = seen@.len();
            let ghost stack_start = stack@.len();
            assert(stack0.len() == stack_start);
            let cur = stack.pop().unwrap();
            let ghost c = cur@;
            let ghost seen0 = texts(seen@);
            let ghost popped = stack.len();
            proof {
                assert(stack0.last() == c);
                assert(stack0 =~= texts(stack@).push(c));
                assert(stack0[stack0.len() - 1] == c);
                assert(c == a || seen0.contains(c));
            }
            let ds = self.dependents_of(cur.as_str());
            let mut k: usize = 0;
            while k < ds.len()
                invariant
                    ts == self.tasks_spec(),
                    u == all_ids(ts),
                    a == id@,
                    u.finite(),
                    k <= ds.len(),
                    texts(ds@) == dependent_ids(ts, c),
                    c == a || seen0.contains(c),
                    forall|x: Seq<char>| seen0.contains(x) ==> #[trigger] texts(seen@).contains(x),
                    texts(seen@).len() + popped == stack.len() + seen0.len(),
                    popped <= stack.len(),
                    texts(seen@).no_duplicates(),
                    forall|x: Seq<char>| #[trigger] texts(seen@).contains(x) ==> u.contains(x) && reaches(ts, a, x),
                    forall|j: int| 0 <= j < stack.len() ==> (#[trigger] stack@[j])@ == a || texts(seen@).contains(stack@[j]@),
                    forall|j: int| 0 <= j < k ==> texts(seen@).contains(#[trigger] texts(ds@)[j]),
                    forall|x: Seq<char>, y: Seq<char>|
                        (x == a || texts(seen@).contains(x)) && #[trigger] dep_edge(ts, x, y) ==> texts(seen@).contains(y)
                            || texts(stack@).contains(x) || x == c,
                decreases ds.len() - k,
            {
                let d = &ds[k];
                assert(texts(ds@)[k as int] == d@);
                if !contains_str(&seen, d.as_str()) {
                    proof {
                        assert(dependent_ids(ts, c).contains(d@));
                        assert(dep_edge(ts, c, d@));
                        lemma_dependents_are_ids(ts, c, d@);
                        lemma_reach_step(ts, a, c, d@);
                    }
                    let ghost before = texts(seen@);
                    let ghost sbefore = texts(stack@);
                    seen.push(d.clone());
                    stack.push(d.clone());
                    proof {
                        assert(texts(seen@) =~= before.push(d@));
                        assert(texts(stack@) =~= sbefore.push(d@));
                        assert forall|x: Seq<char>| #[trigger] texts(seen@).contains(x) implies u.contains(x) && reaches(ts, a, x) by {
                            if x != d@ {
                                let j = choose|j: int| 0 <= j < texts(seen@).len() && texts(seen@)[j] == x;
                                assert(j < before.len());
                                assert(before[j] == x);
                                assert(before.contains(x));
                            }
                        }
                        assert forall|x: Seq<char>| seen0.contains(x) implies #[trigger] texts(seen@).contains(x) by {
                            assert(before.contains(x));
                            let j = choose|j: int| 0 <= j < before.len() && before[j] == x;
                            assert(texts(seen@)[j] == x);
                        }
                        assert forall|j: int| 0 <= j < stack.len() implies (#[trigger] stack@[j])@ == a || texts(seen@).contains(stack@[j]@) by {
                            if j < stack.len() - 1 {
                                assert(stack@[j]@ == sbefore[j]);
                                if stack@[j]@ != a {
                                    assert(before.contains(stack@[j]@));
                                    let i = choose|i: int| 0 <= i < before.len() && before[i] == stack@[j]@;
                                    assert(texts(seen@)[i] == stack@[j]@);
                                }
                            } else {
                                assert(texts(seen@)[texts(seen@).len() - 1] == d@);
                            }
                        }
                        assert forall|j: int| 0 <= j < k + 1 implies texts(seen@).contains(#[trigger] texts(ds@)[j]) by {
                            if j < k {
                                assert(before.contains(texts(ds@)[j]));
                                let i = choose|i: int| 0 <= i < before.len() && before[i] == texts(ds@)[j];
                                assert(texts(seen@)[i] == texts(ds@)[j]);
                            } else {
                                assert(texts(seen@)[texts(seen@).len() - 1] == d@);
                            }
                        }
                        assert forall|x: Seq<char>, y: Seq<char>|
                            (x == a || texts(seen@).contains(x)) && #[trigger] dep_edge(ts, x, y) implies texts(seen@).contains(y)
                                || texts(stack@).contains(x) || x == c by {
                            if x == d@ {
                                assert(texts(stack@)[texts(stack@).len() - 1] == d@);
                            } else {
                                if x != a {
                                    let j = choose|j: int| 0 <= j < texts(seen@).len() && texts(seen@)[j] == x;
                                    assert(before[j] == x);
                                }
                                if before.contains(y) {
                                    let i = choose|i: int| 0 <= i < before.len() && before[i] == y;
                                    assert(texts(seen@)[i] == y);
                                } else if sbefore.contains(x) {
                                    let i = choose|i: int| 0 <= i < sbefore.len() && sbefore[i] == x;
                                    assert(texts(stack@)[i] == x);
                                }
                            }
                        }
                    }
                } else {
                    proof {
                        assert forall|j: int| 0 <= j < k + 1 implies texts(seen@).contains(#[trigger] texts(ds@)[j]) by {
                            if j == k {
                                assert(texts(ds@)[j] == d@);
                            }
                        }
                    }
                }
                k += 1;
            }
            proof {
                assert forall|x: Seq<char>, y: Seq<char>|
                    (x == a || texts(seen@).contains(x)) && #[trigger] dep_edge(ts, x, y) implies texts(seen@).contains(y)
                        || texts(stack@).contains(x) by {
                    if x == c {
                        assert(dependent_ids(ts, c).contains(y));
                        let j = choose|j: int| 0 <= j < texts(ds@).len() && texts(ds@)[j] == y;
                    }
                }
                lemma_distinct_within(texts(seen@), u);
                assert(texts(seen@).len() > seen0.len() || stack.len() < stack0.len());
                assert(texts(seen@).len() <= u.len());
                assert(stack0.len() == stack.len() + 1 || texts(seen@).len() > seen0.len());
            }
        }
        let ghost fin = texts(seen@);
        let mut out: Vec<String> = Vec::new();
        let mut i: usize = 0;
        proof {
            assert(texts(out@) =~= Seq::<Seq<char>>::empty());
        }
        while i < seen.len()
            invariant
                i <= seen.len(),
                fin == texts(seen@),
                fin.no_duplicates(),
                texts(out@).no_duplicates(),
                forall|x: Seq<char>| #[trigger] texts(out@).contains(x) <==> (fin.take(i as int).contains(x) && x != id@),
            decreases seen.len() - i,
        {
            let ghost before = texts(out@);
            assert(fin.take(i + 1) =~= fin.take(i as int).push(fin[i as int]));
            if !str_eq(seen[i].as_str(), id) {
                out.push(seen[i].clone());
                proof {
                    assert(texts(out@) =~= before.push(fin[i as int]));
                    assert(!fin.take(i as int).contains(fin[i as int]));
                    assert(!before.contains(fin[i as int]));
                    assert(fin[i as int] == seen@[i as int]@);
                    assert(fin[i as int] != id@);
                    assert forall|x: Seq<char>| #[trigger] texts(out@).contains(x) <==> (fin.take(i + 1).contains(x) && x != id@) by {
                        let t1 = fin.take(i + 1);
                        let t0 = fin.take(i as int);
                        if texts(out@).contains(x) && x != fin[i as int] {
                            let j = choose|j: int| 0 <= j < texts(out@).len() && texts(out@)[j] == x;
                            assert(before[j] == x);
                            assert(before.contains(x));
                            assert(t0.contains(x));
                            let m = choose|m: int| 0 <= m < t0.len() && #[trigger] t0[m] == x;
                            assert(t1[m] == x);
                        }
                        if x == fin[i as int] {
                            assert(t1[i as int] == x);
                        }
                        if t1.contains(x) && x != id@ && x != fin[i as int] {
                            let j = choose|j: int| 0 <= j < t1.len() && #[trigger] t1[j] == x;
                            assert(fin.take(i as int)[j] == x);
                            assert(before.contains(x));
                            let m = choose|m: int| 0 <= m < before.len() && before[m] == x;
                            assert(texts(out@)[m] == x);
                        }
                        if x == fin[i as int] {
                            assert(texts(out@)[texts(out@).len() - 1] == x);
                        }
                    }
                }
            } else {
                proof {
                    assert forall|x: Seq<char>| #[trigger] texts(out@).contains(x) <==> (fin.take(i + 1).contains(x) && x != id@) by {
                        let t1 = fin.take(i + 1);
                        let t0 = fin.take(i as int);
                        if t1.contains(x) && x != id@ {
                            let j = choose|j: int| 0 <= j < t1.len() && #[trigger] t1[j] == x;
                            if j < i {
                                assert(t0[j] == x);
                            }
                        }
                        if texts(out@).contains(x) {
                            let j = choose|j: int| 0 <= j < t0.len() && #[trigger] t0[j] == x;
                            assert(t1[j] == x);
                        }
                    }
                }
            }
            i += 1;
        }
        proof {
            assert(fin.take(fin.len() as int) =~= fin);
            let rs = texts(out@).to_set().insert(a);
            assert forall|x: Seq<char>, y: Seq<char>| rs.contains(x) && #[trigger] dep_edge(ts, x, y) implies rs.contains(y) by {
                if x != a {
                    assert(texts(out@).contains(x));
                }
                if y != a {
                    assert(fin.contains(y));
                    assert(texts(out@).contains(y));
                }
            }
        }
        out
    }

    /// How many tasks this one transitively unblocks.
    pub fn downstream_count(&self, id: &str) -> (r: usize)
        ensures
            exists|ids: Seq<Seq<char>>|
                ids.len() == r && ids.no_duplicates() && !ids.contains(id@) && (forall|x: Seq<char>|
                    ids.contains(x) ==> reaches(self.tasks_spec(), id@, x)) && #[trigger] step_closed(
                    self.tasks_spec(),
                    ids.to_set().insert(id@),
                ),
    {
        let ids = self.downstream_ids(id);
        assert(step_closed(self.tasks_spec(), texts(ids@).to_set().insert(id@)));
        ids.len()
    }
}

/// The downstream set is exactly what the task reaches: a step-closed set
/// holding the task contains everything it reaches, and the downstream ids
/// are reached themselves.
pub proof fn law_downstream_exact(ts: Seq<Task>, a: Seq<char>, ids: Seq<Seq<char>>, b: Seq<char>)
    requires
        !ids.contains(a),
        forall|x: Seq<char>| ids.contains(x) ==> reaches(ts, a, x),
        step_closed(ts, ids.to_set().insert(a)),
    ensures
        ids.contains(b) <==> (reaches(ts, a, b) && b != a),
{
    if reaches(ts, a, b) && b != a {
        let p = choose|p: Seq<Seq<char>>| #[trigger] is_walk(ts, p) && p[0] == a && p.last() == b;
        lemma_closed_covers(ts, ids.to_set().insert(a), a, p, p.len() - 1);
        assert(ids.to_set().insert(a).contains(b));
    }
}

// ---------------------------------------------------------------------------
// Ordering by id

/// `i` sorts before `j`: by id, equal ids keeping file order.
pub open spec fn key_before(ts: Seq<Task>, i: int, j: int) -> bool {
    text_lt(ts[i].id_spec(), ts[j].id_spec()) || (ts[i].id_spec() == ts[j].id_spec() && i < j)
}

/// `p` lists every task index once, sorted by id (a stable sort).
pub open spec fn id_sorted(ts: Seq<Task>, p: Seq<int>) -> bool {
    &&& p.len() == ts.len()
    &&& forall|k: int| 0 <= k < p.len() ==> 0 <= #[trigger] p[k] < ts.len()
    &&& forall|i: int| 0 <= i < ts.len() ==> #[trigger] p.contains(i)
    &&& forall|a: int, b: int| 0 <= a < b < p.len() ==> key_before(ts, #[trigger] p[a], #[trigger] p[b])
}

pub open spec fn ints(v: Seq<usize>) -> Seq<int> {
    v.map_values(|k: usize| k as int)
}

proof fn lemma_key_before_weak(ts: Seq<Task>, x: int, y: int)
    requires
        key_before(ts, x, y),
    ensures
        text_lt(ts[x].id_spec(), ts[y].id_spec()) || ts[x].id_spec() == ts[y].id_spec(),
{
}

/// Inserting `i` where its id first sorts below keeps the order sorted.
proof fn lemma_insert_sorted(ts: Seq<Task>, r: Seq<int>, q: int, i: int)
    requires
        0 <= q <= r.len(),
        forall|a: int, b: int| 0 <= a < b < r.len() ==> key_before(ts, #[trigger] r[a], #[trigger] r[b]),
        forall|k: int| 0 <= k < r.len() ==> #[trigger] r[k] < i,
        forall|k: int| 0 <= k < q ==> !text_lt(ts[i].id_spec(), #[trigger] ts[r[k]].id_spec()),
        q < r.len() ==> text_lt(ts[i].id_spec(), ts[r[q]].id_spec()),
    ensures
        forall|a: int, b: int|
            0 <= a < b < r.insert(q, i).len() ==> key_before(ts, #[trigger] r.insert(q, i)[a], #[trigger] r.insert(q, i)[b]),
{
    let r2 = r.insert(q, i);
    assert forall|a: int, b: int| 0 <= a < b < r2.len() implies key_before(ts, #[trigger] r2[a], #[trigger] r2[b]) by {
        let ia = ts[i].id_spec();
        if a == q {
            let y = r[b - 1];
            assert(r2[b] == y);
            if b - 1 == q {
            } else {
                assert(key_before(ts, r[q], r[b - 1]));
                lemma_key_before_weak(ts, r[q], r[b - 1]);
                if text_lt(ts[r[q]].id_spec(), ts[y].id_spec()) {
                    lemma_text_lt_trans(ia, ts[r[q]].id_spec(), ts[y].id_spec());
                }
            }
        } else if b == q {
            assert(r2[a] == r[a]);
            lemma_text_lt_total(ia, ts[r[a]].id_spec());
            assert(r[a] < i);
        } else {
            let ra = if a < q { r[a] } else { r[a - 1] };
            let rb = if b < q { r[b] } else { r[b - 1] };
            assert(r2[a] == ra);
            assert(r2[b] == rb);
            if a < q && b < q {
            } else if a < q {
                assert(key_before(ts, r[a], r[b - 1]));
            } else {
                assert(key_before(ts, r[a - 1], r[b - 1]));
            }
        }
    }
}

// ---------------------------------------------------------------------------
// Reference and cycle defects

/// One graph issue, mathematically.
pub enum IssueV {
    Dangling(Seq<char>, Seq<char>),
    DepCycle(Seq<Seq<char>>),
    MissingParent(Seq<char>, Seq<char>),
    SelfParent(Seq<char>),
    ParentCycle(Seq<Seq<char>>),
}

pub open spec fn issue_view(g: GraphIssue) -> IssueV {
    match g {
        GraphIssue::DanglingDependency { task, missing } => IssueV::Dangling(task@, missing@),
        GraphIssue::DependencyCycle { ids } => IssueV::DepCycle(texts(ids@)),
        GraphIssue::MissingParent { task, parent } => IssueV::MissingParent(task@, parent@),
        GraphIssue::SelfParent { task } => IssueV::SelfParent(task@),
        GraphIssue::ParentCycle { ids } => IssueV::ParentCycle(texts(ids@)),
    }
}

pub open spec fn issues_view(v: Seq<GraphIssue>) -> Seq<IssueV> {
    v.map_values(|g: GraphIssue| issue_view(g))
}

/// Some task carries this id.
pub open spec fn has_id(ts: Seq<Task>, x: Seq<char>) -> bool {
    first_with_id(ts, x) is Some
}

/// The task an id resolves to: the first file carrying it.
pub open spec fn task_of(ts: Seq<Task>, x: Seq<char>) -> Task {
    ts[first_with_id(ts, x).unwrap()]
}

/// `a` lists `b` as a dependency, and both exist.
pub open spec fn dep_step(ts: Seq<Task>, a: Seq<char>, b: Seq<char>) -> bool {
    has_id(ts, a) && has_id(ts, b) && task_of(ts, a).list("dependencies"@).contains(b)
}

/// `b` is the `parent` of `a`, and both exist.
pub open spec fn parent_step(ts: Seq<Task>, a: Seq<char>, b: Seq<char>) -> bool {
    has_id(ts, a) && has_id(ts, b) && task_of(ts, a).text("parent"@) == Some(b)
}

pub open spec fn dep_steps(ts: Seq<Task>, c: Seq<Seq<char>>) -> bool {
    forall|k: int| 0 <= k < c.len() - 1 ==> #[trigger] dep_step(ts, c[k], c[k + 1])
}

/// A closed walk along dependency steps (ids may repeat).
pub open spec fn closed_dep_walk(ts: Seq<Task>, c: Seq<Seq<char>>) -> bool {
    c.len() >= 1 && dep_steps(ts, c) && dep_step(ts, c.last(), c[0])
}

/// A dependency cycle through distinct tasks.
pub open spec fn is_dep_cycle(ts: Seq<Task>, c: Seq<Seq<char>>) -> bool {
    closed_dep_walk(ts, c) && c.no_duplicates()
}

/// A cycle of two or more distinct tasks in the parent chain.
pub open spec fn is_parent_cycle(ts: Seq<Task>, c: Seq<Seq<char>>) -> bool {
    &&& c.len() >= 2
    &&& c.no_duplicates()
    &&& forall|k: int| 0 <= k < c.len() - 1 ==> #[trigger] parent_step(ts, c[k], c[k + 1])
    &&& parent_step(ts, c.last(), c[0])
}

/// No two cycles share their set of ids.
pub open spec fn distinct_sets(cs: Seq<Seq<Seq<char>>>) -> bool {
    forall|i: int, j: int| 0 <= i < j < cs.len() ==> #[trigger] cs[i].to_set() != #[trigger] cs[j].to_set()
}

/// Dangling dependencies of one task, in dependency order.
pub open spec fn dangling_of(ts: Seq<Task>, id: Seq<char>, deps: Seq<Seq<char>>) -> Seq<IssueV>
    decreases deps.len(),
{
    if deps.len() == 0 {
        Seq::empty()
    } else {
        dangling_of(ts, id, deps.drop_last()) + if has_id(ts, deps.last()) {
            Seq::<IssueV>::empty()
        } else {
            seq![IssueV::Dangling(id, deps.last())]
        }
    }
}

/// Dangling dependencies of the tasks in `order`, task by task.
pub open spec fn dangling_in(ts: Seq<Task>, order: Seq<int>) -> Seq<IssueV>
    decreases order.len(),
{
    if order.len() == 0 {
        Seq::empty()
    } else {
        let t = ts[order.last()];
        dangling_in(ts, order.drop_last()) + dangling_of(ts, t.id_spec(), t.list("dependencies"@))
    }
}

/// A task's own parent defect: itself as parent, or a parent that does not
/// exist.
pub open spec fn parent_defect(ts: Seq<Task>, t: Task) -> Seq<IssueV> {
    match t.text("parent"@) {
        None => Seq::empty(),
        Some(p) => if p == t.id_spec() {
            seq![IssueV::SelfParent(t.id_spec())]
        } else if !has_id(ts, p) {
            seq![IssueV::MissingParent(t.id_spec(), p)]
        } else {
            Seq::empty()
        },
    }
}

pub open spec fn parents_in(ts: Seq<Task>, order: Seq<int>) -> Seq<IssueV>
    decreases order.len(),
{
    if order.len() == 0 {
        Seq::empty()
    } else {
        parents_in(ts, order.drop_last()) + parent_defect(ts, ts[order.last()])
    }
}

pub open spec fn as_dep_cycles(cs: Seq<Seq<Seq<char>>>) -> Seq<IssueV> {
    cs.map_values(|c: Seq<Seq<char>>| IssueV::DepCycle(c))
}

pub open spec fn as_parent_cycles(cs: Seq<Seq<Seq<char>>>) -> Seq<IssueV> {
    cs.map_values(|c: Seq<Seq<char>>| IssueV::ParentCycle(c))
}

/// Some listed cycle passes through `x`.
pub open spec fn on_some_cycle(cs: Seq<Seq<Seq<char>>>, x: Seq<char>) -> bool {
    exists|m: int| 0 <= m < cs.len() && #[trigger] cs[m].contains(x)
}

/// The dependency cycles reported: real, each id set once, and every closed
/// dependency walk passes through a task on some reported cycle (so each
/// separate cycle is reported, and none only when there is no cycle).
pub open spec fn dep_cycles_ok(ts: Seq<Task>, cs: Seq<Seq<Seq<char>>>) -> bool {
    &&& forall|k: int| 0 <= k < cs.len() ==> is_dep_cycle(ts, #[trigger] cs[k])
    &&& distinct_sets(cs)
    &&& forall|c: Seq<Seq<char>>|
        #[trigger] closed_dep_walk(ts, c) ==> exists|i: int| 0 <= i < c.len() && on_some_cycle(cs, #[trigger] c[i])
    &&& cs.len() == 0 ==> !exists|c: Seq<Seq<char>>| #[trigger] closed_dep_walk(ts, c)
}

/// The parent cycles reported: real, and every parent cycle's id set exactly
/// once.
pub open spec fn parent_cycles_ok(ts: Seq<Task>, cs: Seq<Seq<Seq<char>>>) -> bool {
    &&& forall|k: int| 0 <= k < cs.len() ==> is_parent_cycle(ts, #[trigger] cs[k])
    &&& distinct_sets(cs)
    &&& forall|c: Seq<Seq<char>>| #[trigger] is_parent_cycle(ts, c) ==> covered(cs, c)
}

/// Some listed cycle has the ids of `c`.
pub open spec fn covered(cs: Seq<Seq<Seq<char>>>, c: Seq<Seq<char>>) -> bool {
    exists|m: int| 0 <= m < cs.len() && #[trigger] cs[m].to_set() == c.to_set()
}

/// All defects, in order: dangling dependencies (tasks by id), dependency
/// cycles, self/missing parents (tasks by id), parent cycles.
pub open spec fn issues_ok(ts: Seq<Task>, v: Seq<IssueV>) -> bool {
    exists|p: Seq<int>, dc: Seq<Seq<Seq<char>>>, pc: Seq<Seq<Seq<char>>>|
        #![trigger id_sorted(ts, p), dep_cycles_ok(ts, dc), parent_cycles_ok(ts, pc)]
        id_sorted(ts, p) && dep_cycles_ok(ts, dc) && parent_cycles_ok(ts, pc) && v == dangling_in(ts, p)
            + as_dep_cycles(dc) + parents_in(ts, p) + as_parent_cycles(pc)
}

pub open spec fn cycles_view(v: Seq<Vec<String>>) -> Seq<Seq<Seq<char>>> {
    v.map_values(|c: Vec<String>| texts(c@))
}

/// Finish order as a ranking: a finished task's existing dependencies all
/// finished before it, unless a found cycle passes through that task.
pub open spec fn finished_ranked(ts: Seq<Task>, done: Seq<Seq<char>>, cs: Seq<Seq<Seq<char>>>) -> bool {
    forall|j: int, u: Seq<char>|
        0 <= j < done.len() && #[trigger] dep_step(ts, done[j], u) ==> done.take(j).contains(u) || on_some_cycle(
            cs,
            done[j],
        )
}

/// More cycles keep every task that was on a cycle on one.
proof fn lemma_cycles_grow(cs: Seq<Seq<Seq<char>>>, cs2: Seq<Seq<Seq<char>>>, x: Seq<char>)
    requires
        cs.len() <= cs2.len(),
        cs2.take(cs.len() as int) == cs,
        on_some_cycle(cs, x),
    ensures
        on_some_cycle(cs2, x),
{
    let m = choose|m: int| 0 <= m < cs.len() && #[trigger] cs[m].contains(x);
    assert(cs2.take(cs.len() as int)[m] == cs2[m]);
}

proof fn lemma_ranked_grow(ts: Seq<Task>, done: Seq<Seq<char>>, cs: Seq<Seq<Seq<char>>>, cs2: Seq<Seq<Seq<char>>>)
    requires
        cs.len() <= cs2.len(),
        cs2.take(cs.len() as int) == cs,
        finished_ranked(ts, done, cs),
    ensures
        finished_ranked(ts, done, cs2),
{
    assert forall|j: int, u: Seq<char>| 0 <= j < done.len() && #[trigger] dep_step(ts, done[j], u) implies done.take(
        j,
    ).contains(u) || on_some_cycle(cs2, done[j]) by {
        if !done.take(j).contains(u) {
            lemma_cycles_grow(cs, cs2, done[j]);
        }
    }
}

pub(crate) proof fn lemma_first_with_id(ts: Seq<Task>, x: Seq<char>)
    ensures
        first_with_id(ts, x) matches Some(i) ==> 0 <= i < ts.len() && ts[i].id_spec() == x,
        first_with_id(ts, x) is None ==> forall|i: int| 0 <= i < ts.len() ==> ts[i].id_spec() != x,
    decreases ts.len(),
{
    if ts.len() > 0 && ts[0].id_spec() != x {
        lemma_first_with_id(ts.drop_first(), x);
        assert forall|i: int| 0 <= i < ts.len() && first_with_id(ts, x) is None implies ts[i].id_spec() != x by {
            if i > 0 {
                assert(ts[i] == ts.drop_first()[i - 1]);
            }
        }
    }
}

pub proof fn lemma_has_id_in_all(ts: Seq<Task>, x: Seq<char>)
    requires
        has_id(ts, x),
    ensures
        all_ids(ts).contains(x),
{
    lemma_first_with_id(ts, x);
    let i = first_with_id(ts, x).unwrap();
    assert(ts.map_values(|t: Task| t.id_spec())[i] == x);
}

/// A closed walk among finished tasks passes through a task on a found
/// cycle: otherwise finish positions would fall strictly all the way round.
proof fn lemma_ranked_cycle(ts: Seq<Task>, done: Seq<Seq<char>>, cs: Seq<Seq<Seq<char>>>, c: Seq<Seq<char>>)
    requires
        finished_ranked(ts, done, cs),
        done.no_duplicates(),
        closed_dep_walk(ts, c),
        done.contains(c[0]),
    ensures
        exists|i: int| 0 <= i < c.len() && on_some_cycle(cs, #[trigger] c[i]),
{
    if !exists|i: int| 0 <= i < c.len() && on_some_cycle(cs, #[trigger] c[i]) {
        let i0 = choose|i: int| 0 <= i < done.len() && done[i] == c[0];
        lemma_ranked_descent(ts, done, cs, c, c.len() - 1, i0);
        let il = choose|i: int| 0 <= i <= i0 - (c.len() - 1) && done[i] == c.last();
        assert(dep_step(ts, done[il], c[0]));
        assert(!on_some_cycle(cs, c[c.len() - 1]));
        assert(done.take(il).contains(c[0]));
        let m = choose|m: int| 0 <= m < il && done.take(il)[m] == c[0];
        assert(done[m] == c[0]);
    }
}

proof fn lemma_ranked_descent(
    ts: Seq<Task>,
    done: Seq<Seq<char>>,
    cs: Seq<Seq<Seq<char>>>,
    c: Seq<Seq<char>>,
    k: int,
    i0: int,
)
    requires
        finished_ranked(ts, done, cs),
        done.no_duplicates(),
        dep_steps(ts, c),
        forall|i: int| 0 <= i < c.len() ==> !on_some_cycle(cs, #[trigger] c[i]),
        0 <= k < c.len(),
        0 <= i0 < done.len(),
        done[i0] == c[0],
    ensures
        exists|i: int| 0 <= i <= i0 - k && done[i] == c[k],
    decreases k,
{
    if k > 0 {
        lemma_ranked_descent(ts, done, cs, c, k - 1, i0);
        let i = choose|i: int| 0 <= i <= i0 - (k - 1) && done[i] == c[k - 1];
        let j = k - 1;
        assert(dep_step(ts, c[j], c[j + 1]));
        assert(j + 1 == k);
        assert(dep_step(ts, done[i], c[k]));
        assert(!on_some_cycle(cs, c[j]));
        assert(done.take(i).contains(c[k]));
        let m = choose|m: int| 0 <= m < i && done.take(i)[m] == c[k];
        assert(done[m] == c[k]);
    }
}

/// Index of the first string equal to `s`.
fn position_of(v: &Vec<String>, s: &str) -> (r: Option<usize>)
    ensures
        match r {
            Some(i) => i < v.len() && v@[i as int]@ == s@ && forall|j: int| 0 <= j < i ==> v@[j]@ != s@,
            None => !texts(v@).contains(s@),
        },
{
    let mut i: usize = 0;
    while i < v.len()
        invariant
            i <= v.len(),
            forall|j: int| 0 <= j < i ==> v@[j]@ != s@,
        decreases v.len() - i,
    {
        if str_eq(v[i].as_str(), s) {
            return Some(i);
        }
        i += 1;
    }
    proof {
        assert forall|j: int| 0 <= j < texts(v@).len() implies texts(v@)[j] != s@ by {
            assert(texts(v@)[j] == v@[j]@);
        }
    }
    None
}

/// Copies of `v[lo..]`.
fn clone_from(v: &Vec<String>, lo: usize) -> (r: Vec<String>)
    requires
        lo <= v.len(),
    ensures
        texts(r@) == texts(v@).subrange(lo as int, v.len() as int),
{
    let mut out: Vec<String> = Vec::new();
    let mut i = lo;
    while i < v.len()
        invariant
            lo <= i <= v.len(),
            texts(out@) == texts(v@).subrange(lo as int, i as int),
        decreases v.len() - i,
    {
        let ghost before = out@;
        out.push(v[i].clone());
        proof {
            assert(texts(out@) =~= texts(before).push(v@[i as int]@));
            assert(texts(v@).subrange(lo as int, i + 1) =~= texts(v@).subrange(lo as int, i as int).push(
                v@[i as int]@,
            ));
        }
        i += 1;
    }
    out
}

/// Whether two id lists hold the same ids.
fn same_ids(a: &Vec<String>, b: &Vec<String>) -> (r: bool)
    ensures
        r == (texts(a@).to_set() == texts(b@).to_set()),
{
    let mut i: usize = 0;
    while i < a.len()
        invariant
            i <= a.len(),
            forall|j: int| 0 <= j < i ==> texts(b@).contains(#[trigger] texts(a@)[j]),
        decreases a.len() - i,
    {
        if !contains_str(b, a[i].as_str()) {
            proof {
                assert(texts(a@)[i as int] == a@[i as int]@);
                assert(texts(a@).to_set().contains(a@[i as int]@));
                assert(!texts(b@).to_set().contains(a@[i as int]@));
            }
            return false;
        }
        i += 1;
    }
    let mut k: usize = 0;
    while k < b.len()
        invariant
            k <= b.len(),
            forall|j: int| 0 <= j < a.len() ==> texts(b@).contains(#[trigger] texts(a@)[j]),
            forall|j: int| 0 <= j < k ==> texts(a@).contains(#[trigger] texts(b@)[j]),
        decreases b.len() - k,
    {
        if !contains_str(a, b[k].as_str()) {
            proof {
                assert(texts(b@)[k as int] == b@[k as int]@);
                assert(texts(b@).to_set().contains(b@[k as int]@));
                assert(!texts(a@).to_set().contains(b@[k as int]@));
            }
            return false;
        }
        k += 1;
    }
    proof {
        assert forall|x: Seq<char>| texts(a@).to_set().contains(x) <==> texts(b@).to_set().contains(x) by {
            if texts(a@).contains(x) {
                let j = choose|j: int| 0 <= j < texts(a@).len() && texts(a@)[j] == x;
                assert(texts(b@).contains(texts(a@)[j]));
            }
            if texts(b@).contains(x) {
                let j = choose|j: int| 0 <= j < texts(b@).len() && texts(b@)[j] == x;
                assert(texts(a@).contains(texts(b@)[j]));
            }
        }
        assert(texts(a@).to_set() =~= texts(b@).to_set());
    }
    true
}

/// Whether some kept cycle already has the ids of `c`.
fn seen_cycle(kept: &Vec<Vec<String>>, c: &Vec<String>) -> (r: bool)
    ensures
        r == exists|k: int| 0 <= k < kept.len() && #[trigger] cycles_view(kept@)[k].to_set() == texts(c@).to_set(),
{
    let mut k: usize = 0;
    while k < kept.len()
        invariant
            k <= kept.len(),
            forall|j: int| 0 <= j < k ==> #[trigger] cycles_view(kept@)[j].to_set() != texts(c@).to_set(),
        decreases kept.len() - k,
    {
        if same_ids(&kept[k], c) {
            assert(cycles_view(kept@)[k as int] == texts(kept@[k as int]@));
            return true;
        }
        assert(cycles_view(kept@)[k as int] == texts(kept@[k as int]@));
        k += 1;
    }
    false
}

/// The walk state of the cycle search: the current path, the finished ids
/// (in finish order) and the cycles found so far.
pub open spec fn dfs_state(
    ts: Seq<Task>,
    path: Seq<Seq<char>>,
    done: Seq<Seq<char>>,
    cycles: Seq<Seq<Seq<char>>>,
) -> bool {
    &&& path.no_duplicates()
    &&& dep_steps(ts, path)
    &&& forall|x: Seq<char>| path.contains(x) ==> has_id(ts, x)
    &&& done.no_duplicates()
    &&& forall|x: Seq<char>| done.contains(x) ==> has_id(ts, x) && !path.contains(x)
    &&& forall|k: int| 0 <= k < cycles.len() ==> is_dep_cycle(ts, #[trigger] cycles[k])
    &&& finished_ranked(ts, done, cycles)
}

proof fn lemma_has_id_of(ts: Seq<Task>, i: int)
    requires
        0 <= i < ts.len(),
    ensures
        has_id(ts, ts[i].id_spec()),
{
    lemma_first_with_id(ts, ts[i].id_spec());
}

/// The tail of the path from where `id` sits closes into a cycle.
proof fn lemma_path_cycle(ts: Seq<Task>, p: Seq<Seq<char>>, pos: int, id: Seq<char>)
    requires
        p.no_duplicates(),
        dep_steps(ts, p),
        0 <= pos < p.len(),
        p[pos] == id,
        dep_step(ts, p.last(), id),
    ensures
        is_dep_cycle(ts, p.subrange(pos, p.len() as int)),
{
    let c = p.subrange(pos, p.len() as int);
    assert forall|k: int| 0 <= k < c.len() - 1 implies #[trigger] dep_step(ts, c[k], c[k + 1]) by {
        let j = pos + k;
        assert(dep_step(ts, p[j], p[j + 1]));
    }
    assert(c.last() == p.last());
}

proof fn lemma_steps_push(ts: Seq<Task>, p: Seq<Seq<char>>, x: Seq<char>)
    requires
        dep_steps(ts, p),
        p.len() > 0 ==> dep_step(ts, p.last(), x),
    ensures
        dep_steps(ts, p.push(x)),
{
    let q = p.push(x);
    assert forall|k: int| 0 <= k < q.len() - 1 implies #[trigger] dep_step(ts, q[k], q[k + 1]) by {
        if k < p.len() - 1 {
            assert(q[k] == p[k] && q[k + 1] == p[k + 1]);
            assert(dep_step(ts, p[k], p[k + 1]));
        } else {
            assert(q[k] == p.last());
        }
    }
}

proof fn lemma_prefix_contains(a: Seq<Seq<char>>, b: Seq<Seq<char>>, x: Seq<char>)
    requires
        a.len() <= b.len(),
        b.take(a.len() as int) == a,
        a.contains(x),
    ensures
        b.contains(x),
{
    let j = choose|j: int| 0 <= j < a.len() && a[j] == x;
    assert(b.take(a.len() as int)[j] == b[j]);
}

impl<'a> Graph<'a> {
    /// Task indices sorted by id, equal ids in file order.
    fn id_order(&self) -> (r: Vec<usize>)
        ensures
            id_sorted(self.tasks_spec(), ints(r@)),
    {
        let ghost ts = self.tasks_spec();
        let n = self.tasks.len();
        let mut ids: Vec<String> = Vec::new();
        let mut i: usize = 0;
        while i < n
            invariant
                i <= n,
                n == self.tasks.len(),
                ts == self.tasks_spec(),
                ids.len() == i,
                forall|k: int| 0 <= k < i ==> (#[trigger] ids@[k])@ == ts[k].id_spec(),
            decreases n - i,
        {
            ids.push(self.tasks[i].id());
            i += 1;
        }
        let mut r: Vec<usize> = Vec::new();
        let mut i: usize = 0;
        while i < n
            invariant
                i <= n,
                n == self.tasks.len(),
                ts == self.tasks_spec(),
                ids.len() == n,
                forall|k: int| 0 <= k < n ==> (#[trigger] ids@[k])@ == ts[k].id_spec(),
                r.len() == i,
                forall|k: int| 0 <= k < r.len() ==> #[trigger] r@[k] < i,
                forall|m: int| 0 <= m < i ==> #[trigger] ints(r@).contains(m),
                forall|a: int, b: int|
                    0 <= a < b < r.len() ==> key_before(ts, #[trigger] ints(r@)[a], #[trigger] ints(r@)[b]),
            decreases n - i,
        {
            let mut q: usize = 0;
            while q < r.len() && !text_less(ids[i].as_str(), ids[r[q]].as_str())
                invariant
                    q <= r.len(),
                    i < n,
                    ids.len() == n,
                    forall|k: int| 0 <= k < n ==> (#[trigger] ids@[k])@ == ts[k].id_spec(),
                    forall|k: int| 0 <= k < r.len() ==> #[trigger] r@[k] < i,
                    forall|k: int| 0 <= k < q ==> !text_lt(ts[i as int].id_spec(), #[trigger] ts[ints(r@)[k]].id_spec()),
                decreases r.len() - q,
            {
                q += 1;
            }
            proof {
                assert forall|k: int| 0 <= k < ints(r@).len() implies #[trigger] ints(r@)[k] < i by {
                    assert(r@[k] < i);
                }
                lemma_insert_sorted(ts, ints(r@), q as int, i as int);
            }
            let ghost r0 = r@;
            r.insert(q, i);
            proof {
                assert(ints(r@) =~= ints(r0).insert(q as int, i as int));
                assert forall|m: int| 0 <= m < i + 1 implies #[trigger] ints(r@).contains(m) by {
                    if m == i {
                        assert(ints(r@)[q as int] == m);
                    } else {
                        assert(ints(r0).contains(m));
                        let j = choose|j: int| 0 <= j < ints(r0).len() && ints(r0)[j] == m;
                        if j < q {
                            assert(ints(r@)[j] == m);
                        } else {
                            assert(ints(r@)[j + 1] == m);
                        }
                    }
                }
                assert forall|k: int| 0 <= k < r.len() implies #[trigger] r@[k] < i + 1 by {
                    if k < q {
                        assert(r@[k] == r0[k]);
                    } else if k > q {
                        assert(r@[k] == r0[k - 1]);
                    }
                }
            }
            i += 1;
        }
        proof {
            assert forall|k: int| 0 <= k < ints(r@).len() implies 0 <= #[trigger] ints(r@)[k] < ts.len() by {
                assert(r@[k] < n);
            }
        }
        r
    }

    /// Depth-first walk from `id` along existing dependencies, recording a
    /// cycle whenever the walk comes back to a task on its own path.
    fn dfs_cycles(
        &self,
        id: &str,
        path: &mut Vec<String>,
        done: &mut Vec<String>,
        cycles: &mut Vec<Vec<String>>,
        fuel: usize,
    )
        requires
            has_id(self.tasks_spec(), id@),
            dfs_state(self.tasks_spec(), texts(old(path)@), texts(old(done)@), cycles_view(old(cycles)@)),
            old(path).len() > 0 ==> dep_step(self.tasks_spec(), texts(old(path)@).last(), id@),
            fuel + old(path).len() >= all_ids(self.tasks_spec()).len(),
        ensures
            final(path)@ == old(path)@,
            dfs_state(self.tasks_spec(), texts(final(path)@), texts(final(done)@), cycles_view(final(cycles)@)),
            old(done).len() <= final(done).len(),
            texts(final(done)@).take(old(done).len() as int) == texts(old(done)@),
            old(cycles).len() <= final(cycles).len(),
            cycles_view(final(cycles)@).take(old(cycles).len() as int) == cycles_view(old(cycles)@),
            !texts(old(path)@).contains(id@) ==> texts(final(done)@).contains(id@),
            texts(old(path)@).contains(id@) ==> on_some_cycle(cycles_view(final(cycles)@), texts(old(path)@).last()),
        decreases fuel,
    {
        let ghost ts = self.tasks_spec();
        if let Some(pos) = position_of(path, id) {
            let c = clone_from(path, pos);
            proof {
                assert(texts(path@)[pos as int] == id@);
                lemma_path_cycle(ts, texts(path@), pos as int, id@);
            }
            let ghost before = cycles@;
            cycles.push(c);
            proof {
                assert(cycles_view(cycles@) =~= cycles_view(before).push(texts(c@)));
                assert(cycles_view(cycles@).take(before.len() as int) =~= cycles_view(before));
                assert(texts(done@).take(done.len() as int) =~= texts(done@));
                lemma_ranked_grow(ts, texts(done@), cycles_view(before), cycles_view(cycles@));
                let cv = cycles_view(cycles@);
                assert(cv[before.len() as int] == texts(c@));
                assert(texts(c@)[texts(c@).len() - 1] == texts(path@).last());
                assert(cv[before.len() as int].contains(texts(path@).last()));
                assert(texts(path@).contains(id@));
            }
            return;
        }
        if contains_str(done, id) {
            proof {
                assert(texts(done@).take(done.len() as int) =~= texts(done@));
                assert(cycles_view(cycles@).take(cycles.len() as int) =~= cycles_view(cycles@));
            }
            return;
        }
        proof {
            vstd::seq_lib::seq_to_set_is_finite(ts.map_values(|t: Task| t.id_spec()));
            let p2 = texts(path@).push(id@);
            assert forall|x: Seq<char>| p2.contains(x) implies all_ids(ts).contains(x) by {
                if x == id@ {
                    lemma_has_id_in_all(ts, x);
                } else {
                    let j = choose|j: int| 0 <= j < p2.len() && p2[j] == x;
                    assert(texts(path@)[j] == x);
                    assert(texts(path@).contains(x));
                    lemma_has_id_in_all(ts, x);
                }
            }
            assert(p2.no_duplicates()) by {
                assert forall|a: int, b: int| 0 <= a < b < p2.len() implies p2[a] != p2[b] by {
                    if b == p2.len() - 1 {
                        assert(texts(path@)[a] == p2[a]);
                    } else {
                        assert(texts(path@)[a] == p2[a] && texts(path@)[b] == p2[b]);
                    }
                }
            }
            lemma_distinct_within(p2, all_ids(ts));
        }
        let ghost path0 = path@;
        let ghost done0 = texts(done@);
        let ghost cycles0 = cycles_view(cycles@);
        let owned = id.to_owned();
        let ghost pushed = owned;
        path.push(owned);
        proof {
            assert(texts(path@) =~= texts(path0).push(id@));
            lemma_steps_push(ts, texts(path0), id@);
            assert forall|x: Seq<char>| texts(path@).contains(x) implies has_id(ts, x) by {
                let j = choose|j: int| 0 <= j < texts(path@).len() && texts(path@)[j] == x;
                if j < path0.len() {
                    assert(texts(path0)[j] == x);
                }
            }
            assert(texts(path@).no_duplicates()) by {
                assert forall|a: int, b: int| 0 <= a < b < texts(path@).len() implies texts(path@)[a] != texts(path@)[b] by {
                    if b == texts(path@).len() - 1 {
                        assert(texts(path0)[a] == texts(path@)[a]);
                    } else {
                        assert(texts(path0)[a] == texts(path@)[a] && texts(path0)[b] == texts(path@)[b]);
                    }
                }
            }
            assert forall|x: Seq<char>| texts(done@).contains(x) implies has_id(ts, x) && !texts(path@).contains(x) by {
                if texts(path@).contains(x) {
                    let j = choose|j: int| 0 <= j < texts(path@).len() && texts(path@)[j] == x;
                    if j < path0.len() {
                        assert(texts(path0)[j] == x);
                    }
                }
            }
            assert(texts(done@).take(done.len() as int) =~= texts(done@));
            assert(cycles_view(cycles@).take(cycles.len() as int) =~= cycles_view(cycles@));
        }
        let t = self.get(id).unwrap();
        let deps = t.dependencies();
        let mut k: usize = 0;
        while k < deps.len()
            invariant
                ts == self.tasks_spec(),
                pushed@ == id@,
                path@ == path0.push(pushed),
                texts(path@) == texts(path0).push(id@),
                !texts(path0).contains(id@),
                has_id(ts, id@),
                fuel >= 1,
                fuel - 1 + path.len() >= all_ids(ts).len(),
                texts(deps@) == task_of(ts, id@).list("dependencies"@),
                dfs_state(ts, texts(path@), texts(done@), cycles_view(cycles@)),
                done0.len() <= done.len(),
                texts(done@).take(done0.len() as int) == done0,
                cycles0.len() <= cycles.len(),
                cycles_view(cycles@).take(cycles0.len() as int) == cycles0,
                k <= deps.len(),
                forall|j: int|
                    0 <= j < k && has_id(ts, #[trigger] texts(deps@)[j]) ==> texts(done@).contains(texts(deps@)[j])
                        || on_some_cycle(cycles_view(cycles@), id@),
            decreases deps.len() - k,
        {
            let dep = deps[k].as_str();
            assert(texts(deps@)[k as int] == dep@);
            if self.get(dep).is_some() {
                let ghost done1 = texts(done@);
                let ghost cycles1 = cycles_view(cycles@);
                proof {
                    assert(task_of(ts, id@).list("dependencies"@).contains(dep@));
                    assert(texts(path@).last() == id@);
                }
                self.dfs_cycles(dep, path, done, cycles, fuel - 1);
                proof {
                    assert(texts(done@).take(done0.len() as int) =~= done0) by {
                        assert(texts(done@).take(done1.len() as int) == done1);
                        assert forall|m: int| 0 <= m < done0.len() implies texts(done@)[m] == done0[m] by {
                            assert(done1[m] == done0[m]);
                            assert(texts(done@).take(done1.len() as int)[m] == texts(done@)[m]);
                        }
                    }
                    assert(cycles_view(cycles@).take(cycles0.len() as int) =~= cycles0) by {
                        assert(cycles_view(cycles@).take(cycles1.len() as int) == cycles1);
                        assert forall|m: int| 0 <= m < cycles0.len() implies cycles_view(cycles@)[m] == cycles0[m] by {
                            assert(cycles1[m] == cycles0[m]);
                            assert(cycles_view(cycles@).take(cycles1.len() as int)[m] == cycles_view(cycles@)[m]);
                        }
                    }
                    assert forall|j: int| 0 <= j < k + 1 && has_id(ts, #[trigger] texts(deps@)[j]) implies texts(
                        done@,
                    ).contains(texts(deps@)[j]) || on_some_cycle(cycles_view(cycles@), id@) by {
                        if j < k {
                            if done1.contains(texts(deps@)[j]) {
                                lemma_prefix_contains(done1, texts(done@), texts(deps@)[j]);
                            } else {
                                lemma_cycles_grow(cycles1, cycles_view(cycles@), id@);
                            }
                        } else {
                            assert(texts(path0).push(id@).last() == id@);
                        }
                    }
                }
            } else {
                proof {
                    assert(!has_id(ts, dep@));
                }
            }
            k += 1;
        }
        let ghost done2 = texts(done@);
        path.pop();
        proof {
            assert(path@ =~= path0);
        }
        done.push(id.to_owned());
        proof {
            assert(texts(done@) =~= done2.push(id@));
            let dn = texts(done@);
            assert(!done2.contains(id@)) by {
                if done2.contains(id@) {
                    assert(texts(path0).push(id@).contains(id@)) by {
                        assert(texts(path0).push(id@)[path0.len() as int] == id@);
                    }
                }
            }
            assert(dn.no_duplicates()) by {
                assert forall|a: int, b: int| 0 <= a < b < dn.len() implies dn[a] != dn[b] by {
                    if b == dn.len() - 1 {
                        assert(done2[a] == dn[a]);
                        assert(done2.contains(dn[a]));
                    } else {
                        assert(done2[a] == dn[a] && done2[b] == dn[b]);
                    }
                }
            }
            assert forall|x: Seq<char>| dn.contains(x) implies has_id(ts, x) && !texts(path@).contains(x) by {
                if x != id@ {
                    let j = choose|j: int| 0 <= j < dn.len() && dn[j] == x;
                    assert(done2[j] == x);
                    assert(done2.contains(x));
                    if texts(path0).contains(x) {
                        let m = choose|m: int| 0 <= m < path0.len() && texts(path0)[m] == x;
                        assert(texts(path0).push(id@)[m] == x);
                    }
                }
            }
            let cv = cycles_view(cycles@);
            assert forall|j: int, u: Seq<char>| 0 <= j < dn.len() && #[trigger] dep_step(ts, dn[j], u) implies dn.take(
                j,
            ).contains(u) || on_some_cycle(cv, dn[j]) by {
                if j < done2.len() {
                    assert(dn[j] == done2[j]);
                    assert(dep_step(ts, done2[j], u));
                    assert(dn.take(j) =~= done2.take(j));
                } else {
                    assert(dn[j] == id@);
                    assert(texts(deps@).contains(u));
                    let m = choose|m: int| 0 <= m < texts(deps@).len() && texts(deps@)[m] == u;
                    assert(has_id(ts, texts(deps@)[m]));
                    assert(dn.take(j) =~= done2);
                }
            }
            assert(dn[dn.len() - 1] == id@);
            assert(dn.take(done0.len() as int) =~= done0) by {
                assert forall|m: int| 0 <= m < done0.len() implies dn[m] == done0[m] by {
                    assert(done2.take(done0.len() as int)[m] == done2[m]);
                }
            }
        }
    }

    /// Dependency cycles via depth-first walks from each id in sorted order;
    /// each id set is reported once.
    fn dependency_cycles(&self, order: &Vec<usize>) -> (r: Vec<Vec<String>>)
        requires
            id_sorted(self.tasks_spec(), ints(order@)),
        ensures
            dep_cycles_ok(self.tasks_spec(), cycles_view(r@)),
    {
        let ghost ts = self.tasks_spec();
        let mut cycles: Vec<Vec<String>> = Vec::new();
        let mut done: Vec<String> = Vec::new();
        proof {
            ts.map_values(|t: Task| t.id_spec()).lemma_cardinality_of_set();
            assert(texts(done@) =~= Seq::<Seq<char>>::empty());
            assert(cycles_view(cycles@) =~= Seq::<Seq<Seq<char>>>::empty());
        }
        let mut k: usize = 0;
        while k < order.len()
            invariant
                ts == self.tasks_spec(),
                id_sorted(ts, ints(order@)),
                all_ids(ts).len() <= self.tasks.len(),
                k <= order.len(),
                dfs_state(ts, Seq::empty(), texts(done@), cycles_view(cycles@)),
                forall|j: int| 0 <= j < k ==> texts(done@).contains(#[trigger] ts[ints(order@)[j]].id_spec()),
            decreases order.len() - k,
        {
            assert(0 <= ints(order@)[k as int] < ts.len());
            let start = self.tasks[order[k]].id();
            if !contains_str(&done, start.as_str()) {
                let mut path: Vec<String> = Vec::new();
                proof {
                    lemma_has_id_of(ts, order@[k as int] as int);
                    assert(texts(path@) =~= Seq::<Seq<char>>::empty());
                }
                let ghost done1 = texts(done@);
                self.dfs_cycles(start.as_str(), &mut path, &mut done, &mut cycles, self.tasks.len());
                proof {
                    assert(texts(path@) =~= Seq::<Seq<char>>::empty());
                    assert forall|j: int| 0 <= j < k + 1 implies texts(done@).contains(#[trigger] ts[ints(order@)[j]].id_spec()) by {
                        if j < k {
                            lemma_prefix_contains(done1, texts(done@), ts[ints(order@)[j]].id_spec());
                        }
                    }
                }
            }
            k += 1;
        }
        let mut out: Vec<Vec<String>> = Vec::new();
        let mut i: usize = 0;
        while i < cycles.len()
            invariant
                ts == self.tasks_spec(),
                i <= cycles.len(),
                forall|m: int| 0 <= m < cycles.len() ==> is_dep_cycle(ts, #[trigger] cycles_view(cycles@)[m]),
                forall|m: int| 0 <= m < out.len() ==> is_dep_cycle(ts, #[trigger] cycles_view(out@)[m]),
                distinct_sets(cycles_view(out@)),
                i > 0 ==> out.len() > 0,
                forall|m: int| 0 <= m < i ==> covered(cycles_view(out@), #[trigger] cycles_view(cycles@)[m]),
            decreases cycles.len() - i,
        {
            proof {
                assert(cycles_view(cycles@)[i as int] == texts(cycles@[i as int]@));
            }
            if !seen_cycle(&out, &cycles[i]) {
                let c = clone_from(&cycles[i], 0);
                let ghost before = out@;
                proof {
                    assert(texts(cycles@[i as int]@).subrange(0, cycles@[i as int].len() as int) =~= texts(cycles@[i as int]@));
                }
                out.push(c);
                proof {
                    assert(cycles_view(out@) =~= cycles_view(before).push(texts(c@)));
                    assert forall|m: int| 0 <= m < i + 1 implies covered(cycles_view(out@), #[trigger] cycles_view(cycles@)[m]) by {
                        if m < i {
                            let o = choose|o: int| 0 <= o < cycles_view(before).len() && #[trigger] cycles_view(before)[o].to_set()
                                == cycles_view(cycles@)[m].to_set();
                            assert(cycles_view(out@)[o] == cycles_view(before)[o]);
                        } else {
                            assert(cycles_view(out@)[before.len() as int] == texts(c@));
                            assert(texts(c@) == cycles_view(cycles@)[i as int]);
                            assert(cycles_view(out@)[before.len() as int].to_set() == cycles_view(cycles@)[m].to_set());
                        }
                    }
                }
            } else {
                proof {
                    assert(covered(cycles_view(out@), cycles_view(cycles@)[i as int]));
                }
            }
            i += 1;
        }
        proof {
            let cv = cycles_view(cycles@);
            let ov = cycles_view(out@);
            assert forall|c: Seq<Seq<char>>| #[trigger] closed_dep_walk(ts, c) implies exists|i: int|
                0 <= i < c.len() && on_some_cycle(ov, #[trigger] c[i]) by {
                lemma_first_with_id(ts, c[0]);
                let ix = first_with_id(ts, c[0]).unwrap();
                assert(ints(order@).contains(ix));
                let j = choose|j: int| 0 <= j < ints(order@).len() && ints(order@)[j] == ix;
                assert(texts(done@).contains(ts[ints(order@)[j]].id_spec()));
                lemma_ranked_cycle(ts, texts(done@), cv, c);
                let i = choose|i: int| 0 <= i < c.len() && on_some_cycle(cv, #[trigger] c[i]);
                let m = choose|m: int| 0 <= m < cv.len() && #[trigger] cv[m].contains(c[i]);
                assert(covered(ov, cv[m]));
                let o = choose|o: int| 0 <= o < ov.len() && #[trigger] ov[o].to_set() == cv[m].to_set();
                assert(cv[m].to_set().contains(c[i]));
                assert(ov[o].to_set().contains(c[i]));
                assert(ov[o].contains(c[i]));
                assert(on_some_cycle(ov, c[i]));
            }
            if out.len() == 0 {
                assert forall|c: Seq<Seq<char>>| !#[trigger] closed_dep_walk(ts, c) by {
                    if closed_dep_walk(ts, c) {
                        let i = choose|i: int| 0 <= i < c.len() && on_some_cycle(ov, #[trigger] c[i]);
                    }
                }
            }
        }
        out
    }
}

pub open spec fn parent_steps(ts: Seq<Task>, c: Seq<Seq<char>>) -> bool {
    forall|k: int| 0 <= k < c.len() - 1 ==> #[trigger] parent_step(ts, c[k], c[k + 1])
}

/// `c` read from index `i` round to just before it.
pub open spec fn rot(c: Seq<Seq<char>>, i: int) -> Seq<Seq<char>> {
    c.subrange(i, c.len() as int) + c.subrange(0, i)
}

/// Where `s` sits in `c`.
pub open spec fn idx_in(c: Seq<Seq<char>>, s: Seq<char>) -> int {
    choose|i: int| 0 <= i < c.len() && c[i] == s
}

proof fn lemma_rot(ts: Seq<Task>, c: Seq<Seq<char>>, i0: int)
    requires
        is_parent_cycle(ts, c),
        0 <= i0 < c.len(),
    ensures
        is_parent_cycle(ts, rot(c, i0)),
        rot(c, i0).len() == c.len(),
        rot(c, i0)[0] == c[i0],
        rot(c, i0).to_set() == c.to_set(),
{
    let n = c.len() as int;
    let r = rot(c, i0);
    assert(r.len() == n);
    assert forall|m: int| 0 <= m < n implies #[trigger] r[m] == (if m < n - i0 { c[i0 + m] } else { c[m - (n - i0)] }) by {
    }
    assert forall|k: int| 0 <= k < r.len() - 1 implies #[trigger] parent_step(ts, r[k], r[k + 1]) by {
        assert(r[k] == (if k < n - i0 { c[i0 + k] } else { c[k - (n - i0)] }));
        assert(r[k + 1] == (if k + 1 < n - i0 { c[i0 + k + 1] } else { c[k + 1 - (n - i0)] }));
        if k + 1 < n - i0 {
            let j = i0 + k;
            assert(parent_step(ts, c[j], c[j + 1]));
        } else if k + 1 == n - i0 {
            assert(r[k] == c[n - 1]);
            assert(r[k + 1] == c[0]);
        } else {
            let j = k - (n - i0);
            assert(parent_step(ts, c[j], c[j + 1]));
        }
    }
    assert(r[n - 1] == (if n - 1 < n - i0 { c[i0 + n - 1] } else { c[n - 1 - (n - i0)] }));
    if i0 == 0 {
        assert(r[n - 1] == c[n - 1]);
    } else {
        let j = i0 - 1;
        assert(r[n - 1] == c[j]);
        assert(parent_step(ts, c[j], c[j + 1]));
    }
    assert(r.no_duplicates()) by {
        assert forall|a: int, b: int| 0 <= a < b < n implies r[a] != r[b] by {
            assert(r[a] == (if a < n - i0 { c[i0 + a] } else { c[a - (n - i0)] }));
            assert(r[b] == (if b < n - i0 { c[i0 + b] } else { c[b - (n - i0)] }));
        }
    }
    assert forall|x: Seq<char>| r.to_set().contains(x) <==> c.to_set().contains(x) by {
        if r.contains(x) {
            let a = choose|a: int| 0 <= a < n && r[a] == x;
            assert(r[a] == (if a < n - i0 { c[i0 + a] } else { c[a - (n - i0)] }));
        }
        if c.contains(x) {
            let j = choose|j: int| 0 <= j < n && c[j] == x;
            if j >= i0 {
                assert(r[j - i0] == c[j]);
            } else {
                assert(r[j + (n - i0)] == c[j]);
            }
        }
    }
    assert(r.to_set() =~= c.to_set());
}

/// A chain walked from `s` on a parent cycle through `s` is the cycle read
/// from `s`: the next parent is the next cycle member, until the chain is the
/// whole cycle and the parent is back at `s`.
proof fn lemma_chain_on_cycle(ts: Seq<Task>, c: Seq<Seq<char>>, s: Seq<char>, chain: Seq<Seq<char>>)
    requires
        is_parent_cycle(ts, c),
        c.contains(s),
        1 <= chain.len() <= c.len(),
        chain == rot(c, idx_in(c, s)).take(chain.len() as int),
    ensures
        ({
            let r = rot(c, idx_in(c, s));
            let nx = if chain.len() < c.len() { r[chain.len() as int] } else { r[0] };
            &&& parent_step(ts, chain.last(), nx)
            &&& nx != chain.last()
            &&& chain.len() < c.len() ==> !chain.contains(nx)
            &&& chain.len() == c.len() ==> chain == r && nx == chain[0]
            &&& r.to_set() == c.to_set()
        }),
{
    let i0 = idx_in(c, s);
    lemma_rot(ts, c, i0);
    let r = rot(c, i0);
    let l = chain.len() as int;
    assert(chain.last() == r[l - 1]);
    if l < c.len() {
        let j = l - 1;
        assert(parent_step(ts, r[j], r[j + 1]));
        if chain.contains(r[l]) {
            let m = choose|m: int| 0 <= m < l && chain[m] == r[l];
            assert(chain[m] == r[m]);
        }
    } else {
        assert(chain =~= r);
        assert(r[l - 1] != r[0]);
    }
}

proof fn lemma_covered_grows(a: Seq<Seq<Seq<char>>>, b: Seq<Seq<Seq<char>>>, c: Seq<Seq<char>>)
    requires
        covered(a, c),
        a.len() <= b.len(),
        b.take(a.len() as int) == a,
    ensures
        covered(b, c),
{
    let m = choose|m: int| 0 <= m < a.len() && #[trigger] a[m].to_set() == c.to_set();
    assert(b.take(a.len() as int)[m] == b[m]);
    assert(b[m].to_set() == c.to_set());
}

impl<'a> Graph<'a> {
    /// The `parent` of the task an id resolves to.
    fn parent_of_id(&self, id: &str) -> (r: Option<String>)
        ensures
            match first_with_id(self.tasks_spec(), id@) {
                Some(i) => opt_text(r) == self.tasks_spec()[i].text("parent"@),
                None => r is None,
            },
    {
        match self.get(id) {
            Some(t) => t.parent(),
            None => None,
        }
    }

    /// Parent-chain cycles, walking up from each id in sorted order; each id
    /// set is reported once. Self-parents and missing parents end a walk
    /// (they are reported separately).
    fn parent_cycles(&self, order: &Vec<usize>) -> (r: Vec<Vec<String>>)
        requires
            id_sorted(self.tasks_spec(), ints(order@)),
        ensures
            parent_cycles_ok(self.tasks_spec(), cycles_view(r@)),
    {
        let ghost ts = self.tasks_spec();
        let ghost u = all_ids(ts);
        proof {
            ts.map_values(|t: Task| t.id_spec()).lemma_cardinality_of_set();
            vstd::seq_lib::seq_to_set_is_finite(ts.map_values(|t: Task| t.id_spec()));
        }
        let mut out: Vec<Vec<String>> = Vec::new();
        proof {
            assert(cycles_view(out@) =~= Seq::<Seq<Seq<char>>>::empty());
        }
        let mut k: usize = 0;
        while k < order.len()
            invariant
                ts == self.tasks_spec(),
                id_sorted(ts, ints(order@)),
                u == all_ids(ts),
                u.finite(),
                k <= order.len(),
                forall|m: int| 0 <= m < out.len() ==> is_parent_cycle(ts, #[trigger] cycles_view(out@)[m]),
                distinct_sets(cycles_view(out@)),
                forall|c: Seq<Seq<char>>, j: int|
                    0 <= j < k && is_parent_cycle(ts, c) && #[trigger] c.contains(
                        #[trigger] ts[ints(order@)[j]].id_spec(),
                    ) ==> covered(cycles_view(out@), c),
            decreases order.len() - k,
        {
            assert(0 <= ints(order@)[k as int] < ts.len());
            let start = self.tasks[order[k]].id();
            let ghost s = start@;
            proof {
                lemma_has_id_of(ts, order@[k as int] as int);
            }
            let mut chain: Vec<String> = Vec::new();
            chain.push(start.clone());
            proof {
                assert(texts(chain@) =~= seq![s]);
                assert forall|c: Seq<Seq<char>>| is_parent_cycle(ts, c) && c.contains(s) implies chain.len() <= c.len()
                    && texts(chain@) == rot(c, idx_in(c, s)).take(chain.len() as int) by {
                    lemma_rot(ts, c, idx_in(c, s));
                    assert(texts(chain@) =~= rot(c, idx_in(c, s)).take(1));
                }
                lemma_has_id_in_all(ts, s);
                assert forall|x: Seq<char>| seq![s].contains(x) implies u.contains(x) by {
                    let j = choose|j: int| 0 <= j < 1 && seq![s][j] == x;
                    assert(seq![s][j] == s);
                }
                lemma_distinct_within(seq![s], u);
            }
            let mut found: Option<usize> = None;
            loop
                invariant_except_break
                    found is None,
                invariant
                    ts == self.tasks_spec(),
                    u == all_ids(ts),
                    u.finite(),
                    chain.len() >= 1,
                    chain.len() <= u.len(),
                    texts(chain@)[0] == s,
                    has_id(ts, s),
                    texts(chain@).no_duplicates(),
                    forall|x: Seq<char>| texts(chain@).contains(x) ==> has_id(ts, x),
                    parent_steps(ts, texts(chain@)),
                    forall|c: Seq<Seq<char>>|
                        is_parent_cycle(ts, c) && #[trigger] c.contains(s) ==> chain.len() <= c.len() && texts(chain@)
                            == rot(c, idx_in(c, s)).take(chain.len() as int),
                ensures
                    found matches Some(pos) ==> pos < chain.len() && chain.len() - pos >= 2 && parent_step(
                        ts,
                        texts(chain@).last(),
                        texts(chain@)[pos as int],
                    ),
                    forall|c: Seq<Seq<char>>|
                        is_parent_cycle(ts, c) && #[trigger] c.contains(s) ==> found == Some(0usize) && texts(chain@)
                            == rot(c, idx_in(c, s)),
                decreases u.len() - chain.len(),
            {
                let cur = chain[chain.len() - 1].clone();
                let ghost ch = texts(chain@);
                assert(cur@ == ch.last());
                assert(ch.contains(cur@));
                let next = self.parent_of_id(cur.as_str());
                match next {
                    None => {
                        proof {
                            assert forall|c: Seq<Seq<char>>| is_parent_cycle(ts, c) && #[trigger] c.contains(s) implies found == Some(0usize) && texts(chain@) == rot(c, idx_in(c, s)) by {
                                lemma_chain_on_cycle(ts, c, s, ch);
                            }
                        }
                        break;
                    },
                    Some(p) => {
                        proof {
                            lemma_first_with_id(ts, cur@);
                        }
                        if str_eq(p.as_str(), cur.as_str()) {
                            proof {
                                assert forall|c: Seq<Seq<char>>| is_parent_cycle(ts, c) && #[trigger] c.contains(s) implies found == Some(0usize) && texts(chain@) == rot(c, idx_in(c, s)) by {
                                    lemma_chain_on_cycle(ts, c, s, ch);
                                }
                            }
                            break;
                        }
                        match position_of(&chain, p.as_str()) {
                            Some(pos) => {
                                found = Some(pos);
                                proof {
                                    assert(ch[pos as int] == p@);
                                    assert(has_id(ts, p@)) by {
                                        assert(ch.contains(p@));
                                    }
                                    assert(parent_step(ts, ch.last(), ch[pos as int]));
                                    assert(pos < chain.len() - 1);
                                    assert forall|c: Seq<Seq<char>>| is_parent_cycle(ts, c) && #[trigger] c.contains(s) implies found == Some(0usize) && texts(chain@) == rot(c, idx_in(c, s)) by {
                                        lemma_chain_on_cycle(ts, c, s, ch);
                                        if chain.len() < c.len() {
                                            assert(ch.contains(p@));
                                        } else {
                                            assert(ch[0] == p@);
                                            assert(ch.no_duplicates());
                                        }
                                    }
                                }
                                break;
                            },
                            None => {},
                        }
                        if self.get(p.as_str()).is_none() {
                            proof {
                                assert forall|c: Seq<Seq<char>>| is_parent_cycle(ts, c) && #[trigger] c.contains(s) implies found == Some(0usize) && texts(chain@) == rot(c, idx_in(c, s)) by {
                                    lemma_chain_on_cycle(ts, c, s, ch);
                                }
                            }
                            break;
                        }
                        proof {
                            let c2 = ch.push(p@);
                            assert(has_id(ts, p@));
                            assert(parent_step(ts, ch.last(), p@));
                            assert(c2.no_duplicates()) by {
                                assert forall|a: int, b: int| 0 <= a < b < c2.len() implies c2[a] != c2[b] by {
                                    if b == c2.len() - 1 {
                                        assert(ch[a] == c2[a]);
                                        assert(ch.contains(c2[a]));
                                    } else {
                                        assert(ch[a] == c2[a] && ch[b] == c2[b]);
                                    }
                                }
                            }
                            assert forall|x: Seq<char>| c2.contains(x) implies u.contains(x) by {
                                let j = choose|j: int| 0 <= j < c2.len() && c2[j] == x;
                                if j < ch.len() {
                                    assert(ch[j] == x);
                                    assert(ch.contains(x));
                                }
                                lemma_has_id_in_all(ts, x);
                            }
                            lemma_distinct_within(c2, u);
                        }
                        let ghost pv = p@;
                        chain.push(p);
                        proof {
                            let c2 = texts(chain@);
                            assert(c2 =~= ch.push(pv));
                            assert forall|x: Seq<char>| c2.contains(x) implies has_id(ts, x) by {
                                let j = choose|j: int| 0 <= j < c2.len() && c2[j] == x;
                                if j < ch.len() {
                                    assert(ch[j] == x);
                                    assert(ch.contains(x));
                                }
                            }
                            assert forall|kk: int| 0 <= kk < c2.len() - 1 implies #[trigger] parent_step(ts, c2[kk], c2[kk + 1]) by {
                                if kk < ch.len() - 1 {
                                    assert(c2[kk] == ch[kk] && c2[kk + 1] == ch[kk + 1]);
                                    assert(parent_step(ts, ch[kk], ch[kk + 1]));
                                }
                            }
                            assert forall|c: Seq<Seq<char>>| is_parent_cycle(ts, c) && #[trigger] c.contains(s) implies chain.len() <= c.len() && texts(chain@) == rot(c, idx_in(c, s)).take(chain.len() as int) by {
                                lemma_chain_on_cycle(ts, c, s, ch);
                                if ch.len() == c.len() {
                                    assert(ch[0] == pv);
                                    assert(ch.contains(pv));
                                }
                                let r = rot(c, idx_in(c, s));
                                assert(c2 =~= r.take(chain.len() as int));
                            }
                        }
                    },
                }
            }
            let ghost out0 = cycles_view(out@);
            if let Some(pos) = found {
                let cyc = clone_from(&chain, pos);
                proof {
                    let ch = texts(chain@);
                    let cv = texts(cyc@);
                    assert(cv == ch.subrange(pos as int, ch.len() as int));
                    assert forall|kk: int| 0 <= kk < cv.len() - 1 implies #[trigger] parent_step(ts, cv[kk], cv[kk + 1]) by {
                        let j = pos + kk;
                        assert(parent_step(ts, ch[j], ch[j + 1]));
                    }
                    assert(cv.last() == ch.last());
                    assert(is_parent_cycle(ts, cv));
                }
                if !seen_cycle(&out, &cyc) {
                    let ghost before = out@;
                    out.push(cyc);
                    proof {
                        assert(cycles_view(out@) =~= cycles_view(before).push(texts(cyc@)));
                    }
                }
            }
            proof {
                let ov = cycles_view(out@);
                assert(ov.take(out0.len() as int) =~= out0);
                assert forall|c: Seq<Seq<char>>, j: int|
                    0 <= j < k + 1 && is_parent_cycle(ts, c) && #[trigger] c.contains(
                        #[trigger] ts[ints(order@)[j]].id_spec(),
                    ) implies covered(ov, c) by {
                    if j < k {
                        lemma_covered_grows(out0, ov, c);
                    } else {
                        let cyc_set = rot(c, idx_in(c, s)).to_set();
                        lemma_rot(ts, c, idx_in(c, s));
                        let ch = texts(chain@);
                        assert(found == Some(0usize));
                        assert(ch.subrange(0, ch.len() as int) =~= ch);
                        if ov.len() > out0.len() {
                            assert(ov[out0.len() as int] == ch);
                            assert(ov[out0.len() as int].to_set() == c.to_set());
                        } else {
                            let m = choose|m: int| 0 <= m < out0.len() && #[trigger] out0[m].to_set() == ch.to_set();
                            assert(ov[m] == out0[m]);
                        }
                    }
                }
            }
            k += 1;
        }
        proof {
            assert forall|c: Seq<Seq<char>>| #[trigger] is_parent_cycle(ts, c) implies covered(cycles_view(out@), c) by {
                lemma_first_with_id(ts, c[0]);
                let ix = first_with_id(ts, c[0]).unwrap();
                assert(ints(order@).contains(ix));
                let j = choose|j: int| 0 <= j < ints(order@).len() && ints(order@)[j] == ix;
                assert(c.contains(ts[ints(order@)[j]].id_spec()));
            }
        }
        out
    }
}

proof fn lemma_issues_push(v: Seq<GraphIssue>, g: GraphIssue)
    ensures
        issues_view(v.push(g)) == issues_view(v).push(issue_view(g)),
{
    assert(issues_view(v.push(g)) =~= issues_view(v).push(issue_view(g)));
}

impl<'a> Graph<'a> {
    /// All reference and cycle defects, in a fixed order: dangling
    /// dependencies (tasks by id), dependency cycles, self/missing parents
    /// (tasks by id), parent cycles.
    pub fn issues(&self) -> (r: Vec<GraphIssue>)
        ensures
            issues_ok(self.tasks_spec(), issues_view(r@)),
    {
        let ghost ts = self.tasks_spec();
        let order = self.id_order();
        let ghost p = ints(order@);
        let mut issues: Vec<GraphIssue> = Vec::new();
        proof {
            assert(issues_view(issues@) =~= Seq::<IssueV>::empty());
            assert(p.take(0) =~= Seq::<int>::empty());
        }
        let mut k: usize = 0;
        while k < order.len()
            invariant
                ts == self.tasks_spec(),
                p == ints(order@),
                id_sorted(ts, p),
                k <= order.len(),
                issues_view(issues@) == dangling_in(ts, p.take(k as int)),
            decreases order.len() - k,
        {
            assert(0 <= p[k as int] < ts.len());
            let t = &self.tasks[order[k]];
            let id = t.id();
            let deps = t.dependencies();
            let ghost base = issues_view(issues@);
            proof {
                assert(texts(deps@).take(0) =~= Seq::<Seq<char>>::empty());
                assert(base + Seq::<IssueV>::empty() =~= base);
            }
            let mut j: usize = 0;
            while j < deps.len()
                invariant
                    ts == self.tasks_spec(),
                    j <= deps.len(),
                    issues_view(issues@) == base + dangling_of(ts, id@, texts(deps@).take(j as int)),
                decreases deps.len() - j,
            {
                let ghost before = issues@;
                proof {
                    assert(texts(deps@).take(j + 1).drop_last() =~= texts(deps@).take(j as int));
                    assert(texts(deps@).take(j + 1).last() == deps@[j as int]@);
                }
                if self.get(deps[j].as_str()).is_none() {
                    issues.push(GraphIssue::DanglingDependency { task: id.clone(), missing: deps[j].clone() });
                    proof {
                        lemma_issues_push(before, issues@.last());
                        assert(issues@ == before.push(issues@.last()));
                        let d = dangling_of(ts, id@, texts(deps@).take(j as int));
                        assert(base + d.push(IssueV::Dangling(id@, deps@[j as int]@)) =~= (base + d).push(
                            IssueV::Dangling(id@, deps@[j as int]@),
                        ));
                    }
                } else {
                    proof {
                        let d = dangling_of(ts, id@, texts(deps@).take(j as int));
                        assert(d + Seq::<IssueV>::empty() =~= d);
                    }
                }
                j += 1;
            }
            proof {
                assert(texts(deps@).take(deps.len() as int) =~= texts(deps@));
                assert(p.take(k + 1).drop_last() =~= p.take(k as int));
                assert(p.take(k + 1).last() == p[k as int]);
            }
            k += 1;
        }
        proof {
            assert(p.take(order.len() as int) =~= p);
        }
        let ghost part1 = issues_view(issues@);
        let dc = self.dependency_cycles(&order);
        let mut i: usize = 0;
        proof {
            assert(cycles_view(dc@).take(0) =~= Seq::<Seq<Seq<char>>>::empty());
            assert(as_dep_cycles(Seq::empty()) =~= Seq::<IssueV>::empty());
            assert(part1 + Seq::<IssueV>::empty() =~= part1);
        }
        while i < dc.len()
            invariant
                i <= dc.len(),
                issues_view(issues@) == part1 + as_dep_cycles(cycles_view(dc@).take(i as int)),
            decreases dc.len() - i,
        {
            let ghost before = issues@;
            let ids = clone_from(&dc[i], 0);
            issues.push(GraphIssue::DependencyCycle { ids });
            proof {
                lemma_issues_push(before, issues@.last());
                assert(texts(dc@[i as int]@).subrange(0, dc@[i as int].len() as int) =~= texts(dc@[i as int]@));
                assert(as_dep_cycles(cycles_view(dc@).take(i + 1)) =~= as_dep_cycles(cycles_view(dc@).take(i as int)).push(
                    IssueV::DepCycle(texts(dc@[i as int]@)),
                ));
                assert(part1 + as_dep_cycles(cycles_view(dc@).take(i + 1)) =~= (part1 + as_dep_cycles(cycles_view(dc@).take(i as int))).push(
                    IssueV::DepCycle(texts(dc@[i as int]@)),
                ));
            }
            i += 1;
        }
        proof {
            assert(cycles_view(dc@).take(dc.len() as int) =~= cycles_view(dc@));
            assert(p.take(0) =~= Seq::<int>::empty());
        }
        let ghost part2 = issues_view(issues@);
        let mut k: usize = 0;
        proof {
            assert(part2 + Seq::<IssueV>::empty() =~= part2);
        }
        while k < order.len()
            invariant
                ts == self.tasks_spec(),
                p == ints(order@),
                id_sorted(ts, p),
                k <= order.len(),
                issues_view(issues@) == part2 + parents_in(ts, p.take(k as int)),
            decreases order.len() - k,
        {
            assert(0 <= p[k as int] < ts.len());
            let t = &self.tasks[order[k]];
            let ghost before = issues@;
            let ghost pre = parents_in(ts, p.take(k as int));
            proof {
                assert(p.take(k + 1).drop_last() =~= p.take(k as int));
                assert(p.take(k + 1).last() == p[k as int]);
                assert(ts[p[k as int]] == *t);
            }
            match t.parent() {
                None => {
                    proof {
                        assert(pre + Seq::<IssueV>::empty() =~= pre);
                    }
                },
                Some(parent) => {
                    let id = t.id();
                    if str_eq(parent.as_str(), id.as_str()) {
                        issues.push(GraphIssue::SelfParent { task: id });
                        proof {
                            lemma_issues_push(before, issues@.last());
                            assert(part2 + (pre + seq![IssueV::SelfParent(t.id_spec())]) =~= (part2 + pre).push(
                                IssueV::SelfParent(t.id_spec()),
                            ));
                        }
                    } else if self.get(parent.as_str()).is_none() {
                        issues.push(GraphIssue::MissingParent { task: id, parent });
                        proof {
                            lemma_issues_push(before, issues@.last());
                            let x = issue_view(issues@.last());
                            assert(part2 + (pre + seq![x]) =~= (part2 + pre).push(x));
                        }
                    } else {
                        proof {
                            assert(pre + Seq::<IssueV>::empty() =~= pre);
                        }
                    }
                },
            }
            k += 1;
        }
        proof {
            assert(p.take(order.len() as int) =~= p);
        }
        let ghost part3 = issues_view(issues@);
        let pc = self.parent_cycles(&order);
        let mut i: usize = 0;
        proof {
            assert(cycles_view(pc@).take(0) =~= Seq::<Seq<Seq<char>>>::empty());
            assert(as_parent_cycles(Seq::empty()) =~= Seq::<IssueV>::empty());
            assert(part3 + Seq::<IssueV>::empty() =~= part3);
        }
        while i < pc.len()
            invariant
                i <= pc.len(),
                issues_view(issues@) == part3 + as_parent_cycles(cycles_view(pc@).take(i as int)),
            decreases pc.len() - i,
        {
            let ghost before = issues@;
            let ids = clone_from(&pc[i], 0);
            issues.push(GraphIssue::ParentCycle { ids });
            proof {
                lemma_issues_push(before, issues@.last());
                assert(texts(pc@[i as int]@).subrange(0, pc@[i as int].len() as int) =~= texts(pc@[i as int]@));
                assert(as_parent_cycles(cycles_view(pc@).take(i + 1)) =~= as_parent_cycles(cycles_view(pc@).take(i as int)).push(
                    IssueV::ParentCycle(texts(pc@[i as int]@)),
                ));
                assert(part3 + as_parent_cycles(cycles_view(pc@).take(i + 1)) =~= (part3 + as_parent_cycles(cycles_view(pc@).take(i as int))).push(
                    IssueV::ParentCycle(texts(pc@[i as int]@)),
                ));
            }
            i += 1;
        }
        proof {
            assert(cycles_view(pc@).take(pc.len() as int) =~= cycles_view(pc@));
            let dcv = cycles_view(dc@);
            let pcv = cycles_view(pc@);
            assert(issues_view(issues@) =~= dangling_in(ts, p) + as_dep_cycles(dcv) + parents_in(ts, p)
                + as_parent_cycles(pcv));
            assert(id_sorted(ts, p) && dep_cycles_ok(ts, dcv) && parent_cycles_ok(ts, pcv));
        }
        issues
    }
}

/// A run of one or more ids, each waited on by the next.
pub open spec fn dep_chain(ts: Seq<Task>, c: Seq<Seq<char>>) -> bool {
    c.len() >= 1 && forall|k: int| 0 <= k < c.len() - 1 ==> #[trigger] dep_edge(ts, c[k], c[k + 1])
}

/// A chain that starts at `a`.
pub open spec fn chain_from(ts: Seq<Task>, a: Seq<char>, c: Seq<Seq<char>>) -> bool {
    dep_chain(ts, c) && c[0] == a
}

/// No chain starting at `a` meets an id twice: no cycle can be reached from `a`.
pub open spec fn acyclic_from(ts: Seq<Task>, a: Seq<char>) -> bool {
    forall|c: Seq<Seq<char>>| #[trigger] chain_from(ts, a, c) ==> c.no_duplicates()
}

/// The longest chain of dependents starting at `a` has exactly `d` edges.
pub open spec fn longest_is(ts: Seq<Task>, a: Seq<char>, d: nat) -> bool {
    &&& exists|c: Seq<Seq<char>>| #[trigger] chain_from(ts, a, c) && c.len() == d + 1
    &&& forall|c: Seq<Seq<char>>| #[trigger] chain_from(ts, a, c) ==> c.len() <= d + 1
}

/// Every remembered depth is exact wherever no cycle can be reached.
pub open spec fn memo_ok(ts: Seq<Task>, m: Seq<(String, usize)>) -> bool {
    forall|i: int|
        0 <= i < m.len() && acyclic_from(ts, (#[trigger] m[i]).0@) ==> longest_is(ts, m[i].0@, m[i].1 as nat)
}

/// A chain extended by one more edge is a chain.
proof fn lemma_chain_push(ts: Seq<Task>, c: Seq<Seq<char>>, x: Seq<char>)
    requires
        dep_chain(ts, c),
        dep_edge(ts, c.last(), x),
    ensures
        dep_chain(ts, c.push(x)),
{
    let q = c.push(x);
    assert forall|k: int| 0 <= k < q.len() - 1 implies #[trigger] dep_edge(ts, q[k], q[k + 1]) by {
        if k < c.len() - 1 {
            assert(q[k] == c[k] && q[k + 1] == c[k + 1]);
            assert(dep_edge(ts, c[k], c[k + 1]));
        } else {
            assert(q[k] == c.last() && q[k + 1] == x);
        }
    }
}

/// Putting `a` in front of a chain from one of its dependents gives a chain from `a`.
proof fn lemma_chain_cons(ts: Seq<Task>, a: Seq<char>, c: Seq<Seq<char>>)
    requires
        dep_chain(ts, c),
        dep_edge(ts, a, c[0]),
    ensures
        chain_from(ts, a, seq![a] + c),
        (seq![a] + c).len() == c.len() + 1,
{
    let q = seq![a] + c;
    assert forall|k: int| 0 <= k < q.len() - 1 implies #[trigger] dep_edge(ts, q[k], q[k + 1]) by {
        if k == 0 {
            assert(q[0] == a && q[1] == c[0]);
        } else {
            assert(q[k] == c[k - 1] && q[k + 1] == c[k]);
            assert(dep_edge(ts, c[k - 1], c[(k - 1) + 1]));
        }
    }
}

/// The tail of a chain of two or more ids is a chain from its second id.
proof fn lemma_chain_tail(ts: Seq<Task>, c: Seq<Seq<char>>)
    requires
        dep_chain(ts, c),
        c.len() >= 2,
    ensures
        chain_from(ts, c[1], c.drop_first()),
        dep_edge(ts, c[0], c[1]),
{
    let q = c.drop_first();
    assert(dep_edge(ts, c[0], c[0int + 1]));
    assert forall|k: int| 0 <= k < q.len() - 1 implies #[trigger] dep_edge(ts, q[k], q[k + 1]) by {
        assert(q[k] == c[k + 1] && q[k + 1] == c[(k + 1) + 1]);
        assert(dep_edge(ts, c[k + 1], c[(k + 1) + 1]));
    }
}

/// No cycle is reachable from a dependent of a task from which none is.
proof fn lemma_acyclic_step(ts: Seq<Task>, a: Seq<char>, x: Seq<char>)
    requires
        acyclic_from(ts, a),
        dep_edge(ts, a, x),
    ensures
        acyclic_from(ts, x),
{
    assert forall|c: Seq<Seq<char>>| #[trigger] chain_from(ts, x, c) implies c.no_duplicates() by {
        lemma_chain_cons(ts, a, c);
        let q = seq![a] + c;
        assert(chain_from(ts, a, q));
        assert forall|i: int, j: int| 0 <= i < j < c.len() implies c[i] != c[j] by {
            assert(q[i + 1] == c[i] && q[j + 1] == c[j]);
        }
    }
}

/// A walk that comes back to an id it has passed shows a cycle reachable from that id.
proof fn lemma_path_closes(ts: Seq<Task>, v: Seq<Seq<char>>, x: Seq<char>)
    requires
        dep_chain(ts, v.push(x)),
        v.contains(x),
    ensures
        !acyclic_from(ts, x),
{
    let p = v.push(x);
    let j = choose|j: int| 0 <= j < v.len() && v[j] == x;
    let c = p.subrange(j, p.len() as int);
    assert forall|k: int| 0 <= k < c.len() - 1 implies #[trigger] dep_edge(ts, c[k], c[k + 1]) by {
        assert(c[k] == p[j + k] && c[k + 1] == p[(j + k) + 1]);
        assert(dep_edge(ts, p[j + k], p[(j + k) + 1]));
    }
    assert(c[0] == p[j] && p[j] == v[j]);
    assert(chain_from(ts, x, c));
    assert(c[0] == c[c.len() - 1]);
}

/// Every id on a chain from a task's id is the id of some task.
proof fn lemma_chain_ids(ts: Seq<Task>, c: Seq<Seq<char>>)
    requires
        dep_chain(ts, c),
        all_ids(ts).contains(c[0]),
    ensures
        forall|x: Seq<char>| c.contains(x) ==> all_ids(ts).contains(x),
{
    assert forall|x: Seq<char>| c.contains(x) implies all_ids(ts).contains(x) by {
        let i = choose|i: int| 0 <= i < c.len() && c[i] == x;
        if i > 0 {
            assert(dep_edge(ts, c[i - 1], c[(i - 1) + 1]));
            lemma_dependents_are_ids(ts, c[i - 1], x);
        }
    }
}

fn memo_lookup(memo: &Vec<(String, usize)>, id: &str) -> (r: Option<usize>)
    ensures
        memo.len() == 0 ==> r is None,
        r is None <==> forall|i: int| 0 <= i < memo.len() ==> (#[trigger] memo@[i]).0@ != id@,
        r matches Some(d) ==> exists|i: int|
            0 <= i < memo.len() && (#[trigger] memo@[i]).0@ == id@ && memo@[i].1 == d && forall|j: int|
                0 <= j < i ==> (#[trigger] memo@[j]).0@ != id@,
{
    let mut i: usize = 0;
    while i < memo.len()
        invariant
            i <= memo.len(),
            forall|j: int| 0 <= j < i ==> (#[trigger] memo@[j]).0@ != id@,
        decreases memo.len() - i,
    {
        if str_eq(memo[i].0.as_str(), id) {
            assert(memo@[i as int].0@ == id@);
            return Some(memo[i].1);
        }
        i += 1;
    }
    None
}

fn remove_last_if(v: &mut Vec<String>, id: &str)
    requires
        old(v).len() > 0,
        old(v)@.last()@ == id@,
    ensures
        final(v)@ == old(v)@.drop_last(),
{
    v.pop();
}

impl<'a> Graph<'a> {
    /// Depth of the longest dependent chain below `id`, memoized; an id
    /// already on the walk counts 0 (cycle guard).
    fn depth(
        &self,
        id: &str,
        visiting: &mut Vec<String>,
        memo: &mut Vec<(String, usize)>,
        Ghost(w): Ghost<Set<Seq<char>>>,
        Ghost(fuel): Ghost<nat>,
    ) -> (r: usize)
        requires
            w.finite(),
            w.contains(id@),
            all_ids(self.tasks_spec()).subset_of(w),
            texts(old(visiting)@).no_duplicates(),
            forall|x: Seq<char>| texts(old(visiting)@).contains(x) ==> w.contains(x),
            fuel + old(visiting).len() >= w.len(),
            dep_chain(self.tasks_spec(), texts(old(visiting)@).push(id@)),
            memo_ok(self.tasks_spec(), old(memo)@),
        ensures
            final(visiting)@ == old(visiting)@,
            memo_ok(self.tasks_spec(), final(memo)@),
            acyclic_from(self.tasks_spec(), id@) ==> longest_is(self.tasks_spec(), id@, r as nat),
            (old(memo).len() == 0 && !texts(old(visiting)@).contains(id@)) ==> ((r == 0) <==> dependent_ids(
                self.tasks_spec(),
                id@,
            ).len() == 0),
        decreases fuel,
    {
        let ghost ts = self.tasks_spec();
        if let Some(d) = memo_lookup(memo, id) {
            return d;
        }
        if contains_str(visiting, id) {
            proof {
                lemma_path_closes(ts, texts(visiting@), id@);
            }
            return 0;
        }
        proof {
            let v2 = texts(visiting@).push(id@);
            assert(v2.no_duplicates()) by {
                assert forall|a: int, b: int| 0 <= a < b < v2.len() implies v2[a] != v2[b] by {
                    if b == v2.len() - 1 {
                        assert(texts(visiting@)[a] == v2[a]);
                        assert(texts(visiting@).contains(v2[a]));
                    } else {
                        assert(texts(visiting@)[a] == v2[a] && texts(visiting@)[b] == v2[b]);
                    }
                }
            }
            assert forall|x: Seq<char>| v2.contains(x) implies w.contains(x) by {
                let j = choose|j: int| 0 <= j < v2.len() && v2[j] == x;
                if j < visiting.len() {
                    assert(texts(visiting@)[j] == x);
                    assert(texts(visiting@).contains(x));
                }
            }
            lemma_distinct_within(v2, w);
        }
        let ghost v0 = visiting@;
        let owned = id.to_owned();
        let ghost pushed = owned;
        visiting.push(owned);
        proof {
            assert(texts(visiting@) =~= texts(v0).push(id@));
            vstd::seq_lib::seq_to_set_is_finite(ts.map_values(|t: Task| t.id_spec()));
            ts.map_values(|t: Task| t.id_spec()).lemma_cardinality_of_set();
            assert(chain_from(ts, id@, seq![id@]));
        }
        let n_tasks = self.tasks.len();
        let ds = self.dependents_of(id);
        let mut best: usize = 0;
        let mut k: usize = 0;
        while k < ds.len()
            invariant
                ts == self.tasks_spec(),
                ts.len() == n_tasks,
                all_ids(ts).len() <= ts.len(),
                all_ids(ts).finite(),
                w.finite(),
                all_ids(ts).subset_of(w),
                visiting@ == v0.push(pushed),
                pushed@ == id@,
                texts(visiting@) == texts(v0).push(id@),
                texts(visiting@).no_duplicates(),
                forall|x: Seq<char>| texts(visiting@).contains(x) ==> w.contains(x),
                fuel >= 1,
                fuel - 1 + visiting.len() >= w.len(),
                dep_chain(ts, texts(visiting@)),
                memo_ok(ts, memo@),
                texts(ds@) == dependent_ids(ts, id@),
                k <= ds.len(),
                (k > 0) ==> best >= 1,
                (k == 0) ==> best == 0,
                chain_from(ts, id@, seq![id@]),
                acyclic_from(ts, id@) ==> exists|c: Seq<Seq<char>>|
                    #[trigger] chain_from(ts, id@, c) && c.len() == best + 1,
                acyclic_from(ts, id@) ==> forall|j: int, c: Seq<Seq<char>>|
                    0 <= j < k && #[trigger] chain_from(ts, ds@[j]@, c) ==> c.len() <= best,
            decreases ds.len() - k,
        {
            let ghost x = ds@[k as int]@;
            proof {
                assert(texts(ds@)[k as int] == x);
                assert(dependent_ids(ts, id@).contains(x));
                assert(dep_edge(ts, id@, x));
                lemma_dependents_are_ids(ts, id@, x);
                assert(texts(visiting@).last() == id@);
                lemma_chain_push(ts, texts(visiting@), x);
            }
            let d = self.depth(ds[k].as_str(), visiting, memo, Ghost(w), Ghost((fuel - 1) as nat));
            proof {
                if acyclic_from(ts, id@) {
                    lemma_acyclic_step(ts, id@, x);
                    let c = choose|c: Seq<Seq<char>>| #[trigger] chain_from(ts, x, c) && c.len() == d + 1;
                    lemma_chain_ids(ts, c);
                    lemma_distinct_within(c, all_ids(ts));
                }
            }
            let step = d.saturating_add(1);
            if step > best {
                proof {
                    if acyclic_from(ts, id@) {
                        let c = choose|c: Seq<Seq<char>>| #[trigger] chain_from(ts, x, c) && c.len() == d + 1;
                        lemma_chain_cons(ts, id@, c);
                        assert(chain_from(ts, id@, seq![id@] + c));
                    }
                }
                best = step;
            }
            k += 1;
        }
        proof {
            if acyclic_from(ts, id@) {
                assert forall|c: Seq<Seq<char>>| #[trigger] chain_from(ts, id@, c) implies c.len() <= best + 1 by {
                    if c.len() >= 2 {
                        lemma_chain_tail(ts, c);
                        let j = choose|j: int| 0 <= j < texts(ds@).len() && texts(ds@)[j] == c[1];
                        assert(texts(ds@)[j] == ds@[j]@);
                        assert(chain_from(ts, ds@[j]@, c.drop_first()));
                    }
                }
            }
        }
        remove_last_if(visiting, id);
        proof {
            assert(visiting@ =~= v0);
        }
        let ghost m0 = memo@;
        memo.push((id.to_owned(), best));
        proof {
            assert forall|i: int|
                0 <= i < memo@.len() && acyclic_from(ts, (#[trigger] memo@[i]).0@) implies longest_is(
                ts,
                memo@[i].0@,
                memo@[i].1 as nat,
            ) by {
                if i < m0.len() {
                    assert(memo@[i] == m0[i]);
                }
            }
        }
        best
    }

    /// How deep the chains of dependent tasks below this one go: where no
    /// cycle can be reached from `id`, the number of edges on the longest
    /// chain; zero exactly when no task lists it as a dependency. Cycles are
    /// cut.
    pub fn downstream_depth(&self, id: &str) -> (r: usize)
        ensures
            (r == 0) <==> dependent_ids(self.tasks_spec(), id@).len() == 0,
            acyclic_from(self.tasks_spec(), id@) ==> longest_is(self.tasks_spec(), id@, r as nat),
    {
        let ghost ts = self.tasks_spec();
        let ghost w = all_ids(ts).insert(id@);
        proof {
            vstd::seq_lib::seq_to_set_is_finite(ts.map_values(|t: Task| t.id_spec()));
            ts.map_values(|t: Task| t.id_spec()).lemma_cardinality_of_set();
        }
        let mut visiting: Vec<String> = Vec::new();
        let mut memo: Vec<(String, usize)> = Vec::new();
        proof {
            assert(texts(visiting@) =~= Seq::<Seq<char>>::empty());
            assert(w.len() <= all_ids(ts).len() + 1);
            assert(texts(visiting@).push(id@) =~= seq![id@]);
        }
        self.depth(id, &mut visiting, &mut memo, Ghost(w), Ghost(w.len()))
    }
}

/// A task is ready exactly when each of its dependencies, at every
/// position, names a task (the first file carrying that id) whose status is
/// completed; a missing dependency is never ready.
pub proof fn law_ready_means_every_dependency_completed(ts: Seq<Task>, deps: Seq<Seq<char>>)
    ensures
        ready_spec(ts, deps) <==> forall|k: int|
            0 <= k < deps.len() ==> (first_with_id(ts, #[trigger] deps[k]) matches Some(i) && ts[i].effective_status_spec()
                == Status::Completed),
        forall|k: int| 0 <= k < deps.len() && first_with_id(ts, #[trigger] deps[k]) is None ==> !ready_spec(ts, deps),
{
    if ready_spec(ts, deps) {
        assert forall|k: int| 0 <= k < deps.len() implies (first_with_id(ts, #[trigger] deps[k]) matches Some(i)
            && ts[i].effective_status_spec() == Status::Completed) by {
            assert(done_dep(ts, deps[k]));
        }
    }
    if forall|k: int|
        0 <= k < deps.len() ==> (first_with_id(ts, #[trigger] deps[k]) matches Some(i) && ts[i].effective_status_spec()
            == Status::Completed) {
        assert forall|k: int| 0 <= k < deps.len() implies #[trigger] done_dep(ts, deps[k]) by {
            assert(first_with_id(ts, deps[k]) matches Some(i) && ts[i].effective_status_spec() == Status::Completed);
        }
    }
    assert forall|k: int| 0 <= k < deps.len() && first_with_id(ts, #[trigger] deps[k]) is None implies !ready_spec(ts, deps) by {
        assert(!done_dep(ts, deps[k]));
    }
}

} // verus!
