//! The dependency graph of an orchestration run.

use std::collections::{HashMap, HashSet};

use vstd::std_specs::iter::IteratorSpec;

use vstd::prelude::*;

use crate::cycle::{has_cycle, is_step, is_walk, lemma_order_excludes_cycle, respects};

verus! {

broadcast use {vstd::std_specs::hash::group_hash_axioms, vstd::seq_lib::group_seq_properties};

/// The graph after `task_id` is made known, with no dependency of its own if it is new.
pub open spec fn with_task(m: Map<u128, Set<u128>>, task_id: u128) -> Map<u128, Set<u128>> {
    if m.dom().contains(task_id) {
        m
    } else {
        m.insert(task_id, Set::empty())
    }
}

/// The graph after `task_id` is made to wait for `depends_on_id`; both become known.
pub open spec fn with_dependency(
    m: Map<u128, Set<u128>>,
    task_id: u128,
    depends_on_id: u128,
) -> Map<u128, Set<u128>> {
    let known = with_task(with_task(m, task_id), depends_on_id);
    known.insert(task_id, known[task_id].insert(depends_on_id))
}

/// The dependency edges of a graph: `(a, b)` when `a` waits for `b`.
pub open spec fn graph_edges(m: Map<u128, Set<u128>>) -> Set<(u128, u128)> {
    Set::new(|e: (u128, u128)| m.dom().contains(e.0) && m[e.0].contains(e.1))
}

/// Every dependency of a known task is itself a known task.
pub open spec fn deps_are_known(m: Map<u128, Set<u128>>) -> bool {
    forall|t: u128, d: u128| m.dom().contains(t) && #[trigger] m[t].contains(d) ==> m.dom().contains(d)
}

/// The known tasks that are not completed and whose dependencies are all completed.
pub open spec fn ready_set(m: Map<u128, Set<u128>>, completed: Set<u128>) -> Set<u128> {
    Set::new(|t: u128| m.dom().contains(t) && !completed.contains(t) && m[t].subset_of(completed))
}

/// The dependencies of `task_id` that are not completed yet (none for an unknown task).
pub open spec fn blocking_set(
    m: Map<u128, Set<u128>>,
    task_id: u128,
    completed: Set<u128>,
) -> Set<u128> {
    if m.dom().contains(task_id) {
        m[task_id].difference(completed)
    } else {
        Set::empty()
    }
}


/// How many entries of `v` are `false`.
spec fn count_unvisited(v: Seq<bool>) -> nat
    decreases v.len(),
{
    if v.len() == 0 {
        0
    } else {
        count_unvisited(v.drop_last()) + if v.last() {
            0nat
        } else {
            1nat
        }
    }
}

proof fn lemma_count_unvisited_grows(a: Seq<bool>, b: Seq<bool>)
    requires
        a.len() == b.len(),
        forall|i: int| 0 <= i < a.len() && a[i] ==> b[i],
    ensures
        count_unvisited(b) <= count_unvisited(a),
        (exists|i: int| 0 <= i < a.len() && !a[i] && b[i]) ==> count_unvisited(b) < count_unvisited(a),
    decreases a.len(),
{
    if a.len() > 0 {
        lemma_count_unvisited_grows(a.drop_last(), b.drop_last());
        if exists|i: int| 0 <= i < a.len() && !a[i] && b[i] {
            let i = choose|i: int| 0 <= i < a.len() && !a[i] && b[i];
            if i < a.len() - 1 {
                assert(!a.drop_last()[i] && b.drop_last()[i]);
            }
        }
    }
}

/// Tasks of `v` whose flag is set.
spec fn flagged(tasks: Seq<u128>, v: Seq<bool>, t: u128) -> bool {
    exists|i: int| 0 <= i < tasks.len() && tasks[i] == t && v[i]
}

/// The members of a set of ids, each once.
fn set_items(s: &HashSet<u128>) -> (v: Vec<u128>)
    ensures
        v@.no_duplicates(),
        v@.to_set() == s@,
{
    let ghost all = vstd::std_specs::hash::spec_hash_keys_iter(s).remaining().map_values(|r: &u128| *r);
    let mut v: Vec<u128> = Vec::new();
    for x in it: s.iter()
        invariant
            it.seq() == vstd::std_specs::hash::spec_hash_keys_iter(s).remaining(),
            all == it.seq().map_values(|r: &u128| *r),
            v@ == all.take(it.index() as int),
    {
        v.push(*x);
        assert(all.take(it.index() + 1) =~= all.take(it.index() as int).push(*x));
    }
    assert(v@ =~= all);
    proof {
        vstd::std_specs::hash::axiom_spec_hash_keys_iter(s);
        let rem = vstd::std_specs::hash::spec_hash_keys_iter(s).remaining();
        assert(rem.unref() =~= all);
    }
    v
}

/// Tasks that depend only on tasks listed before them in `fin` (and are listed themselves).
spec fn finished_closed(edges: Set<(u128, u128)>, fin: Seq<u128>) -> bool {
    forall|f: u128, d: u128| fin.contains(f) && #[trigger] edges.contains((f, d)) ==> fin.contains(d)
}

impl IndexedGraph {
    spec fn dfs_state(
        &self,
        visited: Seq<bool>,
        on_stack: Seq<bool>,
        path: Seq<u128>,
        fin: Seq<u128>,
    ) -> bool {
        let n = self.tasks@.len();
        let edges = graph_edges(self@);
        &&& visited.len() == n
        &&& on_stack.len() == n
        &&& forall|i: int| 0 <= i < n && #[trigger] on_stack[i] ==> visited[i]
        &&& forall|i: int| 0 <= i < n ==> (on_stack[i] <==> path.contains(#[trigger] self.tasks@[i]))
        &&& forall|i: int|
            0 <= i < n ==> (visited[i] && !on_stack[i] <==> fin.contains(#[trigger] self.tasks@[i]))
        &&& forall|k: int| 0 <= k < path.len() ==> self.tasks@.contains(#[trigger] path[k])
        &&& forall|k: int| 0 <= k < fin.len() ==> self.tasks@.contains(#[trigger] fin[k])
        &&& path.no_duplicates()
        &&& is_walk(edges, path)
        &&& respects(edges, fin)
        &&& finished_closed(edges, fin)
    }
}

/// A graph held as a list of its tasks and, at the same positions, the list of what each
/// waits for; the depth-first search runs on it.
struct IndexedGraph {
    tasks: Vec<u128>,
    deps: Vec<Vec<u128>>,
    model: Ghost<Map<u128, Set<u128>>>,
}

impl View for IndexedGraph {
    type V = Map<u128, Set<u128>>;

    closed spec fn view(&self) -> Map<u128, Set<u128>> {
        self.model@
    }
}

impl IndexedGraph {
    /// The vectors describe the graph.
    spec fn wf(&self) -> bool {
        &&& self.tasks@.len() == self.deps@.len()
        &&& self.tasks@.no_duplicates()
        &&& self.model@.dom() == self.tasks@.to_set()
        &&& forall|i: int|
            0 <= i < self.tasks@.len() ==> self.model@[#[trigger] self.tasks@[i]]
                == self.deps@[i]@.to_set()
        &&& forall|i: int| 0 <= i < self.deps@.len() ==> (#[trigger] self.deps@[i])@.no_duplicates()
        &&& deps_are_known(self.model@)
    }

    fn position(&self, task_id: u128) -> (r: Option<usize>)
        requires
            self.wf(),
        ensures
            match r {
                Some(i) => i < self.tasks@.len() && self.tasks@[i as int] == task_id,
                None => !self@.dom().contains(task_id),
            },
    {
        let n = self.tasks.len();
        for i in 0..n
            invariant
                n == self.tasks@.len(),
                forall|j: int| 0 <= j < i ==> self.tasks@[j] != task_id,
        {
            if self.tasks[i] == task_id {
                return Some(i);
            }
        }
        None
    }

    /// Depth-first search from task `idx`; `path` is the chain of tasks being explored.
    fn dfs_cycle(
        &self,
        idx: usize,
        visited: &mut Vec<bool>,
        on_stack: &mut Vec<bool>,
        Ghost(path): Ghost<Seq<u128>>,
        Ghost(fin): Ghost<Seq<u128>>,
    ) -> (r: (bool, Ghost<Seq<u128>>))
        requires
            self.wf(),
            idx < self.tasks@.len(),
            self.dfs_state(old(visited)@, old(on_stack)@, path, fin),
            path.len() > 0 ==> graph_edges(self@).contains((path.last(), self.tasks@[idx as int])),
        ensures
            r.0 ==> has_cycle(graph_edges(self@)),
            !r.0 ==> {
                &&& self.dfs_state(final(visited)@, final(on_stack)@, path, r.1@)
                &&& r.1@.contains(self.tasks@[idx as int])
                &&& r.1@.take(fin.len() as int) == fin
                &&& fin.len() <= r.1@.len()
                &&& final(on_stack)@ == old(on_stack)@
                &&& forall|i: int| 0 <= i < old(visited)@.len() && old(visited)@[i] ==> final(visited)@[i]
            },
        decreases count_unvisited(old(visited)@),
    {
        let ghost edges = graph_edges(self@);
        let ghost node = self.tasks@[idx as int];
        if on_stack[idx] {
            proof {
                let m = path.index_of(node);
                let c = path.subrange(m, path.len() as int).push(node);
                assert(edges.contains((path.last(), node)));
                assert forall|k: int| 0 <= k < c.len() - 1 implies #[trigger] is_step(edges, c, k) by {
                    if k < c.len() - 2 {
                        assert(is_step(edges, path, m + k));
                    }
                }
                assert(c.len() >= 2 && c[0] == c.last() && is_walk(edges, c));
            }
            return (true, Ghost(fin));
        }
        if visited[idx] {
            assert(fin.take(fin.len() as int) =~= fin);
            return (false, Ghost(fin));
        }
        let ghost visited0 = visited@;
        let ghost on_stack0 = on_stack@;
        visited.set(idx, true);
        on_stack.set(idx, true);
        let ghost path2 = path.push(node);
        proof {
            lemma_count_unvisited_grows(visited0, visited@);
            assert forall|k: int| 0 <= k < path2.len() - 1 implies #[trigger] is_step(edges, path2, k) by {
                if k < path.len() - 1 {
                    assert(is_step(edges, path, k));
                }
            }
            assert forall|i: int| 0 <= i < self.tasks@.len() implies (on_stack@[i] <==> path2.contains(
                #[trigger] self.tasks@[i],
            )) by {
                if i != idx {
                    assert(self.tasks@[i] != node);
                }
            }
            assert forall|i: int| 0 <= i < self.tasks@.len() implies (visited@[i] && !on_stack@[i]
                <==> fin.contains(#[trigger] self.tasks@[i])) by {
                if i == idx {
                    assert(!fin.contains(node));
                }
            }
        }
        let mut cur: Ghost<Seq<u128>> = Ghost(fin);
        let ds = &self.deps[idx];
        let m = ds.len();
        for k in 0..m
            invariant
                self.wf(),
                idx < self.tasks@.len(),
                node == self.tasks@[idx as int],
                edges == graph_edges(self@),
                m == ds@.len(),
                ds == self.deps@[idx as int],
                path2 == path.push(node),
                self.dfs_state(visited@, on_stack@, path2, cur@),
                visited@[idx as int],
                on_stack@ == on_stack0.update(idx as int, true),
                cur@.take(fin.len() as int) == fin,
                fin.len() <= cur@.len(),
                visited0.len() == self.tasks@.len(),
                visited0 == old(visited)@,
                forall|i: int| 0 <= i < visited0.len() && visited0[i] ==> visited@[i],
                count_unvisited(visited@) < count_unvisited(visited0),
                forall|j: int| 0 <= j < k ==> cur@.contains(#[trigger] ds@[j]),
        {
            let d = ds[k];
            let j = match self.position(d) {
                Some(j) => j,
                None => {
                    assert(self.model@[node].contains(d));
                    assert(false);
                    0
                },
            };
            proof {
                assert(self.model@[node].contains(d));
                assert(edges.contains((path2.last(), self.tasks@[j as int])));
            }
            let ghost visited1 = visited@;
            let ghost cur1 = cur@;
            let res = self.dfs_cycle(j, visited, on_stack, Ghost(path2), cur);
            if res.0 {
                return (true, Ghost(fin));
            }
            cur = res.1;
            proof {
                lemma_count_unvisited_grows(visited1, visited@);
                assert forall|i: int| 0 <= i < visited0.len() && visited0[i] implies visited@[i] by {
                    assert(visited1[i]);
                }
                assert(cur@.take(fin.len() as int) =~= cur1.take(fin.len() as int));
                assert forall|jj: int| 0 <= jj < k + 1 implies cur@.contains(#[trigger] ds@[jj]) by {
                    if jj < k {
                        assert(cur1.contains(ds@[jj]));
                        let q = choose|q: int| 0 <= q < cur1.len() && cur1[q] == ds@[jj];
                        assert(cur@.take(cur1.len() as int)[q] == ds@[jj]);
                    }
                }
            }
        }
        on_stack.set(idx, false);
        let ghost fin2 = cur@.push(node);
        proof {
            assert(on_stack@ =~= on_stack0);
            assert(!cur@.contains(node));
            assert forall|i: int| 0 <= i < self.tasks@.len() implies (on_stack@[i] <==> path.contains(
                #[trigger] self.tasks@[i],
            )) by {
                if i != idx {
                    assert(self.tasks@[i] != node);
                    assert(path2.contains(self.tasks@[i]) ==> path.contains(self.tasks@[i]));
                } else {
                    assert(!on_stack0[i]);
                }
            }
            assert forall|i: int| 0 <= i < self.tasks@.len() implies (visited@[i] && !on_stack@[i]
                <==> fin2.contains(#[trigger] self.tasks@[i])) by {
                if i != idx {
                    assert(self.tasks@[i] != node);
                }
            }
            assert forall|f: u128, d: u128| fin2.contains(f) && #[trigger] edges.contains((f, d)) implies fin2.contains(d) by {
                if f == node {
                    assert(self.model@[node] == ds@.to_set());
                    let jj = choose|jj: int| 0 <= jj < m && ds@[jj] == d;
                    assert(cur@.contains(ds@[jj]));
                } else {
                    assert(cur@.contains(f));
                }
            }
            assert forall|a: int, b: int|
                0 <= a < fin2.len() && 0 <= b < fin2.len() && #[trigger] edges.contains((fin2[a], fin2[b])) implies b < a by {
                if a == fin2.len() - 1 {
                    if b == a {
                        assert(self.model@[node] == ds@.to_set());
                        let jj = choose|jj: int| 0 <= jj < m && ds@[jj] == node;
                        assert(cur@.contains(ds@[jj]));
                    }
                } else if b == fin2.len() - 1 {
                    assert(cur@.contains(fin2[a]));
                    assert(cur@.contains(node));
                } else {
                    assert(edges.contains((cur@[a], cur@[b])));
                }
            }
            assert(fin2.take(fin.len() as int) =~= cur@.take(fin.len() as int));
        }
        (false, Ghost(fin2))
    }

    /// Whether some task depends on itself, directly or through other tasks.
    fn has_cycle(&self) -> (r: bool)
        requires
            self.wf(),
        ensures
            r == has_cycle(graph_edges(self@)),
    {
        let n = self.tasks.len();
        let mut visited: Vec<bool> = vec![false; n];
        let mut on_stack: Vec<bool> = vec![false; n];
        let mut fin: Ghost<Seq<u128>> = Ghost(Seq::empty());
        proof {
            assert(is_walk(graph_edges(self@), Seq::<u128>::empty()));
        }
        for i in 0..n
            invariant
                self.wf(),
                n == self.tasks@.len(),
                self.dfs_state(visited@, on_stack@, Seq::empty(), fin@),
                forall|k: int| 0 <= k < n ==> !on_stack@[k],
                forall|k: int| 0 <= k < i ==> visited@[k],
        {
            let res = self.dfs_cycle(i, &mut visited, &mut on_stack, Ghost(Seq::empty()), fin);
            if res.0 {
                return true;
            }
            fin = res.1;
        }
        proof {
            let edges = graph_edges(self@);
            assert forall|e: (u128, u128)| #[trigger] edges.contains(e) implies fin@.contains(e.0) by {
                assert(self.tasks@.to_set().contains(e.0));
                let k = choose|k: int| 0 <= k < n && self.tasks@[k] == e.0;
                assert(visited@[k] && !on_stack@[k]);
            }
            lemma_order_excludes_cycle(edges, fin@);
        }
        false
    }
}


/// Tasks and the tasks each of them has to wait for.
pub struct DependencyGraph {
    /// Every known task, with the tasks it waits for.
    deps: HashMap<u128, HashSet<u128>>,
    /// Every known task.
    all_tasks: HashSet<u128>,
}

impl View for DependencyGraph {
    type V = Map<u128, Set<u128>>;

    closed spec fn view(&self) -> Map<u128, Set<u128>> {
        self.deps@.map_values(|s: HashSet<u128>| s@)
    }
}

impl Default for DependencyGraph {
    /// An empty graph.
    fn default() -> (g: Self)
        ensures
            g.wf(),
            g@ == Map::<u128, Set<u128>>::empty(),
    {
        DependencyGraph::new()
    }
}

impl DependencyGraph {
    /// The known tasks are the keys of the map, and what a task waits for is known too.
    pub closed spec fn wf(&self) -> bool {
        &&& self.all_tasks@ == self.deps@.dom()
        &&& deps_are_known(self@)
    }

    /// An empty graph.
    pub fn new() -> (g: Self)
        ensures
            g.wf(),
            g@ == Map::<u128, Set<u128>>::empty(),
    {
        let g = DependencyGraph { deps: HashMap::new(), all_tasks: HashSet::new() };
        assert(g@ =~= Map::<u128, Set<u128>>::empty());
        g
    }

    /// Makes `task_id` known, with no dependency if it is new.
    pub fn add_task(&mut self, task_id: u128)
        requires
            old(self).wf(),
        ensures
            final(self).wf(),
            final(self)@ == with_task(old(self)@, task_id),
    {
        let ghost before = self@;
        self.all_tasks.insert(task_id);
        if !self.deps.contains_key(&task_id) {
            self.deps.insert(task_id, HashSet::new());
        }
        assert(self@ =~= with_task(before, task_id));
        assert(self.all_tasks@ =~= self.deps@.dom());
    }

    /// Records that `task_id` cannot start before `depends_on_id` is finished.
    pub fn add_dependency(&mut self, task_id: u128, depends_on_id: u128)
        requires
            old(self).wf(),
        ensures
            final(self).wf(),
            final(self)@ == with_dependency(old(self)@, task_id, depends_on_id),
    {
        self.add_task(task_id);
        self.add_task(depends_on_id);
        let ghost known = self@;
        let ghost old_deps = self.deps@;
        assert(known.dom().contains(task_id));
        assert(old_deps.dom() =~= known.dom());
        assert(old_deps.contains_key(task_id));
        let mut waits = match self.deps.remove(&task_id) {
            Some(w) => {
                assert(old_deps[task_id] == w);
                w
            },
            None => {
                assert(false);
                HashSet::new()
            },
        };
        assert(self.deps@ == old_deps.remove(task_id));
        assert(waits@ == known[task_id]);
        waits.insert(depends_on_id);
        self.deps.insert(task_id, waits);
        assert(self@ =~= known.insert(task_id, known[task_id].insert(depends_on_id)));
        assert(self.all_tasks@ =~= self.deps@.dom());
    }

    /// What `task_id` waits for, each once; nothing for an unknown task.
    fn waits_of(&self, task_id: u128) -> (v: Vec<u128>)
        requires
            self.wf(),
        ensures
            v@.no_duplicates(),
            v@.to_set() == if self@.dom().contains(task_id) {
                self@[task_id]
            } else {
                Set::<u128>::empty()
            },
    {
        match self.deps.get(&task_id) {
            Some(w) => set_items(w),
            None => {
                let v: Vec<u128> = Vec::new();
                assert(v@.to_set() =~= Set::<u128>::empty());
                v
            },
        }
    }

    /// The graph as a list of tasks with, at the same positions, what each waits for.
    fn indexed(&self) -> (g: IndexedGraph)
        requires
            self.wf(),
        ensures
            g.wf(),
            g@ == self@,
    {
        let tasks = set_items(&self.all_tasks);
        let mut deps: Vec<Vec<u128>> = Vec::new();
        let n = tasks.len();
        for i in 0..n
            invariant
                self.wf(),
                n == tasks@.len(),
                tasks@.to_set() == self@.dom(),
                deps@.len() == i,
                forall|j: int| 0 <= j < i ==> #[trigger] deps@[j]@.to_set() == self@[tasks@[j]],
                forall|j: int| 0 <= j < i ==> (#[trigger] deps@[j])@.no_duplicates(),
        {
            assert(self@.dom().contains(tasks@[i as int]));
            deps.push(self.waits_of(tasks[i]));
        }
        let g = IndexedGraph { tasks, deps, model: Ghost(self@) };
        assert forall|i: int| 0 <= i < g.tasks@.len() implies g.model@[#[trigger] g.tasks@[i]]
            == g.deps@[i]@.to_set() by {
        }
        g
    }

    /// The known tasks that are not in `completed` and whose dependencies all are.
    pub fn ready_tasks(&self, completed: &HashSet<u128>) -> (ready: Vec<u128>)
        requires
            self.wf(),
        ensures
            ready@.no_duplicates(),
            ready@.to_set() == ready_set(self@, completed@),
    {
        let tasks = set_items(&self.all_tasks);
        let mut ready: Vec<u128> = Vec::new();
        let n = tasks.len();
        for i in 0..n
            invariant
                self.wf(),
                n == tasks@.len(),
                tasks@.no_duplicates(),
                tasks@.to_set() == self@.dom(),
                ready@.no_duplicates(),
                forall|k: int| 0 <= k < ready@.len() ==> tasks@.take(i as int).contains(
                    #[trigger] ready@[k],
                ),
                forall|t: u128|
                    tasks@.take(i as int).contains(t) ==> (ready@.contains(t)
                        <==> ready_set(self@, completed@).contains(t)),
        {
            let t = tasks[i];
            assert(self@.dom().contains(t));
            let ds = self.waits_of(t);
            let mut all_done = !completed.contains(&t);
            let m = ds.len();
            for k in 0..m
                invariant
                    m == ds@.len(),
                    all_done == (!completed@.contains(t) && forall|j: int|
                        0 <= j < k ==> completed@.contains(#[trigger] ds@[j])),
            {
                if !completed.contains(&ds[k]) {
                    all_done = false;
                }
            }
            assert(all_done == ready_set(self@, completed@).contains(t)) by {
                if all_done {
                    assert forall|d: u128| self@[t].contains(d) implies completed@.contains(d) by {
                        assert(ds@.to_set().contains(d));
                        let j = choose|j: int| 0 <= j < ds@.len() && ds@[j] == d;
                    }
                } else if !completed@.contains(t) {
                    let j = choose|j: int| 0 <= j < m && !completed@.contains(#[trigger] ds@[j]);
                    assert(ds@.to_set().contains(ds@[j]));
                }
            }
            let ghost before = ready@;
            if all_done {
                ready.push(t);
            }
            assert(tasks@.take(i + 1) =~= tasks@.take(i as int).push(t));
            assert forall|k: int| 0 <= k < ready@.len() implies tasks@.take(i + 1).contains(
                #[trigger] ready@[k],
            ) by {
                if k < before.len() {
                    assert(tasks@.take(i as int).contains(before[k]));
                }
            }
            proof {
                if all_done {
                    assert(!tasks@.take(i as int).contains(t)) by {
                        if tasks@.take(i as int).contains(t) {
                            let j = choose|j: int| 0 <= j < i && tasks@.take(i as int)[j] == t;
                            assert(tasks@[j] == tasks@[i as int]);
                        }
                    }
                    assert(!before.contains(t)) by {
                        if before.contains(t) {
                            let k = choose|k: int| 0 <= k < before.len() && before[k] == t;
                            assert(tasks@.take(i as int).contains(before[k]));
                        }
                    }
                }
            }
        }
        assert(tasks@.take(n as int) =~= tasks@);
        assert(ready@.to_set() =~= ready_set(self@, completed@)) by {
            assert forall|t: u128| ready_set(self@, completed@).contains(t) implies ready@.to_set().contains(t) by {
                assert(tasks@.to_set().contains(t));
            }
        }
        ready
    }

    /// The dependencies of `task_id` that are not in `completed`.
    pub fn blocking_tasks(&self, task_id: u128, completed: &HashSet<u128>) -> (blocking: Vec<u128>)
        requires
            self.wf(),
        ensures
            blocking@.no_duplicates(),
            blocking@.to_set() == blocking_set(self@, task_id, completed@),
    {
        let ds = self.waits_of(task_id);
        let mut blocking: Vec<u128> = Vec::new();
        let m = ds.len();
        for k in 0..m
            invariant
                m == ds@.len(),
                ds@.no_duplicates(),
                blocking@.no_duplicates(),
                forall|j: int| 0 <= j < blocking@.len() ==> ds@.take(k as int).contains(
                    #[trigger] blocking@[j],
                ),
                forall|d: u128|
                    ds@.take(k as int).contains(d) ==> (blocking@.contains(d) <==> !completed@.contains(d)),
        {
            let d = ds[k];
            let ghost before = blocking@;
            if !completed.contains(&d) {
                blocking.push(d);
            }
            assert(ds@.take(k + 1) =~= ds@.take(k as int).push(d));
            assert forall|j: int| 0 <= j < blocking@.len() implies ds@.take(k + 1).contains(
                #[trigger] blocking@[j],
            ) by {
                if j < before.len() {
                    assert(ds@.take(k as int).contains(before[j]));
                }
            }
            proof {
                if !completed@.contains(d) {
                    assert(!ds@.take(k as int).contains(d)) by {
                        if ds@.take(k as int).contains(d) {
                            let j = choose|j: int| 0 <= j < k && ds@.take(k as int)[j] == d;
                            assert(ds@[j] == ds@[k as int]);
                        }
                    }
                    assert(!before.contains(d)) by {
                        if before.contains(d) {
                            let j = choose|j: int| 0 <= j < before.len() && before[j] == d;
                            assert(ds@.take(k as int).contains(before[j]));
                        }
                    }
                }
            }
        }
        assert(ds@.take(m as int) =~= ds@);
        assert(blocking@.to_set() =~= blocking_set(self@, task_id, completed@)) by {
            assert forall|d: u128| blocking_set(self@, task_id, completed@).contains(d) implies blocking@.to_set().contains(d) by {
                assert(ds@.to_set().contains(d));
            }
            assert forall|d: u128| blocking@.to_set().contains(d) implies blocking_set(self@, task_id, completed@).contains(d) by {
                let j = choose|j: int| 0 <= j < blocking@.len() && blocking@[j] == d;
                assert(ds@.contains(d));
                assert(ds@.to_set().contains(d));
            }
        }
        blocking
    }

    /// Whether some task depends on itself, directly or through other tasks.
    pub fn has_cycle(&self) -> (r: bool)
        requires
            self.wf(),
        ensures
            r == has_cycle(graph_edges(self@)),
    {
        self.indexed().has_cycle()
    }
}

/// A known task that is not completed is ready exactly when nothing blocks it: what
/// `ready_tasks` returns and what `blocking_tasks` reports agree.
pub proof fn lemma_ready_iff_unblocked(m: Map<u128, Set<u128>>, completed: Set<u128>, t: u128)
    requires
        m.dom().contains(t),
        !completed.contains(t),
    ensures
        ready_set(m, completed).contains(t) <==> blocking_set(m, t, completed) == Set::<u128>::empty(),
{
    if m[t].subset_of(completed) {
        assert(m[t].difference(completed) =~= Set::<u128>::empty());
    } else {
        let d = choose|d: u128| m[t].contains(d) && !completed.contains(d);
        assert(m[t].difference(completed).contains(d));
    }
}

} // verus!
