//! Turning the title-based dependencies of plan tasks into edges and a run order.

use std::collections::VecDeque;
use vstd::prelude::*;

use crate::cycle::{covers, has_cycle, is_step, is_walk, lemma_closed_set_has_cycle, lemma_order_excludes_cycle, respects, closed_under_deps};
use crate::planner_types::OcPlanTask;

verus! {

broadcast use vstd::seq_lib::group_seq_properties;

/// Why dependencies could not be ordered.
#[derive(Debug, Clone, Copy, PartialEq, Eq, Structural)]
pub enum DependencyError {
    CycleDetected,
}

/// The dependency edges of a plan and an order in which its tasks can run.
#[derive(Debug)]
pub struct ResolvedDeps {
    /// `(task_id, depends_on_task_id)` pairs, in ascending order, each once.
    pub edges: Vec<(u128, u128)>,
    /// Every task id once; each task comes after the tasks it depends on.
    pub ordered_task_ids: Vec<u128>,
}

/// Resolves the dependencies of a plan's tasks.
pub struct PlanDependencyResolver;

/// The id of the last task titled `title` (a later task with the same title wins).
pub open spec fn task_titled(tasks: Seq<OcPlanTask>, title: Seq<char>) -> Option<u128>
    decreases tasks.len(),
{
    if tasks.len() == 0 {
        None
    } else if tasks.last().title@ == title {
        Some(tasks.last().id)
    } else {
        task_titled(tasks.drop_last(), title)
    }
}

/// Dependency title `k` of task `i` names another task, whose id is `e.1`; `e.0` is task `i`'s id.
pub open spec fn declares(tasks: Seq<OcPlanTask>, i: int, k: int, e: (u128, u128)) -> bool {
    &&& 0 <= i < tasks.len()
    &&& 0 <= k < tasks[i].depends_on@.len()
    &&& e.0 == tasks[i].id
    &&& task_titled(tasks, tasks[i].depends_on@[k]@) == Some(e.1)
    &&& e.1 != e.0
}

/// The edges that the tasks' dependency titles declare: unknown titles and
/// dependencies of a task on itself are left out.
pub open spec fn declared_edges(tasks: Seq<OcPlanTask>) -> Set<(u128, u128)> {
    Set::new(|e: (u128, u128)| exists|i: int, k: int| declares(tasks, i, k, e))
}

/// Lexicographic order on id pairs (the order of the pairs of UUIDs they stand for).
pub open spec fn pair_lt(a: (u128, u128), b: (u128, u128)) -> bool {
    a.0 < b.0 || (a.0 == b.0 && a.1 < b.1)
}

/// Strictly ascending: sorted, and no pair twice.
pub open spec fn strictly_ascending(s: Seq<(u128, u128)>) -> bool {
    forall|i: int, j: int| 0 <= i < j < s.len() ==> pair_lt(#[trigger] s[i], #[trigger] s[j])
}

/// The ids of the tasks, in task order.
pub open spec fn task_ids(tasks: Seq<OcPlanTask>) -> Seq<u128> {
    tasks.map_values(|t: OcPlanTask| t.id)
}

/// The position in `order` of the last task that `t` depends on under `edges`, or -1 when
/// `order` holds none of them.
pub open spec fn last_dependency_at(edges: Set<(u128, u128)>, order: Seq<u128>, t: u128) -> int
    decreases order.len(),
{
    if order.len() == 0 {
        -1
    } else if edges.contains((t, order.last())) {
        order.len() - 1
    } else {
        last_dependency_at(edges, order.drop_last(), t)
    }
}

/// The `order_index` of the task with id `id`.
pub open spec fn order_index_of(tasks: Seq<OcPlanTask>, id: u128) -> i64 {
    tasks[choose|i: int| 0 <= i < tasks.len() && tasks[i].id == id].order_index
}

/// `order` is taken in batches, as Kahn's algorithm takes them: tasks without dependencies
/// first, then the tasks whose last dependency comes earlier before those whose last
/// dependency comes later; among tasks with the same last dependency (or none) the
/// smaller `order_index` first, and among tasks with the same last dependency and the same
/// `order_index` the smaller id first.
pub open spec fn in_batches(edges: Set<(u128, u128)>, tasks: Seq<OcPlanTask>, order: Seq<u128>) -> bool {
    forall|a: int, b: int|
        0 <= a < b < order.len() ==> {
            let da = last_dependency_at(edges, order, #[trigger] order[a]);
            let db = last_dependency_at(edges, order, #[trigger] order[b]);
            da < db || (da == db && order_index_of(tasks, order[a]) <= order_index_of(tasks, order[b])
                && (da >= 0 && order_index_of(tasks, order[a]) == order_index_of(tasks, order[b])
                ==> order[a] < order[b]))
        }
}

spec fn declared_before(tasks: Seq<OcPlanTask>, i: int, k: int) -> Set<(u128, u128)> {
    Set::new(
        |e: (u128, u128)|
            exists|i2: int, k2: int|
                declares(tasks, i2, k2, e) && (i2 < i || (i2 == i && k2 < k)),
    )
}

proof fn lemma_task_titled_prefix(tasks: Seq<OcPlanTask>, title: Seq<char>, j: int)
    requires
        0 <= j <= tasks.len(),
        forall|q: int| j <= q < tasks.len() ==> tasks[q].title@ != title,
    ensures
        task_titled(tasks, title) == task_titled(tasks.take(j), title),
    decreases tasks.len() - j,
{
    if j < tasks.len() {
        assert(tasks.drop_last().take(j) =~= tasks.take(j));
        lemma_task_titled_prefix(tasks.drop_last(), title, j);
    } else {
        assert(tasks.take(j) =~= tasks);
    }
}

proof fn lemma_task_titled_absent(tasks: Seq<OcPlanTask>, title: Seq<char>)
    requires
        forall|q: int| 0 <= q < tasks.len() ==> tasks[q].title@ != title,
    ensures
        task_titled(tasks, title) == None::<u128>,
    decreases tasks.len(),
{
    if tasks.len() > 0 {
        lemma_task_titled_absent(tasks.drop_last(), title);
    }
}

proof fn lemma_task_titled_is_task(tasks: Seq<OcPlanTask>, title: Seq<char>)
    requires
        task_titled(tasks, title) is Some,
    ensures
        exists|m: int| 0 <= m < tasks.len() && tasks[m].id == task_titled(tasks, title)->0,
    decreases tasks.len(),
{
    if tasks.last().title@ != title {
        lemma_task_titled_is_task(tasks.drop_last(), title);
        let m = choose|m: int| 0 <= m < tasks.drop_last().len() && tasks.drop_last()[m].id == task_titled(tasks.drop_last(), title)->0;
        assert(tasks[m].id == task_titled(tasks, title)->0);
    } else {
        assert(tasks[tasks.len() - 1].id == task_titled(tasks, title)->0);
    }
}

/// The position of the last task titled `title`.
fn find_titled(tasks: &[OcPlanTask], title: &String) -> (r: Option<usize>)
    ensures
        match r {
            Some(m) => m < tasks@.len() && task_titled(tasks@, title@) == Some(tasks@[m as int].id),
            None => task_titled(tasks@, title@) == None::<u128>,
        },
{
    let mut j = tasks.len();
    while j > 0
        invariant
            j <= tasks@.len(),
            forall|q: int| j <= q < tasks@.len() ==> tasks@[q].title@ != title@,
        decreases j,
    {
        if tasks[j - 1].title == *title {
            proof {
                lemma_task_titled_prefix(tasks@, title@, j as int);
                assert(tasks@.take(j as int).last() == tasks@[j - 1]);
            }
            return Some(j - 1);
        }
        j = j - 1;
    }
    proof {
        lemma_task_titled_absent(tasks@, title@);
    }
    None
}

/// Adds `e` to a strictly ascending sequence of pairs unless it is there already.
fn insert_ascending(v: &mut Vec<(u128, u128)>, e: (u128, u128))
    requires
        strictly_ascending(old(v)@),
    ensures
        strictly_ascending(final(v)@),
        final(v)@.to_set() == old(v)@.to_set().insert(e),
{
    let n = v.len();
    let mut p: usize = 0;
    while p < n && (v[p].0 < e.0 || (v[p].0 == e.0 && v[p].1 < e.1))
        invariant
            n == v@.len(),
            p <= n,
            forall|q: int| 0 <= q < p ==> pair_lt(#[trigger] v@[q], e),
        decreases n - p,
    {
        p = p + 1;
    }
    if p < n && v[p].0 == e.0 && v[p].1 == e.1 {
        assert(v@.to_set() =~= v@.to_set().insert(e));
        return;
    }
    let ghost before = v@;
    v.insert(p, e);
    assert(v@ =~= before.insert(p as int, e));
    assert forall|i: int, j: int| 0 <= i < j < v@.len() implies pair_lt(#[trigger] v@[i], #[trigger] v@[j]) by {
        if j < p {
            assert(pair_lt(before[i], before[j]));
        } else if j == p {
            assert(pair_lt(before[i], e));
        } else if i == p {
            assert(!pair_lt(before[p as int], e));
            if j - 1 > p {
                assert(pair_lt(before[p as int], before[j - 1]));
            }
        } else if i < p {
            assert(pair_lt(before[i], e));
            assert(!pair_lt(before[p as int], e));
            if j - 1 > p {
                assert(pair_lt(before[p as int], before[j - 1]));
            }
        } else {
            assert(pair_lt(before[i - 1], before[j - 1]));
        }
    }
    assert(v@.to_set() =~= before.to_set().insert(e)) by {
        assert forall|x: (u128, u128)| v@.to_set().contains(x) implies before.to_set().insert(e).contains(x) by {
            let q = choose|q: int| 0 <= q < v@.len() && v@[q] == x;
            if q < p {
                assert(before[q] == x);
            } else if q > p {
                assert(before[q - 1] == x);
            }
        }
        assert forall|x: (u128, u128)| before.to_set().insert(e).contains(x) implies v@.to_set().contains(x) by {
            if x == e {
                assert(v@[p as int] == e);
            } else {
                let q = choose|q: int| 0 <= q < before.len() && before[q] == x;
                if q < p {
                    assert(v@[q] == x);
                } else {
                    assert(v@[q + 1] == x);
                }
            }
        }
    }
}


proof fn lemma_distinct_below(s: Seq<usize>, n: int)
    requires
        0 <= n,
        s.no_duplicates(),
        forall|i: int| 0 <= i < s.len() ==> s[i] < n,
    ensures
        s.len() <= n,
        s.len() == n ==> forall|x: usize| x < n ==> s.contains(x),
{
    let si = s.map_values(|x: usize| x as int);
    assert(si.no_duplicates()) by {
        assert forall|i: int, j: int| 0 <= i < si.len() && 0 <= j < si.len() && i != j implies si[i] != si[j] by {
            assert(s[i] != s[j]);
        }
    }
    si.unique_seq_to_set();
    let full = vstd::set_lib::set_int_range(0, n);
    vstd::set_lib::lemma_int_range(0, n);
    assert(si.to_set().subset_of(full)) by {
        assert forall|x: int| si.to_set().contains(x) implies full.contains(x) by {
            let i = choose|i: int| 0 <= i < si.len() && si[i] == x;
        }
    }
    vstd::set_lib::lemma_len_subset(si.to_set(), full);
    if s.len() == n {
        assert forall|x: usize| x < n implies s.contains(x) by {
            if !s.contains(x) {
                assert(!si.to_set().contains(x as int)) by {
                    if si.to_set().contains(x as int) {
                        let i = choose|i: int| 0 <= i < si.len() && si[i] == x as int;
                        assert(s[i] == x);
                    }
                }
                assert(si.to_set().subset_of(full.remove(x as int)));
                vstd::set_lib::lemma_len_subset(si.to_set(), full.remove(x as int));
            }
        }
    }
}

/// Whether every dependency of task `i` (by index) is already popped.
fn deps_all_popped(ep: &Vec<(usize, usize)>, popped: &Vec<bool>, i: usize) -> (r: bool)
    requires
        forall|k: int| 0 <= k < ep@.len() ==> (#[trigger] ep@[k]).1 < popped@.len(),
    ensures
        r == forall|k: int| 0 <= k < ep@.len() && (#[trigger] ep@[k]).0 == i ==> popped@[ep@[k].1 as int],
{
    let m = ep.len();
    for k in 0..m
        invariant
            m == ep@.len(),
            forall|k: int| 0 <= k < ep@.len() ==> (#[trigger] ep@[k]).1 < popped@.len(),
            forall|q: int| 0 <= q < k && (#[trigger] ep@[q]).0 == i ==> popped@[ep@[q].1 as int],
    {
        if ep[k].0 == i && !popped[ep[k].1] {
            return false;
        }
    }
    true
}

/// The tasks at the positions `s` have ascending ids.
spec fn ids_ascending(tasks: Seq<OcPlanTask>, s: Seq<usize>) -> bool {
    forall|a: int, b: int| 0 <= a < b < s.len() ==> tasks[#[trigger] s[a] as int].id < tasks[#[trigger] s[b] as int].id
}

/// Among the tasks at the positions `s` with the same `order_index`, ids ascend.
spec fn ties_ascending(tasks: Seq<OcPlanTask>, s: Seq<usize>) -> bool {
    forall|a: int, b: int|
        0 <= a < b < s.len() && tasks[#[trigger] s[a] as int].order_index == tasks[#[trigger] s[b] as int].order_index
            ==> tasks[s[a] as int].id < tasks[s[b] as int].id
}

/// Orders a batch of task indices by `order_index`, keeping the batch order among equal keys.
#[verifier::rlimit(40)]
fn sort_by_order_index(tasks: &[OcPlanTask], batch: Vec<usize>) -> (sorted: Vec<usize>)
    requires
        batch@.no_duplicates(),
        forall|q: int| 0 <= q < batch@.len() ==> batch@[q] < tasks@.len(),
    ensures
        sorted@.no_duplicates(),
        sorted@.len() == batch@.len(),
        sorted@.to_set() == batch@.to_set(),
        forall|q: int| 0 <= q < sorted@.len() ==> sorted@[q] < tasks@.len(),
        forall|a: int, b: int|
            0 <= a < b < sorted@.len() ==> tasks@[#[trigger] sorted@[a] as int].order_index
                <= tasks@[#[trigger] sorted@[b] as int].order_index,
        ids_ascending(tasks@, batch@) ==> ties_ascending(tasks@, sorted@),
{
    let mut sorted: Vec<usize> = Vec::new();
    let n = batch.len();
    for k in 0..n
        invariant
            n == batch@.len(),
            batch@.no_duplicates(),
            forall|q: int| 0 <= q < batch@.len() ==> batch@[q] < tasks@.len(),
            sorted@.no_duplicates(),
            sorted@.len() == k,
            sorted@.to_set() == batch@.take(k as int).to_set(),
            forall|q: int| 0 <= q < sorted@.len() ==> sorted@[q] < tasks@.len(),
            forall|a: int, b: int|
                0 <= a < b < sorted@.len() ==> tasks@[#[trigger] sorted@[a] as int].order_index
                    <= tasks@[#[trigger] sorted@[b] as int].order_index,
            ids_ascending(tasks@, batch@) ==> ties_ascending(tasks@, sorted@),
    {
        let x = batch[k];
        let key = tasks[x].order_index;
        let mut p: usize = 0;
        while p < sorted.len() && tasks[sorted[p]].order_index <= key
            invariant
                p <= sorted@.len(),
                forall|q: int| 0 <= q < sorted@.len() ==> sorted@[q] < tasks@.len(),
                forall|q: int| 0 <= q < p ==> tasks@[#[trigger] sorted@[q] as int].order_index <= key,
            decreases sorted@.len() - p,
        {
            p = p + 1;
        }
        let ghost before = sorted@;
        assert(!before.contains(x)) by {
            if before.contains(x) {
                assert(batch@.take(k as int).to_set().contains(x));
                let q = choose|q: int| 0 <= q < k && batch@.take(k as int)[q] == x;
                assert(batch@[q] == batch@[k as int]);
            }
        }
        sorted.insert(p, x);
        assert(sorted@ =~= before.insert(p as int, x));
        assert forall|a: int, b: int| 0 <= a < b < sorted@.len() implies tasks@[#[trigger] sorted@[a] as int].order_index
            <= tasks@[#[trigger] sorted@[b] as int].order_index by {
            if b < p {
                assert(sorted@[a] == before[a] && sorted@[b] == before[b]);
            } else if b == p {
                assert(sorted@[a] == before[a]);
            } else if a == p {
                assert(sorted@[b] == before[b - 1]);
                assert(tasks@[before[p as int] as int].order_index > key);
                if b - 1 > p {
                    assert(tasks@[before[p as int] as int].order_index <= tasks@[before[b - 1] as int].order_index);
                }
            } else if a < p {
                assert(sorted@[a] == before[a] && sorted@[b] == before[b - 1]);
                assert(tasks@[before[a] as int].order_index <= key);
                assert(tasks@[before[p as int] as int].order_index > key);
                if b - 1 > p {
                    assert(tasks@[before[p as int] as int].order_index <= tasks@[before[b - 1] as int].order_index);
                }
            } else {
                assert(sorted@[a] == before[a - 1] && sorted@[b] == before[b - 1]);
            }
        }
        assert(ids_ascending(tasks@, batch@) ==> ties_ascending(tasks@, sorted@)) by {
            if ids_ascending(tasks@, batch@) {
                assert forall|a: int, b: int|
                    0 <= a < b < sorted@.len() && tasks@[#[trigger] sorted@[a] as int].order_index
                        == tasks@[#[trigger] sorted@[b] as int].order_index implies tasks@[sorted@[a] as int].id
                    < tasks@[sorted@[b] as int].id by {
                    if b == p {
                        assert(sorted@[a] == before[a]);
                        assert(batch@.take(k as int).to_set().contains(before[a]));
                        let r = choose|r: int| 0 <= r < k && batch@.take(k as int)[r] == before[a];
                        assert(batch@[r] == before[a]);
                    } else if a == p {
                        assert(sorted@[b] == before[b - 1]);
                        assert(tasks@[before[p as int] as int].order_index > key);
                        if b - 1 > p {
                            assert(tasks@[before[p as int] as int].order_index <= tasks@[before[b - 1] as int].order_index);
                        }
                    } else {
                        let a2 = if a < p { a } else { a - 1 };
                        let b2 = if b < p { b } else { b - 1 };
                        assert(sorted@[a] == before[a2] && sorted@[b] == before[b2]);
                    }
                }
            }
        }
        assert(batch@.take(k + 1) =~= batch@.take(k as int).push(x));
        assert(sorted@.to_set() =~= batch@.take(k + 1).to_set()) by {
            assert forall|y: usize| sorted@.to_set().contains(y) implies batch@.take(k + 1).to_set().contains(y) by {
                let q = choose|q: int| 0 <= q < sorted@.len() && sorted@[q] == y;
                if q < p {
                    assert(before[q] == y);
                    assert(before.to_set().contains(y));
                } else if q > p {
                    assert(before[q - 1] == y);
                    assert(before.to_set().contains(y));
                }
            }
            assert forall|y: usize| batch@.take(k + 1).to_set().contains(y) implies sorted@.to_set().contains(y) by {
                if y == x {
                    assert(sorted@[p as int] == x);
                } else {
                    assert(batch@.take(k as int).to_set().contains(y));
                    let q = choose|q: int| 0 <= q < before.len() && before[q] == y;
                    if q < p {
                        assert(sorted@[q] == y);
                    } else {
                        assert(sorted@[q + 1] == y);
                    }
                }
            }
        }
        assert(sorted@.no_duplicates()) by {
            assert forall|a: int, b: int| 0 <= a < sorted@.len() && 0 <= b < sorted@.len() && a != b implies sorted@[a] != sorted@[b] by {
                if a == p {
                    assert(before.contains(sorted@[b]) || b == p);
                } else if b == p {
                    assert(before.contains(sorted@[a]));
                } else {
                    let a2 = if a < p { a } else { a - 1 };
                    let b2 = if b < p { b } else { b - 1 };
                    assert(sorted@[a] == before[a2] && sorted@[b] == before[b2]);
                }
            }
        }
    }
    assert(batch@.take(n as int) =~= batch@);
    sorted
}

/// Every task listed in `q` at position `p` comes after all of its dependencies.
spec fn queue_respects(ep: Seq<(usize, usize)>, q: Seq<usize>) -> bool {
    forall|p: int, k: int|
        0 <= p < q.len() && 0 <= k < ep.len() && (#[trigger] ep[k]).0 == #[trigger] q[p]
            ==> q.take(p).contains(ep[k].1)
}

/// The position in `q` of the last task that `x` depends on, or -1 when `q` holds none.
spec fn dep_pos(ep: Seq<(usize, usize)>, q: Seq<usize>, x: usize) -> int
    decreases q.len(),
{
    if q.len() == 0 {
        -1
    } else if ep.contains((x, q.last())) {
        q.len() - 1
    } else {
        dep_pos(ep, q.drop_last(), x)
    }
}

/// `q` is taken in batches: by the position of each task's last dependency, and by
/// `order_index` among tasks whose last dependency is the same (or who have none).
spec fn batch_sorted(tasks: Seq<OcPlanTask>, ep: Seq<(usize, usize)>, q: Seq<usize>) -> bool {
    forall|a: int, b: int|
        0 <= a < b < q.len() ==> {
            let da = dep_pos(ep, q, #[trigger] q[a]);
            let db = dep_pos(ep, q, #[trigger] q[b]);
            da < db || (da == db && tasks[q[a] as int].order_index <= tasks[q[b] as int].order_index
                && (da >= 0 && tasks[q[a] as int].order_index == tasks[q[b] as int].order_index
                ==> tasks[q[a] as int].id < tasks[q[b] as int].id))
        }
}

proof fn lemma_dep_pos_bound(ep: Seq<(usize, usize)>, q: Seq<usize>, x: usize)
    ensures
        -1 <= dep_pos(ep, q, x) < q.len(),
    decreases q.len(),
{
    if q.len() > 0 && !ep.contains((x, q.last())) {
        lemma_dep_pos_bound(ep, q.drop_last(), x);
    }
}

/// Tasks after position `h` that `x` does not depend on do not change where its last
/// dependency is.
proof fn lemma_dep_pos_prefix(ep: Seq<(usize, usize)>, q: Seq<usize>, x: usize, h: int)
    requires
        0 <= h <= q.len(),
        forall|i: int| h <= i < q.len() ==> !ep.contains((x, #[trigger] q[i])),
    ensures
        dep_pos(ep, q, x) == dep_pos(ep, q.take(h), x),
    decreases q.len() - h,
{
    if h < q.len() {
        assert(!ep.contains((x, q[q.len() - 1])));
        assert(q.drop_last().take(h) =~= q.take(h));
        lemma_dep_pos_prefix(ep, q.drop_last(), x, h);
    } else {
        assert(q.take(h) =~= q);
    }
}

/// The first batch: tasks without dependencies, by `order_index`.
proof fn lemma_batch_start(tasks: Seq<OcPlanTask>, ep: Seq<(usize, usize)>, q: Seq<usize>)
    requires
        forall|p: int, k: int| 0 <= p < q.len() && 0 <= k < ep.len() ==> (#[trigger] ep[k]).0 != #[trigger] q[p],
        forall|a: int, b: int|
            0 <= a < b < q.len() ==> tasks[#[trigger] q[a] as int].order_index
                <= tasks[#[trigger] q[b] as int].order_index,
    ensures
        batch_sorted(tasks, ep, q),
{
    assert forall|a: int| 0 <= a < q.len() implies dep_pos(ep, q, #[trigger] q[a]) == -1 by {
        assert forall|i: int| 0 <= i < q.len() implies !ep.contains((q[a], #[trigger] q[i])) by {
            if ep.contains((q[a], q[i])) {
                let k = choose|k: int| 0 <= k < ep.len() && ep[k] == (q[a], q[i]);
                assert(ep[k].0 == q[a]);
            }
        }
        lemma_dep_pos_prefix(ep, q, q[a], 0);
    }
}

/// Appending the batch of tasks whose last dependency is the task just taken, at
/// position `h`, keeps the queue in batches.
proof fn lemma_batch_step(
    tasks: Seq<OcPlanTask>,
    ep: Seq<(usize, usize)>,
    q0: Seq<usize>,
    h: int,
    sorted: Seq<usize>,
)
    requires
        batch_sorted(tasks, ep, q0),
        q0.no_duplicates(),
        0 <= h < q0.len(),
        forall|p: int, y: usize| 0 <= p < q0.len() && #[trigger] ep.contains((q0[p], y)) ==> q0.take(h).contains(y),
        forall|t: int| 0 <= t < sorted.len() ==> ep.contains((#[trigger] sorted[t], q0[h])),
        forall|t: int, y: usize| 0 <= t < sorted.len() && #[trigger] ep.contains((sorted[t], y)) ==> q0.take(h + 1).contains(y),
        forall|t: int| 0 <= t < sorted.len() ==> !q0.contains(#[trigger] sorted[t]),
        forall|a: int, b: int|
            0 <= a < b < sorted.len() ==> tasks[#[trigger] sorted[a] as int].order_index
                <= tasks[#[trigger] sorted[b] as int].order_index,
        ties_ascending(tasks, sorted),
    ensures
        batch_sorted(tasks, ep, q0 + sorted),
{
    let q1 = q0 + sorted;
    assert forall|p: int| 0 <= p < q0.len() implies dep_pos(ep, q1, #[trigger] q1[p]) == dep_pos(ep, q0, q0[p])
        && dep_pos(ep, q0, q0[p]) < h by {
        let x = q0[p];
        assert(q1[p] == x);
        assert forall|i: int| q0.len() <= i < q1.len() implies !ep.contains((x, #[trigger] q1[i])) by {
            if ep.contains((x, q1[i])) {
                assert(q0.take(h).contains(q1[i]));
                let a = choose|a: int| 0 <= a < h && #[trigger] q0.take(h)[a] == q1[i];
                assert(q1[i] == sorted[i - q0.len()]);
                assert(q0.contains(sorted[i - q0.len()]));
            }
        }
        lemma_dep_pos_prefix(ep, q1, x, q0.len() as int);
        assert(q1.take(q0.len() as int) =~= q0);
        assert forall|i: int| h <= i < q0.len() implies !ep.contains((x, #[trigger] q0[i])) by {
            if ep.contains((x, q0[i])) {
                let a = choose|a: int| 0 <= a < h && #[trigger] q0.take(h)[a] == q0[i];
                assert(q0[a] == q0[i]);
            }
        }
        lemma_dep_pos_prefix(ep, q0, x, h);
        lemma_dep_pos_bound(ep, q0.take(h), x);
    }
    assert forall|t: int| 0 <= t < sorted.len() implies dep_pos(ep, q1, #[trigger] q1[q0.len() + t]) == h by {
        let y = sorted[t];
        assert(q1[q0.len() + t] == y);
        assert forall|i: int| h + 1 <= i < q1.len() implies !ep.contains((y, #[trigger] q1[i])) by {
            if ep.contains((y, q1[i])) {
                let a = choose|a: int| 0 <= a < h + 1 && #[trigger] q0.take(h + 1)[a] == q1[i];
                if i < q0.len() {
                    assert(q0[a] == q0[i]);
                } else {
                    assert(q1[i] == sorted[i - q0.len()]);
                    assert(q0.contains(sorted[i - q0.len()]));
                }
            }
        }
        lemma_dep_pos_prefix(ep, q1, y, h + 1);
        assert(q1.take(h + 1).last() == q0[h]);
    }
    assert forall|a: int, b: int| 0 <= a < b < q1.len() implies {
        let da = dep_pos(ep, q1, #[trigger] q1[a]);
        let db = dep_pos(ep, q1, #[trigger] q1[b]);
        da < db || (da == db && tasks[q1[a] as int].order_index <= tasks[q1[b] as int].order_index
            && (da >= 0 && tasks[q1[a] as int].order_index == tasks[q1[b] as int].order_index
            ==> tasks[q1[a] as int].id < tasks[q1[b] as int].id))
    } by {
        if b < q0.len() {
            assert(q1[a] == q0[a] && q1[b] == q0[b]);
        } else if a < q0.len() {
            assert(dep_pos(ep, q1, q1[b]) == h) by {
                assert(q1[q0.len() + (b - q0.len())] == q1[b]);
            }
        } else {
            assert(dep_pos(ep, q1, q1[a]) == h) by {
                assert(q1[q0.len() + (a - q0.len())] == q1[a]);
            }
            assert(dep_pos(ep, q1, q1[b]) == h) by {
                assert(q1[q0.len() + (b - q0.len())] == q1[b]);
            }
            assert(q1[a] == sorted[a - q0.len()] && q1[b] == sorted[b - q0.len()]);
        }
    }
}

/// Kahn's algorithm on task indices: tasks without dependencies first, then each task as
/// soon as the last of its dependencies has been taken, in batches ordered by `order_index`.
#[verifier::rlimit(60)]
fn kahn_order(tasks: &[OcPlanTask], ep: &Vec<(usize, usize)>) -> (r: Option<Vec<usize>>)
    requires
        forall|k: int| 0 <= k < ep@.len() ==> (#[trigger] ep@[k]).0 < tasks@.len() && ep@[k].1 < tasks@.len(),
        forall|k1: int, k2: int|
            0 <= k1 < k2 < ep@.len() && (#[trigger] ep@[k1]).1 == (#[trigger] ep@[k2]).1 ==> tasks@[ep@[k1].0 as int].id
                < tasks@[ep@[k2].0 as int].id,
    ensures
        match r {
            Some(q) => {
                &&& q@.no_duplicates()
                &&& q@.len() == tasks@.len()
                &&& forall|p: int| 0 <= p < q@.len() ==> q@[p] < tasks@.len()
                &&& queue_respects(ep@, q@)
                &&& batch_sorted(tasks@, ep@, q@)
            },
            None => has_cycle(ep@.to_set()),
        },
{
    let n = tasks.len();
    let mut enq: Vec<bool> = vec![false; n];
    let mut popped: Vec<bool> = vec![false; n];
    let mut first: Vec<usize> = Vec::new();
    for i in 0..n
        invariant
            n == tasks@.len(),
            forall|k: int| 0 <= k < ep@.len() ==> (#[trigger] ep@[k]).0 < n && ep@[k].1 < n,
            enq@.len() == n,
            popped@.len() == n,
            forall|x: int| 0 <= x < n ==> !popped@[x],
            first@.no_duplicates(),
            forall|q: int| 0 <= q < first@.len() ==> first@[q] < i,
            forall|x: int| 0 <= x < n ==> (enq@[x] <==> first@.contains(x as usize)),
            forall|x: usize| x < i && (forall|k: int| 0 <= k < ep@.len() && (#[trigger] ep@[k]).0 == x ==> popped@[ep@[k].1 as int]) ==> enq@[x as int],
            forall|q: int, k: int| 0 <= q < first@.len() && 0 <= k < ep@.len() ==> (#[trigger] ep@[k]).0 != #[trigger] first@[q],
    {
        if deps_all_popped(ep, &popped, i) {
            first.push(i);
            enq.set(i, true);
        }
    }
    let first_sorted = sort_by_order_index(tasks, first);
    let ghost mut hist = first_sorted@;
    proof {
        assert forall|p: int, k: int| 0 <= p < hist.len() && 0 <= k < ep@.len() && (#[trigger] ep@[k]).0 == #[trigger] hist[p] implies hist.take(p).contains(ep@[k].1) by {
            assert(first@.to_set().contains(hist[p]));
            let q = choose|q: int| 0 <= q < first@.len() && first@[q] == hist[p];
            assert(ep@[k].0 != first@[q]);
        }
        assert forall|x: int| 0 <= x < n implies (enq@[x] <==> hist.contains(x as usize)) by {
            assert(enq@[x] ==> first@.to_set().contains(x as usize));
            assert(hist.contains(x as usize) ==> hist.to_set().contains(x as usize));
        }
        lemma_distinct_below(hist, n as int);
        assert forall|p: int, k: int| 0 <= p < hist.len() && 0 <= k < ep@.len() implies (#[trigger] ep@[k]).0 != #[trigger] hist[p] by {
            assert(first@.to_set().contains(hist[p]));
            let q = choose|q: int| 0 <= q < first@.len() && first@[q] == hist[p];
            assert(ep@[k].0 != first@[q]);
        }
        lemma_batch_start(tasks@, ep@, hist);
    }
    let mut pending: VecDeque<usize> = VecDeque::new();
    for t in 0..first_sorted.len()
        invariant
            pending@ == first_sorted@.take(t as int),
    {
        pending.push_back(first_sorted[t]);
        assert(pending@ =~= first_sorted@.take(t + 1));
    }
    let mut ordered: Vec<usize> = Vec::with_capacity(n);
    assert(hist =~= ordered@ + pending@);
    while pending.len() > 0
        invariant
            n == tasks@.len(),
            forall|k: int| 0 <= k < ep@.len() ==> (#[trigger] ep@[k]).0 < n && ep@[k].1 < n,
            enq@.len() == n,
            popped@.len() == n,
            hist.no_duplicates(),
            forall|q: int| 0 <= q < hist.len() ==> hist[q] < n,
            hist == ordered@ + pending@,
            hist.len() <= n,
            forall|x: int| 0 <= x < n ==> (enq@[x] <==> hist.contains(x as usize)),
            forall|x: int| 0 <= x < n ==> (popped@[x] <==> hist.take(ordered@.len() as int).contains(x as usize)),
            queue_respects(ep@, hist),
            forall|x: usize| x < n && (forall|k: int| 0 <= k < ep@.len() && (#[trigger] ep@[k]).0 == x ==> popped@[ep@[k].1 as int]) ==> enq@[x as int],
            forall|p: int, k: int| 0 <= p < hist.len() && 0 <= k < ep@.len() && (#[trigger] ep@[k]).0 == #[trigger] hist[p] ==> popped@[ep@[k].1 as int],
            batch_sorted(tasks@, ep@, hist),
            forall|k1: int, k2: int|
                0 <= k1 < k2 < ep@.len() && (#[trigger] ep@[k1]).1 == (#[trigger] ep@[k2]).1 ==> tasks@[ep@[k1].0 as int].id
                    < tasks@[ep@[k2].0 as int].id,
        decreases n - ordered@.len(),
    {
        let ghost q0 = hist;
        let ghost o0 = ordered@;
        let ghost p0 = pending@;
        let j = pending.pop_front().unwrap();
        assert(j == p0[0] && q0[o0.len() as int] == p0[0]);
        let ghost popped0 = popped@;
        let ghost enq0 = enq@;
        popped.set(j, true);
        ordered.push(j);
        let ghost head: int = ordered@.len() as int;
        assert(j == q0[head - 1]);
        assert(ordered@ =~= q0.take(head));
        assert(q0.take(head) =~= q0.take(head - 1).push(j));
        assert(q0 =~= ordered@ + pending@);
        let mut batch: Vec<usize> = Vec::new();
        let m = ep.len();
        for k in 0..m
            invariant
                n == tasks@.len(),
                m == ep@.len(),
                forall|k: int| 0 <= k < ep@.len() ==> (#[trigger] ep@[k]).0 < n && ep@[k].1 < n,
                enq@.len() == n,
                popped@.len() == n,
                hist == q0,
                j == q0[head - 1],
                popped@ == popped0.update(j as int, true),
                batch@.no_duplicates(),
                forall|q: int| 0 <= q < batch@.len() ==> batch@[q] < n,
                forall|x: int| 0 <= x < n ==> (enq@[x] <==> (hist.contains(x as usize) || batch@.contains(x as usize))),
                forall|q: int| 0 <= q < batch@.len() ==> !hist.contains(#[trigger] batch@[q]),
                forall|q: int, kk: int| 0 <= q < batch@.len() && 0 <= kk < ep@.len() && (#[trigger] ep@[kk]).0 == #[trigger] batch@[q] ==> popped@[ep@[kk].1 as int],
                forall|kk: int| 0 <= kk < k && (#[trigger] ep@[kk]).1 == j && (forall|k2: int| 0 <= k2 < ep@.len() && (#[trigger] ep@[k2]).0 == ep@[kk].0 ==> popped@[ep@[k2].1 as int]) ==> enq@[ep@[kk].0 as int],
                forall|q: int| 0 <= q < batch@.len() ==> ep@.contains((#[trigger] batch@[q], j)),
                forall|k1: int, k2: int|
                    0 <= k1 < k2 < ep@.len() && (#[trigger] ep@[k1]).1 == (#[trigger] ep@[k2]).1 ==> tasks@[ep@[k1].0 as int].id
                        < tasks@[ep@[k2].0 as int].id,
                ids_ascending(tasks@, batch@),
                forall|q: int| 0 <= q < batch@.len() ==> exists|kk: int| 0 <= kk < k && #[trigger] ep@[kk] == (#[trigger] batch@[q], j),
        {
            if ep[k].1 == j {
                let i = ep[k].0;
                if !enq[i] && deps_all_popped(ep, &popped, i) {
                    let ghost b0 = batch@;
                    batch.push(i);
                    enq.set(i, true);
                    assert(ep@[k as int] == (i, j));
                    assert forall|q: int| 0 <= q < batch@.len() implies ep@.contains((#[trigger] batch@[q], j)) by {
                        if q < b0.len() {
                            assert(b0[q] == batch@[q]);
                        } else {
                            assert(batch@[q] == i);
                        }
                    }
                    assert forall|q: int| 0 <= q < batch@.len() implies exists|kk: int| 0 <= kk < k + 1 && #[trigger] ep@[kk] == (#[trigger] batch@[q], j) by {
                        if q < b0.len() {
                            assert(b0[q] == batch@[q]);
                            let kk = choose|kk: int| 0 <= kk < k && #[trigger] ep@[kk] == (b0[q], j);
                            assert(ep@[kk] == (batch@[q], j));
                        } else {
                            assert(ep@[k as int] == (batch@[q], j));
                        }
                    }
                    assert forall|a: int, b: int| 0 <= a < b < batch@.len() implies tasks@[#[trigger] batch@[a] as int].id < tasks@[#[trigger] batch@[b] as int].id by {
                        if b < b0.len() {
                            assert(batch@[a] == b0[a] && batch@[b] == b0[b]);
                        } else {
                            assert(batch@[a] == b0[a]);
                            let kk = choose|kk: int| 0 <= kk < k && #[trigger] ep@[kk] == (b0[a], j);
                            assert(ep@[kk].1 == ep@[k as int].1);
                        }
                    }
                    assert forall|q: int| 0 <= q < batch@.len() implies !hist.contains(#[trigger] batch@[q]) by {
                        if q < b0.len() {
                            assert(b0[q] == batch@[q]);
                        }
                    }
                }
            }
        }
        let ghost b1 = batch@;
        let sorted = sort_by_order_index(tasks, batch);
        let ghost p1 = pending@;
        for t in 0..sorted.len()
            invariant
                pending@ == p1 + sorted@.take(t as int),
        {
            pending.push_back(sorted[t]);
            assert(pending@ =~= p1 + sorted@.take(t + 1));
        }
        proof {
            hist = q0 + sorted@;
            let q1 = hist;
            assert(sorted@.take(sorted@.len() as int) =~= sorted@);
            assert(hist =~= ordered@ + pending@);
            assert(q1.take(head) =~= q0.take(head));
            assert forall|x: usize| sorted@.contains(x) <==> b1.contains(x) by {
                assert(sorted@.contains(x) ==> sorted@.to_set().contains(x));
                assert(b1.contains(x) ==> b1.to_set().contains(x));
            }
            assert(q1.no_duplicates()) by {
                assert forall|a: int, b: int| 0 <= a < q1.len() && 0 <= b < q1.len() && a != b implies q1[a] != q1[b] by {
                    if a >= q0.len() && b >= q0.len() {
                    } else if a >= q0.len() {
                        assert(b1.contains(q1[a]));
                        let qq = choose|qq: int| 0 <= qq < b1.len() && b1[qq] == q1[a];
                        assert(!q0.contains(b1[qq]));
                    } else if b >= q0.len() {
                        assert(b1.contains(q1[b]));
                        let qq = choose|qq: int| 0 <= qq < b1.len() && b1[qq] == q1[b];
                        assert(!q0.contains(b1[qq]));
                    }
                }
            }
            assert forall|x: int| 0 <= x < n implies (enq@[x] <==> q1.contains(x as usize)) by {
                if q1.contains(x as usize) {
                    let a = choose|a: int| 0 <= a < q1.len() && q1[a] == x as usize;
                    if a >= q0.len() {
                        assert(sorted@.contains(x as usize));
                    } else {
                        assert(q0.contains(x as usize));
                    }
                }
                if b1.contains(x as usize) {
                    assert(sorted@.contains(x as usize));
                    let a = choose|a: int| 0 <= a < sorted@.len() && sorted@[a] == x as usize;
                    assert(q1[q0.len() + a] == x as usize);
                }
                if q0.contains(x as usize) {
                    let a = choose|a: int| 0 <= a < q0.len() && q0[a] == x as usize;
                    assert(q1[a] == x as usize);
                }
            }
            assert forall|x: int| 0 <= x < n implies (popped@[x] <==> q1.take(head).contains(x as usize)) by {
                if x == j {
                    assert(q1.take(head)[head - 1] == j);
                }
            }
            assert forall|p: int, k: int| 0 <= p < q1.len() && 0 <= k < ep@.len() && (#[trigger] ep@[k]).0 == #[trigger] q1[p] implies q1.take(p).contains(ep@[k].1) by {
                if p < q0.len() {
                    assert(q0[p] == q1[p]);
                    assert(q0.take(p).contains(ep@[k].1));
                    let a = choose|a: int| 0 <= a < p && q0.take(p)[a] == ep@[k].1;
                    assert(q1.take(p)[a] == ep@[k].1);
                } else {
                    assert(sorted@.contains(q1[p]));
                    assert(b1.contains(q1[p]));
                    let qq = choose|qq: int| 0 <= qq < b1.len() && b1[qq] == q1[p];
                    assert(popped@[ep@[k].1 as int]);
                    assert(q1.take(head).contains(ep@[k].1));
                    let a = choose|a: int| 0 <= a < head && q1.take(head)[a] == ep@[k].1;
                    assert(q1.take(p)[a] == ep@[k].1);
                }
            }
            assert forall|x: usize| x < n && (forall|k: int| 0 <= k < ep@.len() && (#[trigger] ep@[k]).0 == x ==> popped@[ep@[k].1 as int]) implies enq@[x as int] by {
                if exists|k: int| 0 <= k < ep@.len() && (#[trigger] ep@[k]).0 == x && ep@[k].1 == j {
                    let k = choose|k: int| 0 <= k < ep@.len() && (#[trigger] ep@[k]).0 == x && ep@[k].1 == j;
                    assert(ep@[k].1 == j);
                    assert(forall|k2: int| 0 <= k2 < ep@.len() && (#[trigger] ep@[k2]).0 == ep@[k].0 ==> popped@[ep@[k2].1 as int]);
                    assert(enq@[ep@[k].0 as int]);
                } else {
                    assert forall|k: int| 0 <= k < ep@.len() && (#[trigger] ep@[k]).0 == x implies popped0[ep@[k].1 as int] by {
                        assert(ep@[k].1 != j);
                    }
                    assert(enq0[x as int]);
                    assert(q0.contains(x));
                    let a = choose|a: int| 0 <= a < q0.len() && q0[a] == x;
                    assert(q1[a] == x);
                }
            }
            lemma_distinct_below(q1, n as int);
            assert forall|p: int, y: usize| 0 <= p < q0.len() && #[trigger] ep@.contains((q0[p], y)) implies q0.take(head - 1).contains(y) by {
                let k = choose|k: int| 0 <= k < ep@.len() && ep@[k] == (q0[p], y);
                assert(ep@[k].0 == q0[p]);
                assert(popped0[y as int]);
            }
            assert forall|t: int| 0 <= t < sorted@.len() implies ep@.contains((#[trigger] sorted@[t], q0[head - 1])) by {
                assert(b1.contains(sorted@[t]));
                let qq = choose|qq: int| 0 <= qq < b1.len() && b1[qq] == sorted@[t];
            }
            assert forall|t: int, y: usize| 0 <= t < sorted@.len() && #[trigger] ep@.contains((sorted@[t], y)) implies q0.take(head).contains(y) by {
                assert(b1.contains(sorted@[t]));
                let qq = choose|qq: int| 0 <= qq < b1.len() && b1[qq] == sorted@[t];
                let k = choose|k: int| 0 <= k < ep@.len() && ep@[k] == (sorted@[t], y);
                assert(ep@[k].0 == b1[qq]);
                assert(popped@[y as int]);
                assert(q1.take(head).contains(y));
            }
            assert forall|t: int| 0 <= t < sorted@.len() implies !q0.contains(#[trigger] sorted@[t]) by {
                assert(b1.contains(sorted@[t]));
                let qq = choose|qq: int| 0 <= qq < b1.len() && b1[qq] == sorted@[t];
            }
            lemma_batch_step(tasks@, ep@, q0, head - 1, sorted@);
            assert forall|p: int, k: int| 0 <= p < q1.len() && 0 <= k < ep@.len() && (#[trigger] ep@[k]).0 == #[trigger] q1[p] implies popped@[ep@[k].1 as int] by {
                if p < q0.len() {
                    assert(q0[p] == q1[p]);
                } else {
                    assert(sorted@.contains(q1[p]));
                    assert(b1.contains(q1[p]));
                    let qq = choose|qq: int| 0 <= qq < b1.len() && b1[qq] == q1[p];
                }
            }
        }
    }
    assert(hist =~= ordered@);
    if ordered.len() == n {
        return Some(ordered);
    }
    proof {
        let all = Seq::new(n as nat, |i: int| i as usize);
        assert(all.no_duplicates());
        all.unique_seq_to_set();
        hist.unique_seq_to_set();
        let s = all.to_set().filter(|i: usize| !enq@[i as int]);
        vstd::set_lib::lemma_len_subset(s, all.to_set());
        assert(hist.take(ordered@.len() as int) =~= hist);
        if s.len() == 0 {
            assert(all.to_set().subset_of(hist.to_set())) by {
                assert forall|x: usize| all.to_set().contains(x) implies hist.to_set().contains(x) by {
                    let i = choose|i: int| 0 <= i < all.len() && all[i] == x;
                    if !enq@[x as int] {
                        assert(s.contains(x));
                    }
                    assert(hist.contains(x));
                }
            }
            vstd::set_lib::lemma_len_subset(all.to_set(), hist.to_set());
        }
        let ie = ep@.to_set();
        assert forall|i: usize| #[trigger] s.contains(i) implies exists|d: usize| s.contains(d) && ie.contains((i, d)) by {
            let q = choose|q: int| 0 <= q < all.len() && all[q] == i;
            let k = choose|k: int| 0 <= k < ep@.len() && (#[trigger] ep@[k]).0 == i && !popped@[ep@[k].1 as int];
            let d = ep@[k].1;
            assert(!enq@[d as int]);
            assert(all[d as int] == d);
            assert(s.contains(d));
            assert(ep@[k] == (i, d));
            assert(ie.contains((i, d)));
        }
        assert(closed_under_deps(ie, s));
        lemma_closed_set_has_cycle(ie, s);
    }
    None
}


/// Whether no two tasks share an id.
fn ids_distinct(tasks: &[OcPlanTask]) -> (r: bool)
    ensures
        r == task_ids(tasks@).no_duplicates(),
{
    let n = tasks.len();
    for i in 0..n
        invariant
            n == tasks@.len(),
            forall|a: int, b: int| 0 <= a < i && 0 <= b < n && a != b ==> tasks@[a].id != tasks@[b].id,
    {
        for j in 0..n
            invariant
                n == tasks@.len(),
                i < n,
                forall|a: int, b: int| 0 <= a < i && 0 <= b < n && a != b ==> tasks@[a].id != tasks@[b].id,
                forall|b: int| 0 <= b < j && b != i ==> tasks@[i as int].id != tasks@[b].id,
        {
            if j != i && tasks[i].id == tasks[j].id {
                assert(task_ids(tasks@)[i as int] == task_ids(tasks@)[j as int]);
                return false;
            }
        }
    }
    true
}

/// The position of the task with id `id`.
fn index_of_id(tasks: &[OcPlanTask], id: u128) -> (r: Option<usize>)
    ensures
        match r {
            Some(i) => i < tasks@.len() && tasks@[i as int].id == id,
            None => !task_ids(tasks@).contains(id),
        },
{
    let n = tasks.len();
    for i in 0..n
        invariant
            n == tasks@.len(),
            forall|j: int| 0 <= j < i ==> tasks@[j].id != id,
    {
        if tasks[i].id == id {
            return Some(i);
        }
    }
    assert(!task_ids(tasks@).contains(id)) by {
        if task_ids(tasks@).contains(id) {
            let j = choose|j: int| 0 <= j < n && task_ids(tasks@)[j] == id;
            assert(tasks@[j].id == id);
        }
    }
    None
}


/// Index pair `q` of `ep` points at the tasks whose ids form edge `q`.
spec fn pair_matches(tasks: Seq<OcPlanTask>, edges: Seq<(u128, u128)>, ep: Seq<(usize, usize)>, q: int) -> bool {
    &&& q < edges.len()
    &&& ep[q].0 < tasks.len()
    &&& ep[q].1 < tasks.len()
    &&& tasks[ep[q].0 as int].id == edges[q].0
    &&& tasks[ep[q].1 as int].id == edges[q].1
}

/// Task positions `x` and `y` stand for a declared edge exactly when `ep` holds `(x, y)`.
spec fn pairs_are_edges(tasks: Seq<OcPlanTask>, ep: Seq<(usize, usize)>) -> bool {
    &&& forall|k: int| 0 <= k < ep.len() ==> (#[trigger] ep[k]).0 < tasks.len() && ep[k].1 < tasks.len()
    &&& forall|x: usize, y: usize|
        x < tasks.len() && y < tasks.len() ==> (#[trigger] declared_edges(tasks).contains(
            (tasks[x as int].id, tasks[y as int].id),
        ) <==> exists|k: int| 0 <= k < ep.len() && ep[k] == (x, y))
}

proof fn lemma_edge_ends_are_tasks(tasks: Seq<OcPlanTask>, e: (u128, u128))
    requires
        declared_edges(tasks).contains(e),
    ensures
        task_ids(tasks).contains(e.0),
        task_ids(tasks).contains(e.1),
{
    let (i, kk) = choose|i: int, kk: int| declares(tasks, i, kk, e);
    assert(task_ids(tasks)[i] == e.0);
    lemma_task_titled_is_task(tasks, tasks[i].depends_on@[kk]@);
    let m = choose|m: int| 0 <= m < tasks.len() && tasks[m].id == task_titled(tasks, tasks[i].depends_on@[kk]@)->0;
    assert(task_ids(tasks)[m] == e.1);
}

proof fn lemma_pairs_are_edges(tasks: Seq<OcPlanTask>, edges: Seq<(u128, u128)>, ep: Seq<(usize, usize)>)
    requires
        task_ids(tasks).no_duplicates(),
        edges.to_set() == declared_edges(tasks),
        ep.len() == edges.len(),
        forall|q: int| 0 <= q < ep.len() ==> pair_matches(tasks, edges, ep, q),
    ensures
        pairs_are_edges(tasks, ep),
{
    let ids = task_ids(tasks);
    assert forall|k: int| 0 <= k < ep.len() implies (#[trigger] ep[k]).0 < tasks.len() && ep[k].1 < tasks.len() by {
        assert(pair_matches(tasks, edges, ep, k));
    }
    assert forall|x: usize, y: usize| x < tasks.len() && y < tasks.len() implies (
    #[trigger] declared_edges(tasks).contains((tasks[x as int].id, tasks[y as int].id)) <==> exists|k: int|
        0 <= k < ep.len() && ep[k] == (x, y)) by {
        if declared_edges(tasks).contains((tasks[x as int].id, tasks[y as int].id)) {
            assert(edges.to_set().contains((tasks[x as int].id, tasks[y as int].id)));
            let k = choose|k: int| 0 <= k < edges.len() && edges[k] == (tasks[x as int].id, tasks[y as int].id);
            assert(pair_matches(tasks, edges, ep, k));
            let a = ep[k].0 as int;
            let b = ep[k].1 as int;
            assert(ids[a] == ids[x as int] && ids[b] == ids[y as int]);
            assert(a == x && b == y);
            assert(ep[k] == (x, y));
        }
        if exists|k: int| 0 <= k < ep.len() && ep[k] == (x, y) {
            let k = choose|k: int| 0 <= k < ep.len() && ep[k] == (x, y);
            assert(pair_matches(tasks, edges, ep, k));
            assert(ep[k].0 == x && ep[k].1 == y);
            assert(edges[k].0 == tasks[x as int].id && edges[k].1 == tasks[y as int].id);
            assert(edges[k] == (tasks[x as int].id, tasks[y as int].id));
            assert(edges.to_set().contains(edges[k]));
        }
    }
}

proof fn lemma_edge_of_pair(tasks: Seq<OcPlanTask>, ep: Seq<(usize, usize)>, a: usize, b: usize)
    requires
        pairs_are_edges(tasks, ep),
        ep.to_set().contains((a, b)),
    ensures
        declared_edges(tasks).contains((tasks[a as int].id, tasks[b as int].id)),
{
    let j = choose|j: int| 0 <= j < ep.len() && ep[j] == (a, b);
    assert(ep[j].0 < tasks.len() && ep[j].1 < tasks.len());
}

proof fn lemma_stuck_means_cycle(tasks: Seq<OcPlanTask>, ep: Seq<(usize, usize)>)
    requires
        pairs_are_edges(tasks, ep),
        has_cycle(ep.to_set()),
    ensures
        has_cycle(declared_edges(tasks)),
{
    let e_set = declared_edges(tasks);
    let ie = ep.to_set();
    let p = choose|p: Seq<usize>| p.len() >= 2 && p[0] == p.last() && #[trigger] is_walk(ie, p);
    let c = p.map_values(|i: usize| tasks[i as int].id);
    assert forall|k: int| 0 <= k < c.len() - 1 implies #[trigger] is_step(e_set, c, k) by {
        assert(is_step(ie, p, k));
        lemma_edge_of_pair(tasks, ep, p[k], p[k + 1]);
    }
    assert(c.len() >= 2 && c[0] == c.last() && is_walk(e_set, c));
}

proof fn lemma_dep_pos_ids(
    tasks: Seq<OcPlanTask>,
    ep: Seq<(usize, usize)>,
    q: Seq<usize>,
    o: Seq<u128>,
    y: usize,
    m: int,
)
    requires
        pairs_are_edges(tasks, ep),
        y < tasks.len(),
        forall|p: int| 0 <= p < q.len() ==> q[p] < tasks.len(),
        o.len() == q.len(),
        forall|x: int| 0 <= x < o.len() ==> o[x] == tasks[q[x] as int].id,
        0 <= m <= q.len(),
    ensures
        last_dependency_at(declared_edges(tasks), o.take(m), tasks[y as int].id) == dep_pos(ep, q.take(m), y),
    decreases m,
{
    if m > 0 {
        lemma_dep_pos_ids(tasks, ep, q, o, y, m - 1);
        assert(o.take(m).drop_last() =~= o.take(m - 1));
        assert(q.take(m).drop_last() =~= q.take(m - 1));
        let z = q[m - 1];
        assert(o.take(m).last() == tasks[z as int].id);
        assert(q.take(m).last() == z);
        if ep.contains((y, z)) {
            let k = choose|k: int| 0 <= k < ep.len() && ep[k] == (y, z);
            assert(declared_edges(tasks).contains((tasks[y as int].id, tasks[z as int].id)));
        } else {
            if declared_edges(tasks).contains((tasks[y as int].id, tasks[z as int].id)) {
                let k = choose|k: int| 0 <= k < ep.len() && ep[k] == (y, z);
                assert(ep.contains((y, z)));
            }
        }
    }
}

proof fn lemma_batches_give_order(tasks: Seq<OcPlanTask>, ep: Seq<(usize, usize)>, q: Seq<usize>, o: Seq<u128>)
    requires
        task_ids(tasks).no_duplicates(),
        pairs_are_edges(tasks, ep),
        forall|p: int| 0 <= p < q.len() ==> q[p] < tasks.len(),
        o.len() == q.len(),
        forall|x: int| 0 <= x < o.len() ==> o[x] == tasks[q[x] as int].id,
        batch_sorted(tasks, ep, q),
    ensures
        in_batches(declared_edges(tasks), tasks, o),
{
    let ids = task_ids(tasks);
    assert(o.take(o.len() as int) =~= o);
    assert(q.take(q.len() as int) =~= q);
    assert forall|a: int| 0 <= a < o.len() implies last_dependency_at(declared_edges(tasks), o, #[trigger] o[a])
        == dep_pos(ep, q, q[a]) && order_index_of(tasks, o[a]) == tasks[q[a] as int].order_index by {
        lemma_dep_pos_ids(tasks, ep, q, o, q[a], q.len() as int);
        let i = choose|i: int| 0 <= i < tasks.len() && tasks[i].id == o[a];
        assert(ids[i] == ids[q[a] as int]);
    }
    assert forall|a: int, b: int| 0 <= a < b < o.len() implies {
        let da = last_dependency_at(declared_edges(tasks), o, #[trigger] o[a]);
        let db = last_dependency_at(declared_edges(tasks), o, #[trigger] o[b]);
        da < db || (da == db && order_index_of(tasks, o[a]) <= order_index_of(tasks, o[b])
            && (da >= 0 && order_index_of(tasks, o[a]) == order_index_of(tasks, o[b]) ==> o[a] < o[b]))
    } by {
        assert(q[a] == q[a] && q[b] == q[b]);
    }
}

proof fn lemma_queue_gives_order(tasks: Seq<OcPlanTask>, ep: Seq<(usize, usize)>, q: Seq<usize>, o: Seq<u128>)
    requires
        tasks.len() <= usize::MAX,
        task_ids(tasks).no_duplicates(),
        pairs_are_edges(tasks, ep),
        q.no_duplicates(),
        q.len() == tasks.len(),
        forall|p: int| 0 <= p < q.len() ==> q[p] < tasks.len(),
        queue_respects(ep, q),
        o.len() == q.len(),
        forall|x: int| 0 <= x < o.len() ==> o[x] == tasks[q[x] as int].id,
    ensures
        o.to_set() == task_ids(tasks).to_set(),
        respects(declared_edges(tasks), o),
        !has_cycle(declared_edges(tasks)),
{
    let e_set = declared_edges(tasks);
    let ids = task_ids(tasks);
    assert(o.no_duplicates()) by {
        assert forall|a: int, b: int| 0 <= a < o.len() && 0 <= b < o.len() && a != b implies o[a] != o[b] by {
            assert(q[a] != q[b]);
            assert(ids[q[a] as int] != ids[q[b] as int]);
        }
    }
    assert forall|a: int, b: int| 0 <= a < o.len() && 0 <= b < o.len() && #[trigger] e_set.contains((o[a], o[b])) implies b < a by {
        let x = q[a];
        let y = q[b];
        assert(e_set.contains((tasks[x as int].id, tasks[y as int].id)));
        let k = choose|k: int| 0 <= k < ep.len() && ep[k] == (x, y);
        assert(ep[k].0 == q[a]);
        assert(q.take(a).contains(ep[k].1));
        let c = choose|c: int| 0 <= c < a && q.take(a)[c] == ep[k].1;
        assert(q[c] == q[b]);
    }
    assert(o.to_set() =~= ids.to_set()) by {
        assert forall|v: u128| ids.to_set().contains(v) implies o.to_set().contains(v) by {
            let i = choose|i: int| 0 <= i < ids.len() && ids[i] == v;
            lemma_distinct_below(q, tasks.len() as int);
            let iu = i as usize;
            assert(q.contains(iu));
            let a = choose|a: int| 0 <= a < q.len() && q[a] == iu;
            assert(o[a] == tasks[iu as int].id);
            assert(o[a] == v);
        }
        assert forall|v: u128| o.to_set().contains(v) implies ids.to_set().contains(v) by {
            let a = choose|a: int| 0 <= a < o.len() && o[a] == v;
            assert(ids[q[a] as int] == v);
        }
    }
    assert forall|e: (u128, u128)| #[trigger] e_set.contains(e) implies o.contains(e.0) by {
        lemma_edge_ends_are_tasks(tasks, e);
        assert(ids.to_set().contains(e.0));
        assert(o.to_set().contains(e.0));
    }
    assert(covers(e_set, o));
    lemma_order_excludes_cycle(e_set, o);
}

impl PlanDependencyResolver {
    /// The edges that the dependency titles declare, ascending and without repeats.
    pub fn declared_edge_list(tasks: &[OcPlanTask]) -> (edges: Vec<(u128, u128)>)
        ensures
            strictly_ascending(edges@),
            edges@.to_set() == declared_edges(tasks@),
    {
        let mut edges: Vec<(u128, u128)> = Vec::new();
        let n = tasks.len();
        assert(edges@.to_set() =~= declared_before(tasks@, 0, 0));
        for i in 0..n
            invariant
                n == tasks@.len(),
                strictly_ascending(edges@),
                edges@.to_set() == declared_before(tasks@, i as int, 0),
        {
            let task = &tasks[i];
            let m = task.depends_on.len();
            for k in 0..m
                invariant
                    n == tasks@.len(),
                    i < n,
                    task == tasks@[i as int],
                    m == task.depends_on@.len(),
                    strictly_ascending(edges@),
                    edges@.to_set() == declared_before(tasks@, i as int, k as int),
            {
                let ghost before = edges@.to_set();
                match find_titled(tasks, &task.depends_on[k]) {
                    Some(j) => {
                        if tasks[j].id != task.id {
                            insert_ascending(&mut edges, (task.id, tasks[j].id));
                        }
                    },
                    None => {},
                }
                assert(edges@.to_set() =~= declared_before(tasks@, i as int, k + 1)) by {
                    assert forall|e: (u128, u128)| declared_before(tasks@, i as int, k + 1).contains(e) implies edges@.to_set().contains(e) by {
                        let (i2, k2) = choose|i2: int, k2: int| declares(tasks@, i2, k2, e) && (i2 < i || (i2 == i && k2 < k + 1));
                        if !(i2 < i || (i2 == i && k2 < k)) {
                            assert(i2 == i && k2 == k);
                        } else {
                            assert(before.contains(e));
                        }
                    }
                    assert forall|e: (u128, u128)| edges@.to_set().contains(e) implies declared_before(tasks@, i as int, k + 1).contains(e) by {
                        if !before.contains(e) {
                            assert(declares(tasks@, i as int, k as int, e));
                        } else {
                            let (i2, k2) = choose|i2: int, k2: int| declares(tasks@, i2, k2, e) && (i2 < i || (i2 == i && k2 < k));
                        }
                    }
                }
            }
            assert(declared_before(tasks@, i as int, m as int) =~= declared_before(tasks@, i + 1, 0)) by {
                assert forall|e: (u128, u128)| declared_before(tasks@, i + 1, 0).contains(e) implies declared_before(tasks@, i as int, m as int).contains(e) by {
                    let (i2, k2) = choose|i2: int, k2: int| declares(tasks@, i2, k2, e) && (i2 < i + 1 || (i2 == i + 1 && k2 < 0));
                }
            }
        }
        assert(declared_before(tasks@, n as int, 0) =~= declared_edges(tasks@)) by {
            assert forall|e: (u128, u128)| declared_edges(tasks@).contains(e) implies declared_before(tasks@, n as int, 0).contains(e) by {
                let (i2, k2) = choose|i2: int, k2: int| declares(tasks@, i2, k2, e);
            }
        }
        edges
    }

    /// Resolves the dependency titles of `tasks` into edges and orders the tasks so that each
    /// comes after the tasks it depends on. Titles that name no task, and dependencies of a
    /// task on itself, are left out. Fails when two tasks share an id or the edges form a cycle.
    pub fn resolve(tasks: &[OcPlanTask]) -> (r: Result<ResolvedDeps, DependencyError>)
        ensures
            r is Ok <==> (task_ids(tasks@).no_duplicates() && !has_cycle(declared_edges(tasks@))),
            r matches Ok(res) ==> {
                &&& strictly_ascending(res.edges@)
                &&& res.edges@.to_set() == declared_edges(tasks@)
                &&& res.ordered_task_ids@.len() == tasks@.len()
                &&& res.ordered_task_ids@.to_set() == task_ids(tasks@).to_set()
                &&& respects(declared_edges(tasks@), res.ordered_task_ids@)
                &&& in_batches(declared_edges(tasks@), tasks@, res.ordered_task_ids@)
            },
    {
        let edges = Self::declared_edge_list(tasks);
        if !ids_distinct(tasks) {
            return Err(DependencyError::CycleDetected);
        }
        let mut ep: Vec<(usize, usize)> = Vec::new();
        for k in 0..edges.len()
            invariant
                edges@.to_set() == declared_edges(tasks@),
                ep@.len() == k,
                forall|q: int| 0 <= q < k ==> pair_matches(tasks@, edges@, ep@, q),
        {
            let e = edges[k];
            proof {
                lemma_edge_ends_are_tasks(tasks@, e);
            }
            let a = match index_of_id(tasks, e.0) {
                Some(a) => a,
                None => {
                    assert(false);
                    return Err(DependencyError::CycleDetected);
                },
            };
            let b = match index_of_id(tasks, e.1) {
                Some(b) => b,
                None => {
                    assert(false);
                    return Err(DependencyError::CycleDetected);
                },
            };
            let ghost ep0 = ep@;
            ep.push((a, b));
            assert(pair_matches(tasks@, edges@, ep@, k as int));
            assert forall|q: int| 0 <= q < k + 1 implies pair_matches(tasks@, edges@, ep@, q) by {
                if q < k {
                    assert(ep@[q] == ep0[q]);
                    assert(pair_matches(tasks@, edges@, ep0, q));
                }
            }
        }
        proof {
            lemma_pairs_are_edges(tasks@, edges@, ep@);
            assert forall|k1: int, k2: int|
                0 <= k1 < k2 < ep@.len() && (#[trigger] ep@[k1]).1 == (#[trigger] ep@[k2]).1 implies tasks@[ep@[k1].0 as int].id
                    < tasks@[ep@[k2].0 as int].id by {
                assert(pair_matches(tasks@, edges@, ep@, k1));
                assert(pair_matches(tasks@, edges@, ep@, k2));
                assert(pair_lt(edges@[k1], edges@[k2]));
            }
        }
        match kahn_order(tasks, &ep) {
            None => {
                proof {
                    lemma_stuck_means_cycle(tasks@, ep@);
                }
                Err(DependencyError::CycleDetected)
            },
            Some(q) => {
                let mut ordered: Vec<u128> = Vec::new();
                for p in 0..q.len()
                    invariant
                        forall|x: int| 0 <= x < q@.len() ==> q@[x] < tasks@.len(),
                        ordered@.len() == p,
                        forall|x: int| 0 <= x < p ==> ordered@[x] == tasks@[q@[x] as int].id,
                {
                    ordered.push(tasks[q[p]].id);
                }
                proof {
                    lemma_queue_gives_order(tasks@, ep@, q@, ordered@);
                    lemma_batches_give_order(tasks@, ep@, q@, ordered@);
                }
                Ok(ResolvedDeps { edges, ordered_task_ids: ordered })
            },
        }
    }
}

} // verus!
