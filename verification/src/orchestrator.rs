//! The decisions of the orchestrator: loading a plan's graph, the initial state of a run,
//! what completing or failing a task changes, and the prompt a task is started with.

use std::collections::HashSet;

use vstd::prelude::*;

use crate::cycle::has_cycle;
use crate::dependency_graph::{
    blocking_set, graph_edges, ready_set, with_dependency, with_task, DependencyGraph,
};
use crate::ids::{parse_uuid, uuid_from_text};
use crate::json::{decode_blocked_by, ids_read, stored_strings};
use crate::orchestrator_types::{OcOrchestrationRunStatus, OcTaskRunState, OcTaskRunStatus};
use crate::text::push_str;

verus! {

broadcast use {vstd::std_specs::hash::group_hash_axioms, vstd::seq_lib::group_seq_properties};

/// Why the orchestrator could not go on.
#[derive(Debug, Clone)]
pub enum OrchestratorError {
    /// The plan's dependencies form a cycle.
    CyclicDependency,
    /// Anything else, with its message.
    Other(String),
}

/// Every text reads as a UUID.
pub open spec fn all_ids(texts: Seq<String>) -> bool {
    forall|i: int| 0 <= i < texts.len() ==> (#[trigger] uuid_from_text(texts[i]@)) is Some
}

/// Both texts of every pair read as UUIDs.
pub open spec fn all_id_pairs(texts: Seq<(String, String)>) -> bool {
    forall|i: int|
        0 <= i < texts.len() ==> (#[trigger] uuid_from_text(texts[i].0@)) is Some && uuid_from_text(
            texts[i].1@,
        ) is Some
}

/// The UUIDs that the texts stand for.
pub open spec fn ids_of(texts: Seq<String>) -> Seq<u128> {
    texts.map_values(|s: String| uuid_from_text(s@)->0)
}

/// The UUID pairs that the text pairs stand for.
pub open spec fn id_pairs_of(texts: Seq<(String, String)>) -> Seq<(u128, u128)> {
    texts.map_values(|p: (String, String)| (uuid_from_text(p.0@)->0, uuid_from_text(p.1@)->0))
}

/// The graph after adding the tasks `ts` in order.
pub open spec fn tasks_added(m: Map<u128, Set<u128>>, ts: Seq<u128>) -> Map<u128, Set<u128>>
    decreases ts.len(),
{
    if ts.len() == 0 {
        m
    } else {
        with_task(tasks_added(m, ts.drop_last()), ts.last())
    }
}

/// The graph after adding the dependencies `ds` in order.
pub open spec fn deps_added(m: Map<u128, Set<u128>>, ds: Seq<(u128, u128)>) -> Map<u128, Set<u128>>
    decreases ds.len(),
{
    if ds.len() == 0 {
        m
    } else {
        with_dependency(deps_added(m, ds.drop_last()), ds.last().0, ds.last().1)
    }
}

/// The graph of a plan: its tasks, then its dependency edges.
pub open spec fn plan_graph(tasks: Seq<u128>, deps: Seq<(u128, u128)>) -> Map<u128, Set<u128>> {
    deps_added(tasks_added(Map::empty(), tasks), deps)
}

/// Builds a plan's dependency graph from the stored texts of its task ids and of its
/// `(task_id, depends_on_task_id)` edges. Fails with `Other` when a text is not a UUID,
/// and with `CyclicDependency` when the edges form a cycle.
pub fn graph_from_rows(task_ids: &Vec<String>, deps: &Vec<(String, String)>) -> (r: Result<
    DependencyGraph,
    OrchestratorError,
>)
    ensures
        r is Ok <==> (all_ids(task_ids@) && all_id_pairs(deps@) && !has_cycle(
            graph_edges(plan_graph(ids_of(task_ids@), id_pairs_of(deps@))),
        )),
        r matches Err(OrchestratorError::CyclicDependency) <==> (all_ids(task_ids@) && all_id_pairs(
            deps@,
        ) && has_cycle(graph_edges(plan_graph(ids_of(task_ids@), id_pairs_of(deps@))))),
        r matches Ok(g) ==> g.wf() && g@ == plan_graph(ids_of(task_ids@), id_pairs_of(deps@)),
{
    let mut g = DependencyGraph::new();
    let n = task_ids.len();
    for i in 0..n
        invariant
            n == task_ids@.len(),
            g.wf(),
            all_ids(task_ids@.take(i as int)),
            g@ == tasks_added(Map::empty(), ids_of(task_ids@.take(i as int))),
    {
        match parse_uuid(task_ids[i].as_str()) {
            Ok(v) => {
                g.add_task(v);
                proof {
                    let t = task_ids@.take(i + 1);
                    assert(t.drop_last() =~= task_ids@.take(i as int));
                    assert(ids_of(t).drop_last() =~= ids_of(task_ids@.take(i as int)));
                    assert(ids_of(t).last() == v);
                    assert forall|j: int| 0 <= j < t.len() implies (#[trigger] uuid_from_text(t[j]@)) is Some by {
                        if j < i {
                            assert(t[j] == task_ids@.take(i as int)[j]);
                        }
                    }
                }
            },
            Err(e) => {
                proof {
                    assert(!all_ids(task_ids@)) by {
                        assert(uuid_from_text(task_ids@[i as int]@) is None);
                    }
                }
                return Err(OrchestratorError::Other(e));
            },
        }
    }
    assert(task_ids@.take(n as int) =~= task_ids@);
    let m = deps.len();
    let ghost base = g@;
    for k in 0..m
        invariant
            m == deps@.len(),
            g.wf(),
            all_id_pairs(deps@.take(k as int)),
            g@ == deps_added(base, id_pairs_of(deps@.take(k as int))),
    {
        let a = match parse_uuid(deps[k].0.as_str()) {
            Ok(v) => v,
            Err(e) => {
                proof {
                    assert(!all_id_pairs(deps@)) by {
                        assert(uuid_from_text(deps@[k as int].0@) is None);
                    }
                }
                return Err(OrchestratorError::Other(e));
            },
        };
        let b = match parse_uuid(deps[k].1.as_str()) {
            Ok(v) => v,
            Err(e) => {
                proof {
                    assert(!all_id_pairs(deps@)) by {
                        assert(uuid_from_text(deps@[k as int].1@) is None);
                    }
                }
                return Err(OrchestratorError::Other(e));
            },
        };
        g.add_dependency(a, b);
        proof {
            let t = deps@.take(k + 1);
            assert(t.drop_last() =~= deps@.take(k as int));
            assert(id_pairs_of(t).drop_last() =~= id_pairs_of(deps@.take(k as int)));
            assert(id_pairs_of(t).last() == (a, b));
            assert forall|j: int| 0 <= j < t.len() implies (#[trigger] uuid_from_text(t[j].0@)) is Some
                && uuid_from_text(t[j].1@) is Some by {
                if j < k {
                    assert(t[j] == deps@.take(k as int)[j]);
                }
            }
        }
    }
    assert(deps@.take(m as int) =~= deps@);
    if g.has_cycle() {
        Err(OrchestratorError::CyclicDependency)
    } else {
        Ok(g)
    }
}

/// How a task starts in a new run.
#[derive(Debug, Clone)]
pub struct InitialTaskState {
    pub task_id: u128,
    /// `Pending` when nothing blocks the task, `Blocked` otherwise.
    pub status: OcTaskRunStatus,
    /// The tasks it waits for.
    pub blocked_by: Vec<u128>,
}

/// The starting state of every task of a run, in the given order: each task is blocked by
/// all of its dependencies, since nothing is completed yet.
pub fn initial_task_states(graph: &DependencyGraph, task_ids: &Vec<u128>) -> (states: Vec<
    InitialTaskState,
>)
    requires
        graph.wf(),
    ensures
        states@.len() == task_ids@.len(),
        forall|i: int|
            0 <= i < states@.len() ==> {
                &&& (#[trigger] states@[i]).task_id == task_ids@[i]
                &&& states@[i].blocked_by@.no_duplicates()
                &&& states@[i].blocked_by@.to_set() == blocking_set(graph@, task_ids@[i], Set::empty())
                &&& states@[i].status == if states@[i].blocked_by@.len() == 0 {
                    OcTaskRunStatus::Pending
                } else {
                    OcTaskRunStatus::Blocked
                }
            },
{
    let completed: HashSet<u128> = HashSet::new();
    let mut states: Vec<InitialTaskState> = Vec::new();
    for i in 0..task_ids.len()
        invariant
            graph.wf(),
            completed@ == Set::<u128>::empty(),
            states@.len() == i,
            forall|j: int|
                0 <= j < i ==> {
                    &&& (#[trigger] states@[j]).task_id == task_ids@[j]
                    &&& states@[j].blocked_by@.no_duplicates()
                    &&& states@[j].blocked_by@.to_set() == blocking_set(graph@, task_ids@[j], Set::empty())
                    &&& states@[j].status == if states@[j].blocked_by@.len() == 0 {
                        OcTaskRunStatus::Pending
                    } else {
                        OcTaskRunStatus::Blocked
                    }
                },
    {
        let t = task_ids[i];
        let blocking = graph.blocking_tasks(t, &completed);
        let status = if blocking.len() == 0 {
            OcTaskRunStatus::Pending
        } else {
            OcTaskRunStatus::Blocked
        };
        states.push(InitialTaskState { task_id: t, status, blocked_by: blocking });
    }
    states
}

/// The ids of the tasks that count as completed once `task_id` completes.
pub open spec fn completed_after(states: Seq<OcTaskRunState>, task_id: u128) -> Set<u128> {
    Set::new(
        |t: u128|
            exists|i: int|
                0 <= i < states.len() && states[i].task_id == t && (t == task_id || states[i].status
                    == OcTaskRunStatus::Completed),
    )
}

/// The fields that identify a task state are the same in both.
pub open spec fn same_identity(a: OcTaskRunState, b: OcTaskRunState) -> bool {
    &&& a.id == b.id
    &&& a.run_id == b.run_id
    &&& a.task_id == b.task_id
    &&& a.workspace_id == b.workspace_id
    &&& a.started_at == b.started_at
    &&& a.created_at == b.created_at
}

/// What completing `task_id` does to one task state, given the tasks that are then ready.
pub open spec fn completion_step(
    old: OcTaskRunState,
    new: OcTaskRunState,
    task_id: u128,
    summary: Option<String>,
    now: String,
    ready: Set<u128>,
) -> bool {
    &&& same_identity(old, new)
    &&& if old.task_id == task_id {
        &&& new.status == OcTaskRunStatus::Completed
        &&& new.completed_at == Some(now)
        &&& new.context_summary == summary
        &&& new.blocked_by@ == old.blocked_by@
    } else if old.status == OcTaskRunStatus::Blocked && ready.contains(old.task_id) {
        &&& new.status == OcTaskRunStatus::Pending
        &&& new.blocked_by@.len() == 0
        &&& new.completed_at == old.completed_at
        &&& new.context_summary == old.context_summary
    } else {
        &&& new.status == old.status
        &&& new.blocked_by@ == old.blocked_by@
        &&& new.completed_at == old.completed_at
        &&& new.context_summary == old.context_summary
    }
}

/// The tasks that completing `task_id` unblocks.
pub open spec fn unblocked_by(states: Seq<OcTaskRunState>, task_id: u128, ready: Set<u128>) -> Set<u128> {
    Set::new(
        |t: u128|
            exists|i: int|
                0 <= i < states.len() && states[i].task_id == t && t != task_id && states[i].status
                    == OcTaskRunStatus::Blocked && ready.contains(t),
    )
}

/// Every task of the run has completed or failed.
pub open spec fn run_finished(states: Seq<OcTaskRunState>) -> bool {
    forall|i: int|
        0 <= i < states.len() ==> (#[trigger] states[i].status == OcTaskRunStatus::Completed
            || states[i].status == OcTaskRunStatus::Failed)
}

fn clone_summary(o: &Option<String>) -> (r: Option<String>)
    ensures
        r == *o,
{
    match o {
        Some(s) => Some(s.clone()),
        None => None,
    }
}

/// Marks `task_id` completed at `now` with its summary, moves every blocked task whose
/// dependencies are now all completed to `Pending`, and tells which tasks it unblocked and
/// whether every task of the run has now completed or failed.
pub fn complete_task(
    states: &mut Vec<OcTaskRunState>,
    graph: &DependencyGraph,
    task_id: u128,
    context_summary: Option<String>,
    now: String,
) -> (r: (Vec<u128>, bool))
    requires
        graph.wf(),
    ensures
        final(states)@.len() == old(states)@.len(),
        forall|i: int|
            0 <= i < old(states)@.len() ==> completion_step(
                #[trigger] old(states)@[i],
                final(states)@[i],
                task_id,
                context_summary,
                now,
                ready_set(graph@, completed_after(old(states)@, task_id)),
            ),
        r.0@.no_duplicates(),
        r.0@.to_set() == unblocked_by(
            old(states)@,
            task_id,
            ready_set(graph@, completed_after(old(states)@, task_id)),
        ),
        r.1 == run_finished(final(states)@),
{
    let ghost orig = states@;
    let n = states.len();
    for i in 0..n
        invariant
            n == orig.len(),
            states@.len() == n,
            forall|j: int| i <= j < n ==> states@[j] == orig[j],
            forall|j: int|
                0 <= j < i ==> {
                    &&& same_identity(orig[j], #[trigger] states@[j])
                    &&& if orig[j].task_id == task_id {
                        &&& states@[j].status == OcTaskRunStatus::Completed
                        &&& states@[j].completed_at == Some(now)
                        &&& states@[j].context_summary == context_summary
                        &&& states@[j].blocked_by@ == orig[j].blocked_by@
                    } else {
                        states@[j] == orig[j]
                    }
                },
    {
        if states[i].task_id == task_id {
            let mut st = states.remove(i);
            st.status = OcTaskRunStatus::Completed;
            st.completed_at = Some(now.clone());
            st.context_summary = clone_summary(&context_summary);
            states.insert(i, st);
        }
    }
    let ghost marked = states@;
    let mut completed: HashSet<u128> = HashSet::new();
    for i in 0..n
        invariant
            states@ == marked,
            n == marked.len(),
            forall|t: u128| completed@.contains(t) <==> exists|j: int| 0 <= j < i && marked[j].task_id == t
                && marked[j].status == OcTaskRunStatus::Completed,
    {
        if states[i].status == OcTaskRunStatus::Completed {
            completed.insert(states[i].task_id);
        }
    }
    let ghost c = completed_after(orig, task_id);
    assert(completed@ =~= c) by {
        assert forall|t: u128| completed@.contains(t) implies c.contains(t) by {
            let j = choose|j: int| 0 <= j < n && marked[j].task_id == t && marked[j].status == OcTaskRunStatus::Completed;
            assert(orig[j].task_id == t);
        }
        assert forall|t: u128| c.contains(t) implies completed@.contains(t) by {
            let j = choose|j: int| 0 <= j < n && orig[j].task_id == t && (t == task_id || orig[j].status == OcTaskRunStatus::Completed);
            assert(marked[j].task_id == t);
        }
    }
    let ready = graph.ready_tasks(&completed);
    let ghost rs = ready_set(graph@, c);
    let mut unblocked: Vec<u128> = Vec::new();
    for k in 0..ready.len()
        invariant
            n == marked.len(),
            states@.len() == n,
            ready@.no_duplicates(),
            ready@.to_set() == rs,
            forall|j: int|
                0 <= j < n ==> {
                    &&& same_identity(marked[j], #[trigger] states@[j])
                    &&& if marked[j].status == OcTaskRunStatus::Blocked && ready@.take(k as int).contains(
                        marked[j].task_id,
                    ) {
                        &&& states@[j].status == OcTaskRunStatus::Pending
                        &&& states@[j].blocked_by@.len() == 0
                        &&& states@[j].completed_at == marked[j].completed_at
                        &&& states@[j].context_summary == marked[j].context_summary
                    } else {
                        states@[j] == marked[j]
                    }
                },
            unblocked@.no_duplicates(),
            forall|t: u128| unblocked@.contains(t) <==> (ready@.take(k as int).contains(t) && exists|j: int|
                0 <= j < n && marked[j].task_id == t && marked[j].status == OcTaskRunStatus::Blocked),
    {
        let r = ready[k];
        let mut any = false;
        let ghost before = states@;
        for j in 0..n
            invariant
                n == marked.len(),
                states@.len() == n,
                k < ready@.len(),
                r == ready@[k as int],
                ready@.no_duplicates(),
                forall|q: int|
                    0 <= q < n ==> {
                        &&& same_identity(marked[q], #[trigger] states@[q])
                        &&& if marked[q].status == OcTaskRunStatus::Blocked && (ready@.take(k as int).contains(
                            marked[q].task_id,
                        ) || (q < j && marked[q].task_id == r)) {
                            &&& states@[q].status == OcTaskRunStatus::Pending
                            &&& states@[q].blocked_by@.len() == 0
                            &&& states@[q].completed_at == marked[q].completed_at
                            &&& states@[q].context_summary == marked[q].context_summary
                        } else {
                            states@[q] == marked[q]
                        }
                    },
                any == exists|q: int| 0 <= q < j && marked[q].task_id == r && marked[q].status == OcTaskRunStatus::Blocked,
        {
            proof {
                assert(!ready@.take(k as int).contains(r)) by {
                    if ready@.take(k as int).contains(r) {
                        let q = choose|q: int| 0 <= q < k && ready@.take(k as int)[q] == r;
                        assert(ready@[q] == ready@[k as int]);
                    }
                }
                if marked[j as int].task_id == r {
                    assert(states@[j as int] == marked[j as int]);
                }
            }
            if states[j].task_id == r && states[j].status == OcTaskRunStatus::Blocked {
                let mut st = states.remove(j);
                st.status = OcTaskRunStatus::Pending;
                st.blocked_by = Vec::new();
                states.insert(j, st);
                any = true;
            }
        }
        let ghost u0 = unblocked@;
        if any {
            unblocked.push(r);
        }
        proof {
            assert(ready@.take(k + 1) =~= ready@.take(k as int).push(r));
            if any {
                assert(!u0.contains(r)) by {
                    if u0.contains(r) {
                        let q = choose|q: int| 0 <= q < k && ready@.take(k as int)[q] == r;
                        assert(ready@[q] == ready@[k as int]);
                    }
                }
            }
        }
    }
    proof {
        assert(ready@.take(ready@.len() as int) =~= ready@);
        assert forall|i: int| 0 <= i < orig.len() implies completion_step(
            #[trigger] orig[i],
            states@[i],
            task_id,
            context_summary,
            now,
            rs,
        ) by {
            assert(ready@.to_set().contains(orig[i].task_id) <==> ready@.contains(orig[i].task_id));
        }
        assert(unblocked@.to_set() =~= unblocked_by(orig, task_id, rs)) by {
            assert forall|t: u128| unblocked@.to_set().contains(t) implies unblocked_by(orig, task_id, rs).contains(t) by {
                let j = choose|j: int| 0 <= j < n && marked[j].task_id == t && marked[j].status == OcTaskRunStatus::Blocked;
                assert(orig[j].task_id != task_id);
                assert(ready@.to_set().contains(t));
            }
            assert forall|t: u128| unblocked_by(orig, task_id, rs).contains(t) implies unblocked@.to_set().contains(t) by {
                let j = choose|j: int| 0 <= j < orig.len() && orig[j].task_id == t && t != task_id && orig[j].status == OcTaskRunStatus::Blocked && rs.contains(t);
                assert(marked[j].status == OcTaskRunStatus::Blocked);
                assert(ready@.contains(t));
            }
        }
    }
    let mut finished = true;
    for i in 0..n
        invariant
            states@.len() == n,
            finished == forall|j: int| 0 <= j < i ==> (#[trigger] states@[j].status == OcTaskRunStatus::Completed
                || states@[j].status == OcTaskRunStatus::Failed),
    {
        if states[i].status != OcTaskRunStatus::Completed && states[i].status != OcTaskRunStatus::Failed {
            finished = false;
        }
    }
    (unblocked, finished)
}

/// What failing `task_id` does to one task state.
pub open spec fn failure_step(old: OcTaskRunState, new: OcTaskRunState, task_id: u128, now: String) -> bool {
    &&& same_identity(old, new)
    &&& if old.task_id == task_id {
        &&& new.status == OcTaskRunStatus::Failed
        &&& new.completed_at == Some(now)
        &&& new.context_summary == old.context_summary
        &&& new.blocked_by@ == old.blocked_by@
    } else {
        new == old
    }
}

/// Marks `task_id` failed at `now`; the whole run then stands as failed.
pub fn fail_task(states: &mut Vec<OcTaskRunState>, task_id: u128, now: String) -> (r:
    OcOrchestrationRunStatus)
    ensures
        final(states)@.len() == old(states)@.len(),
        forall|i: int|
            0 <= i < old(states)@.len() ==> failure_step(#[trigger] old(states)@[i], final(states)@[i], task_id, now),
        r == OcOrchestrationRunStatus::Failed,
{
    let ghost orig = states@;
    let n = states.len();
    for i in 0..n
        invariant
            n == orig.len(),
            states@.len() == n,
            forall|j: int| i <= j < n ==> states@[j] == orig[j],
            forall|j: int| 0 <= j < i ==> failure_step(orig[j], #[trigger] states@[j], task_id, now),
    {
        if states[i].task_id == task_id {
            let mut st = states.remove(i);
            st.status = OcTaskRunStatus::Failed;
            st.completed_at = Some(now.clone());
            states.insert(i, st);
        }
    }
    OcOrchestrationRunStatus::Failed
}

/// One line of context: `- {title}: {summary}`.
pub open spec fn context_line(title: Seq<char>, summary: Seq<char>) -> Seq<char> {
    "- "@ + title + ": "@ + summary
}

/// Lines joined by newlines.
pub open spec fn joined_lines(lines: Seq<Seq<char>>) -> Seq<char>
    decreases lines.len(),
{
    if lines.len() == 0 {
        Seq::empty()
    } else if lines.len() == 1 {
        lines[0]
    } else {
        joined_lines(lines.drop_last()) + "\n"@ + lines.last()
    }
}

/// The context lines of `(title, summary)` pairs.
pub open spec fn context_lines(context: Seq<(String, String)>) -> Seq<Seq<char>> {
    context.map_values(|p: (String, String)| context_line(p.0@, p.1@))
}

/// A task's prompt with what its completed dependencies did put in front of it.
pub open spec fn prompt_with_context(task_prompt: Seq<char>, context: Seq<(String, String)>) -> Seq<char> {
    if context.len() == 0 {
        task_prompt
    } else {
        "Önceki adımlarda yapılanlar:\n"@ + joined_lines(context_lines(context))
            + "\n\nŞimdi senin görevin:\n"@ + task_prompt
    }
}

/// Puts the summaries of the task's completed dependencies, given as `(title, summary)`
/// pairs in completion order, in front of the task's own prompt.
pub fn compose_task_prompt(task_prompt: &str, context: &Vec<(String, String)>) -> (r: String)
    ensures
        r@ == prompt_with_context(task_prompt@, context@),
{
    let mut out = String::new();
    if context.len() == 0 {
        push_str(&mut out, task_prompt);
        return out;
    }
    push_str(&mut out, "Önceki adımlarda yapılanlar:\n");
    let ghost head = out@;
    for i in 0..context.len()
        invariant
            head == "Önceki adımlarda yapılanlar:\n"@,
            0 < context@.len(),
            out@ == head + joined_lines(context_lines(context@).take(i as int)),
    {
        let ghost before = out@;
        if i > 0 {
            push_str(&mut out, "\n");
        }
        push_str(&mut out, "- ");
        push_str(&mut out, context[i].0.as_str());
        push_str(&mut out, ": ");
        push_str(&mut out, context[i].1.as_str());
        proof {
            let ls = context_lines(context@).take(i + 1);
            assert(ls.drop_last() =~= context_lines(context@).take(i as int));
            assert(ls.last() == context_line(context@[i as int].0@, context@[i as int].1@));
            if i == 0 {
                assert(context_lines(context@).take(0) =~= Seq::<Seq<char>>::empty());
                assert(out@ =~= head + ls.last());
            } else {
                assert(out@ =~= before + "\n"@ + ls.last());
            }
        }
    }
    assert(context_lines(context@).take(context@.len() as int) =~= context_lines(context@));
    push_str(&mut out, "\n\nŞimdi senin görevin:\n");
    push_str(&mut out, task_prompt);
    out
}

/// The full prompt of a task always ends with the task's own prompt, and is that prompt
/// alone when no dependency left a summary.
pub proof fn lemma_prompt_ends_with_task(task_prompt: Seq<char>, context: Seq<(String, String)>)
    ensures
        ({
            let full = prompt_with_context(task_prompt, context);
            &&& full.len() >= task_prompt.len()
            &&& full.subrange(full.len() - task_prompt.len(), full.len() as int) == task_prompt
        }),
        context.len() == 0 ==> prompt_with_context(task_prompt, context) == task_prompt,
{
    let full = prompt_with_context(task_prompt, context);
    assert(full.subrange(full.len() - task_prompt.len(), full.len() as int) =~= task_prompt);
}

/// What to do when a coding agent working in a workspace finishes.
#[derive(Debug, Clone, Copy, PartialEq, Eq, Structural)]
pub enum HookAction {
    /// No run manages the workspace.
    Skip,
    /// Tell the orchestrator that the task completed.
    TaskCompleted { run_id: u128, task_id: u128 },
    /// Tell the orchestrator that the task failed.
    TaskFailed { run_id: u128, task_id: u128 },
}

/// Decides what a finished coding agent means for the run that manages its workspace, if any.
pub fn hook_action(active: Option<(u128, u128)>, success: bool) -> (a: HookAction)
    ensures
        a == match active {
            None => HookAction::Skip,
            Some((run_id, task_id)) => if success {
                HookAction::TaskCompleted { run_id, task_id }
            } else {
                HookAction::TaskFailed { run_id, task_id }
            },
        },
{
    match active {
        None => HookAction::Skip,
        Some((run_id, task_id)) => if success {
            HookAction::TaskCompleted { run_id, task_id }
        } else {
            HookAction::TaskFailed { run_id, task_id }
        },
    }
}

/// The `(run_id, task_id)` of a stored active task run; a text that is not a UUID reads as
/// the nil UUID.
pub fn active_run_ids(run_id: &str, task_id: &str) -> (r: (u128, u128))
    ensures
        r.0 == match uuid_from_text(run_id@) {
            Some(x) => x,
            None => 0,
        },
        r.1 == match uuid_from_text(task_id@) {
            Some(x) => x,
            None => 0,
        },
{
    (crate::ids::parse_uuid_or_nil(run_id), crate::ids::parse_uuid_or_nil(task_id))
}

/// Completing a task never reopens another one: the completed task ends completed, a task
/// that had completed or failed keeps its status, and the only tasks that change to
/// `Pending` are blocked ones that became ready.
pub proof fn lemma_completion_keeps_finished(
    old: OcTaskRunState,
    new: OcTaskRunState,
    task_id: u128,
    summary: Option<String>,
    now: String,
    ready: Set<u128>,
)
    requires
        completion_step(old, new, task_id, summary, now, ready),
    ensures
        old.task_id == task_id ==> new.status == OcTaskRunStatus::Completed,
        old.task_id != task_id && (old.status == OcTaskRunStatus::Completed || old.status
            == OcTaskRunStatus::Failed) ==> new.status == old.status,
        new.status == OcTaskRunStatus::Pending && old.status != OcTaskRunStatus::Pending ==> (
        old.status == OcTaskRunStatus::Blocked && ready.contains(old.task_id)),
{
}

/// A run counts as finished exactly when none of its tasks is still pending, blocked or
/// running.
pub proof fn lemma_finished_iff_nothing_open(states: Seq<OcTaskRunState>)
    ensures
        run_finished(states) <==> !exists|i: int|
            0 <= i < states.len() && (#[trigger] states[i].status == OcTaskRunStatus::Pending
                || states[i].status == OcTaskRunStatus::Blocked || states[i].status
                == OcTaskRunStatus::Running),
{
}

/// Completing one task while another task of the run is running, pending or blocked
/// (that was not made ready) leaves the run unfinished.
pub proof fn lemma_open_task_keeps_run_open(
    old: Seq<OcTaskRunState>,
    new: Seq<OcTaskRunState>,
    task_id: u128,
    summary: Option<String>,
    now: String,
    ready: Set<u128>,
    j: int,
)
    requires
        new.len() == old.len(),
        forall|i: int| 0 <= i < old.len() ==> completion_step(#[trigger] old[i], new[i], task_id, summary, now, ready),
        0 <= j < old.len(),
        old[j].task_id != task_id,
        old[j].status == OcTaskRunStatus::Running || old[j].status == OcTaskRunStatus::Pending
            || old[j].status == OcTaskRunStatus::Blocked,
    ensures
        !run_finished(new),
{
    assert(completion_step(old[j], new[j], task_id, summary, now, ready));
    assert(new[j].status == OcTaskRunStatus::Running || new[j].status == OcTaskRunStatus::Pending
        || new[j].status == OcTaskRunStatus::Blocked);
}

/// Once every other task has completed or failed, completing the last one finishes the run.
pub proof fn lemma_last_completion_finishes(
    old: Seq<OcTaskRunState>,
    new: Seq<OcTaskRunState>,
    task_id: u128,
    summary: Option<String>,
    now: String,
    ready: Set<u128>,
)
    requires
        new.len() == old.len(),
        forall|i: int| 0 <= i < old.len() ==> completion_step(#[trigger] old[i], new[i], task_id, summary, now, ready),
        forall|i: int|
            0 <= i < old.len() && #[trigger] old[i].task_id != task_id ==> old[i].status == OcTaskRunStatus::Completed
                || old[i].status == OcTaskRunStatus::Failed,
    ensures
        run_finished(new),
{
    assert forall|i: int| 0 <= i < new.len() implies (#[trigger] new[i].status == OcTaskRunStatus::Completed
        || new[i].status == OcTaskRunStatus::Failed) by {
        assert(completion_step(old[i], new[i], task_id, summary, now, ready));
    }
}

/// The completed task records its completion: status `Completed`, completed at `now`, with
/// the summary given, and it keeps its identity.
pub proof fn lemma_completed_task_recorded(
    old: OcTaskRunState,
    new: OcTaskRunState,
    task_id: u128,
    summary: Option<String>,
    now: String,
    ready: Set<u128>,
)
    requires
        completion_step(old, new, task_id, summary, now, ready),
        old.task_id == task_id,
    ensures
        new.status == OcTaskRunStatus::Completed,
        new.completed_at == Some(now),
        new.context_summary == summary,
        new.id == old.id && new.run_id == old.run_id && new.task_id == old.task_id,
{
}

/// A blocked task whose dependencies are all done once `task_id` completes is released:
/// it becomes `Pending` and waits for nothing.
pub proof fn lemma_ready_blocked_task_released(
    old: OcTaskRunState,
    new: OcTaskRunState,
    task_id: u128,
    summary: Option<String>,
    now: String,
    ready: Set<u128>,
)
    requires
        completion_step(old, new, task_id, summary, now, ready),
        old.task_id != task_id,
        old.status == OcTaskRunStatus::Blocked,
        ready.contains(old.task_id),
    ensures
        new.status == OcTaskRunStatus::Pending,
        new.blocked_by@.len() == 0,
{
}

/// The tasks reported as unblocked are exactly those that went from `Blocked` to `Pending`.
pub proof fn lemma_unblocked_are_released(
    old: Seq<OcTaskRunState>,
    new: Seq<OcTaskRunState>,
    task_id: u128,
    summary: Option<String>,
    now: String,
    ready: Set<u128>,
    t: u128,
)
    requires
        new.len() == old.len(),
        forall|i: int| 0 <= i < old.len() ==> completion_step(#[trigger] old[i], new[i], task_id, summary, now, ready),
    ensures
        unblocked_by(old, task_id, ready).contains(t) <==> exists|i: int|
            0 <= i < old.len() && #[trigger] old[i].task_id == t && old[i].status == OcTaskRunStatus::Blocked
                && new[i].status == OcTaskRunStatus::Pending,
{
    if unblocked_by(old, task_id, ready).contains(t) {
        let i = choose|i: int|
            0 <= i < old.len() && old[i].task_id == t && t != task_id && old[i].status == OcTaskRunStatus::Blocked
                && ready.contains(t);
        assert(completion_step(old[i], new[i], task_id, summary, now, ready));
        assert(old[i].task_id == t && old[i].status == OcTaskRunStatus::Blocked && new[i].status
            == OcTaskRunStatus::Pending);
    }
    if exists|i: int|
        0 <= i < old.len() && #[trigger] old[i].task_id == t && old[i].status == OcTaskRunStatus::Blocked
            && new[i].status == OcTaskRunStatus::Pending {
        let i = choose|i: int|
            0 <= i < old.len() && #[trigger] old[i].task_id == t && old[i].status == OcTaskRunStatus::Blocked
                && new[i].status == OcTaskRunStatus::Pending;
        assert(completion_step(old[i], new[i], task_id, summary, now, ready));
        assert(t != task_id && ready.contains(t));
    }
}

/// The text of an optional string slice.
pub open spec fn opt_view(t: Option<&str>) -> Option<Seq<char>> {
    match t {
        Some(s) => Some(s@),
        None => None,
    }
}

/// The stored state of a task in a run, read from the texts of its row: `None` when one of
/// the three required ids is not a UUID. An unreadable workspace id reads as none, an
/// unknown status as `Pending`, and `blocked_by` as the UUIDs of its JSON list (see
/// `decode_blocked_by`).
pub fn task_run_state_from_row(
    id: &str,
    run_id: &str,
    task_id: &str,
    workspace_id: Option<&str>,
    status: &str,
    blocked_by: Option<&str>,
    context_summary: Option<String>,
    started_at: Option<String>,
    completed_at: Option<String>,
    created_at: String,
) -> (r: Option<OcTaskRunState>)
    ensures
        r is Some <==> (uuid_from_text(id@) is Some && uuid_from_text(run_id@) is Some
            && uuid_from_text(task_id@) is Some),
        r matches Some(st) ==> {
            &&& Some(st.id) == uuid_from_text(id@)
            &&& Some(st.run_id) == uuid_from_text(run_id@)
            &&& Some(st.task_id) == uuid_from_text(task_id@)
            &&& st.workspace_id == match workspace_id {
                Some(w) => uuid_from_text(w@),
                None => None,
            }
            &&& st.status == match OcTaskRunStatus::named(status@) {
                Some(x) => x,
                None => OcTaskRunStatus::Pending,
            }
            &&& st.blocked_by@ == ids_read(stored_strings(opt_view(blocked_by)))
            &&& st.context_summary == context_summary
            &&& st.started_at == started_at
            &&& st.completed_at == completed_at
            &&& st.created_at == created_at
        },
{
    let id = match parse_uuid(id) {
        Ok(v) => v,
        Err(_) => return None,
    };
    let run_id = match parse_uuid(run_id) {
        Ok(v) => v,
        Err(_) => return None,
    };
    let task_id = match parse_uuid(task_id) {
        Ok(v) => v,
        Err(_) => return None,
    };
    let workspace_id = match workspace_id {
        Some(w) => match parse_uuid(w) {
            Ok(v) => Some(v),
            Err(_) => None,
        },
        None => None,
    };
    let status = match OcTaskRunStatus::parse(status) {
        Some(x) => x,
        None => OcTaskRunStatus::Pending,
    };
    let blocked_by = decode_blocked_by(blocked_by);
    Some(OcTaskRunState {
        id,
        run_id,
        task_id,
        workspace_id,
        status,
        blocked_by,
        context_summary,
        started_at,
        completed_at,
        created_at,
    })
}

/// The hook used when orchestration is switched off: it never acts.
pub struct NoopOcHook;

impl NoopOcHook {
    /// What a finished coding agent means when orchestration is switched off: nothing.
    pub fn on_coding_agent_completed(&self, workspace_id: u128, success: bool) -> (a: HookAction)
        ensures
            a == HookAction::Skip,
    {
        HookAction::Skip
    }
}

} // verus!
