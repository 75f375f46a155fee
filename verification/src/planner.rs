//! The planner's own decisions: tasks from a plain prompt or from the model's answer,
//! and the plan's tasks in their run order.

use vstd::prelude::*;

use crate::cycle::{has_cycle, respects};
use crate::dependency::{
    declared_edges, in_batches, strictly_ascending, task_ids, DependencyError, PlanDependencyResolver,
    ResolvedDeps,
};
use crate::ids::{parse_uuid, uuid_from_text};
use crate::json::{decode_strings, stored_strings};
use crate::llm::LlmTask;
use crate::planner_types::{OcPlanTask, OcTaskComplexity};
use crate::text::{lines, push_str, split_lines, trim, trimmed, utf8_len_exceeds, views};

verus! {

/// A task proposed for a plan, before it is stored.
#[derive(Debug, Clone)]
pub struct TaskCandidate {
    pub title: String,
    pub description: String,
    pub complexity: OcTaskComplexity,
    pub prompt: Option<String>,
    pub depends_on: Vec<String>,
}

/// The planner's decisions.
pub struct OcPlanner;

/// `t` is the task of `tasks` with id `id`, placed at position `i` of the run order.
pub open spec fn placed_at(t: OcPlanTask, tasks: Seq<OcPlanTask>, id: u128, i: int) -> bool {
    &&& t.id == id
    &&& t.order_index == i as i64
    &&& exists|j: int| 0 <= j < tasks.len() && tasks[j].id == id && same_task_but_order(t, #[trigger] tasks[j])
}

/// The two tasks agree in everything but their `order_index`.
pub open spec fn same_task_but_order(a: OcPlanTask, b: OcPlanTask) -> bool {
    &&& a.id == b.id
    &&& a.plan_id == b.plan_id
    &&& a.issue_id == b.issue_id
    &&& a.title == b.title
    &&& a.description == b.description
    &&& a.prompt == b.prompt
    &&& a.estimated_complexity == b.estimated_complexity
    &&& a.depends_on == b.depends_on
    &&& a.created_at == b.created_at
}

/// The tasks of a new plan made from the candidates, in their order: task `i` gets the
/// id `task_ids[i]` and `i` as its `order_index`.
pub open spec fn planned_tasks(
    plan_id: u128,
    ids: Seq<u128>,
    candidates: Seq<TaskCandidate>,
    now: String,
) -> Seq<OcPlanTask> {
    Seq::new(
        candidates.len(),
        |i: int|
            OcPlanTask {
                id: ids[i],
                plan_id,
                issue_id: None,
                title: candidates[i].title,
                description: candidates[i].description,
                prompt: candidates[i].prompt,
                estimated_complexity: candidates[i].complexity,
                depends_on: candidates[i].depends_on,
                order_index: i as i64,
                created_at: now,
            },
    )
}

/// The lines of a prompt that hold more than whitespace, trimmed.
pub open spec fn prompt_titles(ls: Seq<Seq<char>>) -> Seq<Seq<char>>
    decreases ls.len(),
{
    if ls.len() == 0 {
        Seq::empty()
    } else if trim(ls.last()).len() > 0 {
        prompt_titles(ls.drop_last()).push(trim(ls.last()))
    } else {
        prompt_titles(ls.drop_last())
    }
}

/// The estimated complexity of a task from the UTF-8 length of its title:
/// over 80 bytes is high, over 40 medium, else low.
pub open spec fn complexity_of_title(title: Seq<char>) -> OcTaskComplexity {
    let n = vstd::utf8::encode_utf8(title).len();
    if n > 80 {
        OcTaskComplexity::High
    } else if n > 40 {
        OcTaskComplexity::Medium
    } else {
        OcTaskComplexity::Low
    }
}

/// The task that one line of a plain prompt becomes.
pub open spec fn is_fallback_task(c: TaskCandidate, title: Seq<char>) -> bool {
    &&& c.title@ == title
    &&& c.description@ == "Implement: "@ + title
    &&& c.complexity == complexity_of_title(title)
    &&& c.prompt is None
    &&& c.depends_on@.len() == 0
}

/// What a proposed task takes from the model's task.
pub open spec fn is_llm_candidate(c: TaskCandidate, t: LlmTask) -> bool {
    &&& c.title == t.title
    &&& c.description == t.description
    &&& c.prompt == t.prompt
    &&& c.depends_on == t.depends_on
    &&& c.complexity == match OcTaskComplexity::named(crate::text::lowercased(t.complexity@)) {
        Some(x) => x,
        None => OcTaskComplexity::Medium,
    }
}

/// A proposed task keeps the model's title, description, prompt and dependencies, and
/// the complexity that the model named, read without regard to case: `low`, `medium` and `high` give their own level, and only a text that names none
/// of them gives `Medium`.
pub proof fn lemma_candidate_keeps_named_complexity(c: TaskCandidate, t: LlmTask)
    requires
        is_llm_candidate(c, t),
    ensures
        c.title == t.title && c.description == t.description && c.prompt == t.prompt && c.depends_on
            == t.depends_on,
        crate::text::lowercased(t.complexity@) == "low"@ ==> c.complexity == OcTaskComplexity::Low,
        crate::text::lowercased(t.complexity@) == "medium"@ ==> c.complexity == OcTaskComplexity::Medium,
        crate::text::lowercased(t.complexity@) == "high"@ ==> c.complexity == OcTaskComplexity::High,
        crate::text::lowercased(t.complexity@) != "low"@ && crate::text::lowercased(t.complexity@) != "medium"@
            && crate::text::lowercased(t.complexity@) != "high"@ ==> c.complexity == OcTaskComplexity::Medium,
        c.complexity.name() == crate::text::lowercased(t.complexity@) || c.complexity == OcTaskComplexity::Medium,
{
    reveal_strlit("low");
    reveal_strlit("medium");
    reveal_strlit("high");
    assert("low"@.len() == 3 && "medium"@.len() == 6 && "high"@.len() == 4);
}

/// A task made from a line of a plain prompt is titled by the line, asks to implement it,
/// has no prompt of its own and no dependency, and its complexity grows with the title's
/// UTF-8 length: low up to 40 bytes, medium up to 80, high beyond.
pub proof fn lemma_fallback_task_from_line(c: TaskCandidate, title: Seq<char>)
    requires
        is_fallback_task(c, title),
    ensures
        c.title@ == title,
        c.description@ == "Implement: "@ + title,
        c.prompt is None,
        c.depends_on@.len() == 0,
        vstd::utf8::encode_utf8(title).len() <= 40 ==> c.complexity == OcTaskComplexity::Low,
        40 < vstd::utf8::encode_utf8(title).len() <= 80 ==> c.complexity == OcTaskComplexity::Medium,
        80 < vstd::utf8::encode_utf8(title).len() ==> c.complexity == OcTaskComplexity::High,
{
}

/// The titles taken from a plain prompt are its lines trimmed, leaving out those that
/// hold only whitespace, in their order.
pub proof fn lemma_prompt_titles_are_nonblank_lines(ls: Seq<Seq<char>>)
    ensures
        prompt_titles(ls) == ls.map_values(|l: Seq<char>| trim(l)).filter(|t: Seq<char>| t.len() > 0),
    decreases ls.len(),
{
    reveal(Seq::filter);
    if ls.len() > 0 {
        lemma_prompt_titles_are_nonblank_lines(ls.drop_last());
        assert(ls.map_values(|l: Seq<char>| trim(l)).drop_last() =~= ls.drop_last().map_values(
            |l: Seq<char>| trim(l),
        ));
    }
}

impl OcPlanner {
    /// Without a model: every line of the prompt that holds more than whitespace becomes a task.
    pub fn parse_tasks_fallback(prompt: &str) -> (r: Vec<TaskCandidate>)
        ensures
            r@.len() == prompt_titles(lines(prompt@)).len(),
            forall|i: int| 0 <= i < r@.len() ==> is_fallback_task(#[trigger] r@[i], prompt_titles(lines(prompt@))[i]),
    {
        let ls = split_lines(prompt);
        let ghost lv = views(ls@);
        let mut out: Vec<TaskCandidate> = Vec::new();
        for i in 0..ls.len()
            invariant
                lv == views(ls@),
                lv == lines(prompt@),
                out@.len() == prompt_titles(lv.take(i as int)).len(),
                forall|j: int| 0 <= j < out@.len() ==> is_fallback_task(#[trigger] out@[j], prompt_titles(lv.take(i as int))[j]),
        {
            let title = trimmed(ls[i].as_str());
            proof {
                assert(lv.take(i + 1).drop_last() =~= lv.take(i as int));
                assert(lv.take(i + 1).last() == ls@[i as int]@);
            }
            let ghost prev = prompt_titles(lv.take(i as int));
            let ghost before = out@;
            if !title.as_str().is_empty() {
                assert(prompt_titles(lv.take(i + 1)) == prev.push(title@));
                let complexity = if utf8_len_exceeds(title.as_str(), 80) {
                    OcTaskComplexity::High
                } else if utf8_len_exceeds(title.as_str(), 40) {
                    OcTaskComplexity::Medium
                } else {
                    OcTaskComplexity::Low
                };
                let mut description = String::new();
                push_str(&mut description, "Implement: ");
                push_str(&mut description, title.as_str());
                assert(description@ =~= "Implement: "@ + title@);
                out.push(TaskCandidate { title, description, complexity, prompt: None, depends_on: Vec::new() });
                assert forall|j: int| 0 <= j < out@.len() implies is_fallback_task(#[trigger] out@[j], prompt_titles(lv.take(i + 1))[j]) by {
                    if j < before.len() {
                        assert(out@[j] == before[j]);
                    }
                }
            } else {
                assert(prompt_titles(lv.take(i + 1)) == prev);
            }
        }
        assert(lv.take(ls@.len() as int) =~= lv);
        out
    }

    /// The fallback tasks as `(title, description, complexity)`.
    pub fn parse_tasks_from_prompt(prompt: &str) -> (r: Vec<(String, String, OcTaskComplexity)>)
        ensures
            r@.len() == prompt_titles(lines(prompt@)).len(),
            forall|i: int| 0 <= i < r@.len() ==> {
                &&& (#[trigger] r@[i]).0@ == prompt_titles(lines(prompt@))[i]
                &&& r@[i].1@ == "Implement: "@ + prompt_titles(lines(prompt@))[i]
                &&& r@[i].2 == complexity_of_title(prompt_titles(lines(prompt@))[i])
            },
    {
        let mut cands = Self::parse_tasks_fallback(prompt);
        let ghost orig = cands@;
        let mut out: Vec<(String, String, OcTaskComplexity)> = Vec::new();
        while cands.len() > 0
            invariant
                out@.len() + cands@.len() == orig.len(),
                cands@ == orig.subrange(out@.len() as int, orig.len() as int),
                forall|j: int| 0 <= j < out@.len() ==> {
                    &&& (#[trigger] out@[j]).0 == orig[j].title
                    &&& out@[j].1 == orig[j].description
                    &&& out@[j].2 == orig[j].complexity
                },
            decreases cands@.len(),
        {
            let c = cands.remove(0);
            out.push((c.title, c.description, c.complexity));
            assert(cands@ =~= orig.subrange(out@.len() as int, orig.len() as int));
        }
        out
    }

    /// The model's tasks as candidates, in the model's order.
    pub fn candidates_from_llm(tasks: Vec<LlmTask>) -> (r: Vec<TaskCandidate>)
        ensures
            r@.len() == tasks@.len(),
            forall|i: int| 0 <= i < r@.len() ==> is_llm_candidate(#[trigger] r@[i], tasks@[i]),
    {
        let ghost orig = tasks@;
        let mut rest = tasks;
        let mut out: Vec<TaskCandidate> = Vec::new();
        while rest.len() > 0
            invariant
                out@.len() + rest@.len() == orig.len(),
                rest@ == orig.subrange(out@.len() as int, orig.len() as int),
                forall|j: int| 0 <= j < out@.len() ==> is_llm_candidate(#[trigger] out@[j], orig[j]),
            decreases rest@.len(),
        {
            let t = rest.remove(0);
            let complexity = t.to_complexity();
            out.push(TaskCandidate {
                title: t.title,
                description: t.description,
                complexity,
                prompt: t.prompt,
                depends_on: t.depends_on,
            });
            assert(rest@ =~= orig.subrange(out@.len() as int, orig.len() as int));
        }
        out
    }

    /// The plan's tasks from its candidates, with the given ids, in candidate order.
    pub fn plan_tasks(plan_id: u128, task_ids: &Vec<u128>, candidates: Vec<TaskCandidate>, now: String) -> (r: Vec<
        OcPlanTask,
    >)
        requires
            task_ids@.len() == candidates@.len(),
        ensures
            r@.len() == candidates@.len(),
            forall|i: int|
                0 <= i < r@.len() ==> {
                    &&& (#[trigger] r@[i]).id == task_ids@[i]
                    &&& r@[i].plan_id == plan_id
                    &&& r@[i].issue_id is None
                    &&& r@[i].title == candidates@[i].title
                    &&& r@[i].description == candidates@[i].description
                    &&& r@[i].prompt == candidates@[i].prompt
                    &&& r@[i].estimated_complexity == candidates@[i].complexity
                    &&& r@[i].depends_on == candidates@[i].depends_on
                    &&& r@[i].order_index == i as i64
                    &&& r@[i].created_at == now
                },
    {
        let ghost orig = candidates@;
        let mut rest = candidates;
        let mut out: Vec<OcPlanTask> = Vec::new();
        while rest.len() > 0
            invariant
                task_ids@.len() == orig.len(),
                out@.len() + rest@.len() == orig.len(),
                rest@ == orig.subrange(out@.len() as int, orig.len() as int),
                forall|i: int|
                    0 <= i < out@.len() ==> {
                        &&& (#[trigger] out@[i]).id == task_ids@[i]
                        &&& out@[i].plan_id == plan_id
                        &&& out@[i].issue_id is None
                        &&& out@[i].title == orig[i].title
                        &&& out@[i].description == orig[i].description
                        &&& out@[i].prompt == orig[i].prompt
                        &&& out@[i].estimated_complexity == orig[i].complexity
                        &&& out@[i].depends_on == orig[i].depends_on
                        &&& out@[i].order_index == i as i64
                        &&& out@[i].created_at == now
                    },
            decreases rest@.len(),
        {
            let c = rest.remove(0);
            let index = out.len();
            out.push(OcPlanTask {
                id: task_ids[index],
                plan_id,
                issue_id: None,
                title: c.title,
                description: c.description,
                prompt: c.prompt,
                estimated_complexity: c.complexity,
                depends_on: c.depends_on,
                order_index: index as i64,
                created_at: now.clone(),
            });
            assert(rest@ =~= orig.subrange(out@.len() as int, orig.len() as int));
        }
        out
    }

    /// The tasks in the resolved run order, each with its position there as `order_index`;
    /// `ordered_ids` lists every task id once (as the resolver's order does).
    pub fn order_tasks(tasks: Vec<OcPlanTask>, ordered_ids: &Vec<u128>) -> (r: Vec<OcPlanTask>)
        requires
            crate::dependency::task_ids(tasks@).no_duplicates(),
            ordered_ids@.no_duplicates(),
            ordered_ids@.len() == tasks@.len(),
            ordered_ids@.to_set() == crate::dependency::task_ids(tasks@).to_set(),
        ensures
            r@.len() == tasks@.len(),
            forall|i: int| 0 <= i < r@.len() ==> placed_at(#[trigger] r@[i], tasks@, ordered_ids@[i], i),
    {
        let ghost orig = tasks@;
        let n = tasks.len();
        let mut slots: Vec<Option<OcPlanTask>> = Vec::new();
        let mut rest = tasks;
        while rest.len() > 0
            invariant
                slots@.len() + rest@.len() == orig.len(),
                rest@ == orig.subrange(slots@.len() as int, orig.len() as int),
                forall|j: int| 0 <= j < slots@.len() ==> slots@[j] == Some(orig[j]),
            decreases rest@.len(),
        {
            let t = rest.remove(0);
            slots.push(Some(t));
            assert(rest@ =~= orig.subrange(slots@.len() as int, orig.len() as int));
        }
        let mut out: Vec<OcPlanTask> = Vec::new();
        assert(ordered_ids@.take(0) =~= Seq::<u128>::empty());
        for i in 0..n
            invariant
                n == orig.len(),
                n == ordered_ids@.len(),
                slots@.len() == n,
                crate::dependency::task_ids(orig).no_duplicates(),
                ordered_ids@.no_duplicates(),
                ordered_ids@.to_set() == crate::dependency::task_ids(orig).to_set(),
                out@.len() == i,
                forall|j: int|
                    0 <= j < n ==> (#[trigger] slots@[j] == if ordered_ids@.take(i as int).contains(orig[j].id) {
                        None
                    } else {
                        Some(orig[j])
                    }),
                forall|k: int| 0 <= k < i ==> placed_at(#[trigger] out@[k], orig, ordered_ids@[k], k),
        {
            let want = ordered_ids[i];
            proof {
                assert(ordered_ids@.to_set().contains(want));
                assert(crate::dependency::task_ids(orig).to_set().contains(want));
            }
            let ghost jw = choose|j: int| 0 <= j < n && orig[j].id == want;
            let mut found: Option<OcPlanTask> = None;
            let mut j: usize = 0;
            while j < n
                invariant
                    n == orig.len(),
                    slots@.len() == n,
                    0 <= jw < n,
                    orig[jw].id == want,
                    crate::dependency::task_ids(orig).no_duplicates(),
                    want == ordered_ids@[i as int],
                    i < ordered_ids@.len(),
                    ordered_ids@.no_duplicates(),
                    j <= n,
                    found is None ==> j <= jw,
                    found matches Some(t) ==> t == orig[jw],
                    forall|q: int|
                        0 <= q < n ==> (#[trigger] slots@[q] == if ordered_ids@.take(i as int).contains(orig[q].id)
                            || (q == jw && found is Some) {
                            None
                        } else {
                            Some(orig[q])
                        }),
                decreases n - j,
            {
                if found.is_none() {
                    let is_it = match &slots[j] {
                        Some(t) => t.id == want,
                        None => false,
                    };
                    if is_it {
                        proof {
                            assert(!ordered_ids@.take(i as int).contains(want)) by {
                                if ordered_ids@.take(i as int).contains(want) {
                                    let q = choose|q: int| 0 <= q < i && ordered_ids@.take(i as int)[q] == want;
                                    assert(ordered_ids@[q] == ordered_ids@[i as int]);
                                }
                            }
                            assert(crate::dependency::task_ids(orig)[j as int] == crate::dependency::task_ids(orig)[jw]);
                        }
                        let taken = slots.remove(j);
                        slots.insert(j, None);
                        found = taken;
                    } else {
                        proof {
                            if j as int == jw {
                                assert(!ordered_ids@.take(i as int).contains(want)) by {
                                    if ordered_ids@.take(i as int).contains(want) {
                                        let q = choose|q: int| 0 <= q < i && ordered_ids@.take(i as int)[q] == want;
                                        assert(ordered_ids@[q] == ordered_ids@[i as int]);
                                    }
                                }
                            }
                        }
                    }
                }
                j = j + 1;
            }
            let mut t = match found {
                Some(t) => t,
                None => {
                    assert(false);
                    return out;
                },
            };
            t.order_index = i as i64;
            out.push(t);
            proof {
                assert(ordered_ids@.take(i + 1) =~= ordered_ids@.take(i as int).push(want));
                assert forall|q: int| 0 <= q < n implies (#[trigger] slots@[q] == if ordered_ids@.take(i + 1).contains(orig[q].id) {
                    None
                } else {
                    Some(orig[q])
                }) by {
                    if q == jw {
                        assert(ordered_ids@.take(i + 1)[i as int] == want);
                        assert(ordered_ids@.take(i + 1).contains(want));
                    } else {
                        assert(orig[q].id != want) by {
                            assert(crate::dependency::task_ids(orig)[q] != crate::dependency::task_ids(orig)[jw]);
                        }
                    }
                }
                assert(same_task_but_order(out@[i as int], orig[jw]));
                assert(placed_at(out@[i as int], orig, ordered_ids@[i as int], i as int));
                assert forall|k: int| 0 <= k < i + 1 implies placed_at(#[trigger] out@[k], orig, ordered_ids@[k], k) by {
                    if k < i {
                        assert(out@[k] == out@.drop_last()[k]);
                    }
                }
            }
        }
        out
    }

    /// The tasks of a new plan in their run order, with the resolution of their
    /// dependencies: when the dependencies resolve, task `i` of the result is the task with
    /// the `i`-th resolved id and has `i` as its `order_index`; when they do not, the tasks
    /// stay in the candidates' order.
    pub fn build_plan_tasks(
        plan_id: u128,
        task_ids_in: &Vec<u128>,
        candidates: Vec<TaskCandidate>,
        now: String,
    ) -> (r: (Vec<OcPlanTask>, Result<ResolvedDeps, DependencyError>))
        requires
            task_ids_in@.len() == candidates@.len(),
        ensures
            ({
                let built = planned_tasks(plan_id, task_ids_in@, candidates@, now);
                &&& r.1 is Ok <==> (task_ids(built).no_duplicates() && !has_cycle(
                    declared_edges(built),
                ))
                &&& r.1 matches Ok(res) ==> {
                    &&& strictly_ascending(res.edges@)
                    &&& res.edges@.to_set() == declared_edges(built)
                    &&& res.ordered_task_ids@.len() == built.len()
                    &&& res.ordered_task_ids@.to_set() == task_ids(built).to_set()
                    &&& respects(declared_edges(built), res.ordered_task_ids@)
                    &&& in_batches(declared_edges(built), built, res.ordered_task_ids@)
                    &&& r.0@.len() == built.len()
                    &&& forall|i: int|
                        0 <= i < r.0@.len() ==> placed_at(
                            #[trigger] r.0@[i],
                            built,
                            res.ordered_task_ids@[i],
                            i,
                        )
                }
                &&& r.1 is Err ==> r.0@ == built
            }),
    {
        let ghost cands = candidates@;
        let tasks = Self::plan_tasks(plan_id, task_ids_in, candidates, now);
        let ghost built = planned_tasks(plan_id, task_ids_in@, cands, now);
        assert(tasks@ =~= built) by {
            assert forall|i: int| 0 <= i < tasks@.len() implies tasks@[i] == built[i] by {
                assert(tasks@[i].id == built[i].id);
            }
        }
        let resolved = PlanDependencyResolver::resolve(tasks.as_slice());
        match resolved {
            Ok(res) => {
                proof {
                    let ids = task_ids(tasks@);
                    let ord = res.ordered_task_ids@;
                    ids.unique_seq_to_set();
                    assert(ids.len() == tasks@.len());
                    ord.lemma_no_dup_set_cardinality();
                }
                let ordered = Self::order_tasks(tasks, &res.ordered_task_ids);
                (ordered, Ok(res))
            },
            Err(e) => (tasks, Err(e)),
        }
    }

    /// A stored task of a plan, read from the texts of its row: `None` when its id or its
    /// plan's id is not a UUID. An unreadable issue id reads as none, an unknown
    /// complexity as `Medium`, and `depends_on` as the strings of its JSON list (none when
    /// the text is missing or not such a list).
    pub fn plan_task_from_row(
        id: &str,
        plan_id: &str,
        issue_id: Option<&str>,
        title: String,
        description: String,
        prompt: Option<String>,
        complexity: &str,
        depends_on: Option<&str>,
        order_index: i64,
        created_at: String,
    ) -> (r: Option<OcPlanTask>)
        ensures
            r is Some <==> (uuid_from_text(id@) is Some && uuid_from_text(plan_id@) is Some),
            r matches Some(t) ==> {
                &&& Some(t.id) == uuid_from_text(id@)
                &&& Some(t.plan_id) == uuid_from_text(plan_id@)
                &&& t.issue_id == match issue_id {
                    Some(x) => uuid_from_text(x@),
                    None => None,
                }
                &&& t.title == title
                &&& t.description == description
                &&& t.prompt == prompt
                &&& t.estimated_complexity == match OcTaskComplexity::named(complexity@) {
                    Some(c) => c,
                    None => OcTaskComplexity::Medium,
                }
                &&& views(t.depends_on@) == stored_strings(
                    match depends_on {
                        Some(d) => Some(d@),
                        None => None,
                    },
                )
                &&& t.order_index == order_index
                &&& t.created_at == created_at
            },
    {
        let id = match parse_uuid(id) {
            Ok(v) => v,
            Err(_) => return None,
        };
        let plan_id = match parse_uuid(plan_id) {
            Ok(v) => v,
            Err(_) => return None,
        };
        let issue_id = match issue_id {
            Some(x) => match parse_uuid(x) {
                Ok(v) => Some(v),
                Err(_) => None,
            },
            None => None,
        };
        let estimated_complexity = match OcTaskComplexity::parse(complexity) {
            Some(c) => c,
            None => OcTaskComplexity::Medium,
        };
        Some(OcPlanTask {
            id,
            plan_id,
            issue_id,
            title,
            description,
            prompt,
            estimated_complexity,
            depends_on: decode_strings(depends_on),
            order_index,
            created_at,
        })
    }
}

} // verus!
