use vstd::prelude::*;
use crate::cursor::SlotCursor;
use crate::graph::{
    all_recorded, graph_views, jobs_wf, lemma_recorded_step, lemma_unbound_before_update, unbound,
    unbound_before, BoundTask, ExecutionGraph, GraphView, JobStatus, PlanHandle,
};
use crate::slots::{bias_assignment, occurrences, round_robin_assignment, AvailableTaskSlots};
use crate::work::{
    bound_count, bound_jobs, bound_tasks, eligible, executors_of, job_work, lemma_stage_work_len,
    lemma_work_position, round_outcome, round_work, same_but_job, same_but_stage, spared,
    work_position,
};

verus! {

/// Whether the policy flags a plan as one to skip.
pub fn is_skipped(skip: &Vec<PlanHandle>, plan: PlanHandle) -> (b: bool)
    ensures
        b == skip@.contains(plan),
{
    let mut i: usize = 0;
    while i < skip.len()
        invariant
            i <= skip.len(),
            forall|j: int| 0 <= j < i ==> skip@[j] != plan,
        decreases skip.len() - i,
    {
        if skip[i] == plan {
            return true;
        }
        i = i + 1;
    }
    false
}

/// The jobs and the tasks are what binding the first `cursor.taken()` cells of
/// the round's work gives.
spec fn in_step(
    jobs0: Seq<GraphView>,
    skip: Seq<PlanHandle>,
    cursor: SlotCursor,
    now: u64,
    jobs: Seq<GraphView>,
    tasks: Seq<BoundTask>,
) -> bool {
    let work = round_work(jobs0, skip, jobs0.len() as int);
    let executors = executors_of(cursor.initial(), cursor.assignment());
    &&& jobs.len() == jobs0.len()
    &&& jobs_wf(jobs)
    &&& jobs == bound_jobs(jobs0, work, executors, now, cursor.taken())
    &&& tasks == bound_tasks(jobs0, work, executors, now, false, cursor.taken())
    &&& all_recorded(jobs0, jobs, tasks, now)
    &&& spared(jobs0, jobs, skip)
}

/// Binds the empty cells of one stage in the order of its partitions, each to
/// the executor whose slot the cursor takes next. Says whether the slots ran
/// out before the cells did.
fn bind_stage(
    jobs: &mut Vec<ExecutionGraph>,
    j: usize,
    s: usize,
    slots: &mut Vec<AvailableTaskSlots>,
    cursor: &mut SlotCursor,
    skip: &Vec<PlanHandle>,
    tasks: &mut Vec<BoundTask>,
    now: u64,
    Ghost(jobs0): Ghost<Seq<GraphView>>,
) -> (exhausted: bool)
    requires
        j < old(jobs)@.len(),
        old(cursor).inv(old(slots)@),
        in_step(jobs0, skip@, *old(cursor), now, graph_views(old(jobs)@), old(tasks)@),
        jobs0[j as int].status == JobStatus::Running,
        s < jobs0[j as int].stages.len(),
        eligible(jobs0[j as int].stages[s as int], skip@),
        graph_views(old(jobs)@)[j as int].stages.len() == jobs0[j as int].stages.len(),
        graph_views(old(jobs)@)[j as int].stages[s as int] == jobs0[j as int].stages[s as int],
        old(cursor).taken() == work_position(jobs0, skip@, j as int, s as int, 0),
    ensures
        final(cursor).inv(final(slots)@),
        final(cursor).initial() == old(cursor).initial(),
        final(cursor).round_robin() == old(cursor).round_robin(),
        in_step(jobs0, skip@, *final(cursor), now, graph_views(final(jobs)@), final(tasks)@),
        same_but_job(graph_views(old(jobs)@), graph_views(final(jobs)@), j as int),
        same_but_stage(graph_views(old(jobs)@)[j as int], graph_views(final(jobs)@)[j as int], s as int),
        graph_views(final(jobs)@)[j as int].stages[s as int].stage_id == jobs0[j as int].stages[s as int].stage_id,
        exhausted ==> final(cursor).taken() == final(cursor).assignment().len() && final(cursor).taken()
            <= round_work(jobs0, skip@, jobs0.len() as int).len(),
        !exhausted ==> final(cursor).taken() == work_position(
            jobs0,
            skip@,
            j as int,
            s as int,
            jobs0[j as int].stages[s as int].task_infos.len() as int,
        ) && unbound(graph_views(final(jobs)@)[j as int].stages[s as int].task_infos) == 0,
{
    let ghost cells0 = jobs0[j as int].stages[s as int].task_infos;
    let ghost work = round_work(jobs0, skip@, jobs0.len() as int);
    let ghost executors = executors_of(cursor.initial(), cursor.assignment());
    let partitions = jobs[j].stage(s).partitions();
    let mut p: usize = 0;
    while p < partitions
        invariant
            p <= partitions,
            partitions == cells0.len(),
            j < jobs@.len(),
            s < jobs0[j as int].stages.len(),
            jobs0[j as int].status == JobStatus::Running,
            eligible(jobs0[j as int].stages[s as int], skip@),
            cells0 == jobs0[j as int].stages[s as int].task_infos,
            work == round_work(jobs0, skip@, jobs0.len() as int),
            executors == executors_of(cursor.initial(), cursor.assignment()),
            cursor.inv(slots@),
            cursor.initial() == old(cursor).initial(),
            cursor.round_robin() == old(cursor).round_robin(),
            in_step(jobs0, skip@, *cursor, now, graph_views(jobs@), tasks@),
            same_but_job(graph_views(old(jobs)@), graph_views(jobs@), j as int),
            same_but_stage(graph_views(old(jobs)@)[j as int], graph_views(jobs@)[j as int], s as int),
            graph_views(jobs@)[j as int].stages[s as int].stage_id == jobs0[j as int].stages[s as int].stage_id,
            graph_views(jobs@)[j as int].stages.len() == jobs0[j as int].stages.len(),
            graph_views(jobs@)[j as int].stages[s as int].task_infos.len() == cells0.len(),
            forall|q: int|
                p <= q < cells0.len() ==> graph_views(jobs@)[j as int].stages[s as int].task_infos[q]
                    == cells0[q],
            unbound_before(graph_views(jobs@)[j as int].stages[s as int].task_infos, p as int) == 0,
            cursor.taken() == work_position(jobs0, skip@, j as int, s as int, p as int),
        decreases partitions - p,
    {
        let ghost before = graph_views(jobs@);
        let ghost stage_before = before[j as int].stages[s as int];
        proof {
            lemma_work_position(jobs0, skip@, j as int, s as int, p as int);
        }
        if jobs[j].stage(s).is_unbound(p) {
            let ghost k = cursor.taken();
            match cursor.take(slots) {
                None => {
                    return true;
                },
                Some(e) => {
                    proof {
                        cursor.lemma_slots(slots@);
                    }
                    let executor_id = slots[e].executor_id.clone();
                    proof {
                        lemma_recorded_step(
                            jobs0,
                            before,
                            tasks@,
                            now,
                            j as int,
                            s as int,
                            p as int,
                            executor_id,
                            false,
                        );
                    }
                    let graph = &mut jobs[j];
                    let task = graph.bind_task(s, p, &executor_id, false, now);
                    let ghost after = graph_views(jobs@);
                    proof {
                        assert(after =~= before.update(
                            j as int,
                            before[j as int].bound(s as int, p as int, executor_id, now),
                        ));
                        lemma_unbound_before_update(
                            stage_before.task_infos,
                            p as int,
                            Some(stage_before.info_for(executor_id, now)),
                            p as int,
                        );
                    }
                    tasks.push((executor_id, task));
                    assert(tasks@ =~= bound_tasks(jobs0, work, executors, now, false, k + 1));
                },
            }
        }
        p = p + 1;
    }
    false
}

/// Binds the empty cells of one running job, stage by stage, until the job
/// has no stage left to hand out or the slots run out; says whether they did.
fn bind_job(
    jobs: &mut Vec<ExecutionGraph>,
    j: usize,
    slots: &mut Vec<AvailableTaskSlots>,
    cursor: &mut SlotCursor,
    skip: &Vec<PlanHandle>,
    tasks: &mut Vec<BoundTask>,
    now: u64,
    Ghost(jobs0): Ghost<Seq<GraphView>>,
) -> (exhausted: bool)
    requires
        j < old(jobs)@.len(),
        old(cursor).inv(old(slots)@),
        in_step(jobs0, skip@, *old(cursor), now, graph_views(old(jobs)@), old(tasks)@),
        jobs0[j as int].status == JobStatus::Running,
        jobs0[j as int].wf(),
        graph_views(old(jobs)@)[j as int] == jobs0[j as int],
        old(cursor).taken() == round_work(jobs0, skip@, j as int).len(),
    ensures
        final(cursor).inv(final(slots)@),
        final(cursor).initial() == old(cursor).initial(),
        final(cursor).round_robin() == old(cursor).round_robin(),
        in_step(jobs0, skip@, *final(cursor), now, graph_views(final(jobs)@), final(tasks)@),
        same_but_job(graph_views(old(jobs)@), graph_views(final(jobs)@), j as int),
        exhausted ==> final(cursor).taken() == final(cursor).assignment().len() && final(cursor).taken()
            <= round_work(jobs0, skip@, jobs0.len() as int).len(),
        !exhausted ==> final(cursor).taken() == round_work(jobs0, skip@, j as int + 1).len(),
{
    let ghost graph0 = jobs0[j as int];
    let mut black_list: Vec<usize> = Vec::new();
    let ghost mut lo: int = 0;
    loop
        invariant
            j < jobs@.len(),
            0 <= lo <= graph0.stages.len(),
            graph0 == jobs0[j as int],
            graph0.status == JobStatus::Running,
            graph0.wf(),
            cursor.inv(slots@),
            cursor.initial() == old(cursor).initial(),
            cursor.round_robin() == old(cursor).round_robin(),
            in_step(jobs0, skip@, *cursor, now, graph_views(jobs@), tasks@),
            same_but_job(graph_views(old(jobs)@), graph_views(jobs@), j as int),
            graph_views(jobs@)[j as int].stages.len() == graph0.stages.len(),
            forall|t: int|
                lo <= t < graph0.stages.len() ==> (#[trigger] graph_views(jobs@)[j as int].stages[t])
                    == graph0.stages[t],
            forall|t: int|
                0 <= t < graph0.stages.len() ==> (#[trigger] graph_views(jobs@)[j as int].stages[t]).stage_id
                    == graph0.stages[t].stage_id,
            forall|t: int|
                lo <= t < graph0.stages.len() ==> !black_list@.contains(
                    (#[trigger] graph0.stages[t]).stage_id,
                ),
            forall|t: int|
                0 <= t < lo ==> !(#[trigger] graph_views(jobs@)[j as int].stages[t]).available(
                    black_list@,
                ),
            cursor.taken() == round_work(jobs0, skip@, j as int).len() + job_work(
                graph0,
                skip@,
                j as int,
                lo,
            ).len(),
        decreases graph0.stages.len() - lo,
    {
        let ghost current = graph_views(jobs@)[j as int];
        let found = jobs[j].fetch_running_stage(&black_list);
        let s = match found {
            Some(s) => s,
            None => {
                proof {
                    assert forall|t: int| lo <= t < graph0.stages.len() implies unbound(
                        (#[trigger] graph0.stages[t]).task_infos,
                    ) == 0 || !graph0.stages[t].running by {
                        assert(!current.stages[t].available(black_list@));
                    }
                    lemma_no_work_between(graph0, skip@, j as int, lo, graph0.stages.len() as int);
                }
                return false;
            },
        };
        proof {
            assert forall|t: int| lo <= t < s implies unbound((#[trigger] graph0.stages[t]).task_infos)
                == 0 || !graph0.stages[t].running by {
                assert(!current.stages[t].available(black_list@));
            }
            lemma_no_work_between(graph0, skip@, j as int, lo, s as int);
        }
        let stage = jobs[j].stage(s);
        let stage_id = stage.stage_id();
        if is_skipped(skip, stage.plan()) {
            let ghost listed = black_list@;
            black_list.push(stage_id);
            proof {
                assert forall|t: int| 0 <= t <= s implies !(#[trigger] graph_views(
                    jobs@,
                )[j as int].stages[t]).available(black_list@) by {
                    if t == s {
                        assert(black_list@[listed.len() as int] == stage_id);
                    } else {
                        if listed.contains(current.stages[t].stage_id) {
                            let i = choose|i: int|
                                0 <= i < listed.len() && listed[i] == current.stages[t].stage_id;
                            assert(black_list@[i] == current.stages[t].stage_id);
                        }
                    }
                }
                lo = s + 1;
            }
        } else {
            let exhausted = bind_stage(jobs, j, s, slots, cursor, skip, tasks, now, Ghost(jobs0));
            if exhausted {
                return true;
            }
            proof {
                lo = s + 1;
            }
        }
    }
}

/// Stages that do not run or have no empty cell add nothing to a job's work.
proof fn lemma_no_work_between(graph: GraphView, skip: Seq<PlanHandle>, job: int, from: int, to: int)
    requires
        0 <= from <= to <= graph.stages.len(),
        forall|t: int|
            from <= t < to ==> unbound((#[trigger] graph.stages[t]).task_infos) == 0
                || !graph.stages[t].running,
    ensures
        job_work(graph, skip, job, to) == job_work(graph, skip, job, from),
    decreases to - from,
{
    if from < to {
        lemma_no_work_between(graph, skip, job, from, to - 1);
        let stage = graph.stages[to - 1];
        lemma_stage_work_len(stage.task_infos, job, to - 1, stage.task_infos.len() as int);
    }
}

/// One round over the jobs, in the order of the list: binds the empty cells
/// of the running jobs, each to the executor whose slot the cursor takes next,
/// until the cells or the slots run out.
fn bind_round(
    slots: &mut Vec<AvailableTaskSlots>,
    jobs: &mut Vec<ExecutionGraph>,
    skip: &Vec<PlanHandle>,
    now: u64,
    round_robin: bool,
) -> (tasks: Vec<BoundTask>)
    requires
        jobs_wf(graph_views(old(jobs)@)),
    ensures
        jobs_wf(graph_views(final(jobs)@)),
        all_recorded(graph_views(old(jobs)@), graph_views(final(jobs)@), tasks@, now),
        spared(graph_views(old(jobs)@), graph_views(final(jobs)@), skip@),
        ({
            let outcome = round_outcome(
                graph_views(old(jobs)@),
                skip@,
                old(slots)@,
                if round_robin {
                    round_robin_assignment(old(slots)@)
                } else {
                    bias_assignment(old(slots)@)
                },
                now,
            );
            &&& graph_views(final(jobs)@) == outcome.jobs
            &&& tasks@ == outcome.tasks
            &&& final(slots)@ == outcome.slots
        }),
        forall|e: int|
            0 <= e < old(slots)@.len() ==> (#[trigger] final(slots)@[e]).slots + occurrences(
                if round_robin {
                    round_robin_assignment(old(slots)@)
                } else {
                    bias_assignment(old(slots)@)
                },
                bound_count(graph_views(old(jobs)@), skip@, if round_robin {
                    round_robin_assignment(old(slots)@)
                } else {
                    bias_assignment(old(slots)@)
                }),
                e,
            ) == old(slots)@[e].slots,
{
    let ghost jobs0 = graph_views(jobs@);
    let mut cursor = SlotCursor::new(slots, round_robin);
    let mut tasks: Vec<BoundTask> = Vec::new();
    assert(tasks@ =~= bound_tasks(
        jobs0,
        round_work(jobs0, skip@, jobs0.len() as int),
        executors_of(cursor.initial(), cursor.assignment()),
        now,
        false,
        0,
    ));
    let mut j: usize = 0;
    while j < jobs.len()
        invariant
            j <= jobs@.len(),
            jobs0 == graph_views(old(jobs)@),
            jobs_wf(jobs0),
            cursor.inv(slots@),
            cursor.initial() == old(slots)@,
            cursor.round_robin() == round_robin,
            in_step(jobs0, skip@, cursor, now, graph_views(jobs@), tasks@),
            forall|i: int| j <= i < jobs0.len() ==> (#[trigger] graph_views(jobs@)[i]) == jobs0[i],
            cursor.taken() == round_work(jobs0, skip@, j as int).len(),
        decreases jobs@.len() - j,
    {
        assert(jobs@[j as int]@ == graph_views(jobs@)[j as int]);
        if jobs[j].status() == JobStatus::Running {
            let exhausted = bind_job(jobs, j, slots, &mut cursor, skip, &mut tasks, now, Ghost(jobs0));
            if exhausted {
                proof {
                    cursor.lemma_slots(slots@);
                }
                return tasks;
            }
        }
        j = j + 1;
    }
    proof {
        cursor.lemma_slots(slots@);
    }
    tasks
}

/// Binds runnable tasks to executors by bias: the executor with the most free
/// slots is filled first, then the next. `slots` is the snapshot of free
/// slots and is left holding what the round did not use; `skip` lists the
/// plans whose stages the round leaves alone; `now` is the time written into
/// the task table.
pub fn bind_task_bias(
    slots: &mut Vec<AvailableTaskSlots>,
    active_jobs: &mut Vec<ExecutionGraph>,
    skip: &Vec<PlanHandle>,
    now: u64,
) -> (tasks: Vec<BoundTask>)
    requires
        jobs_wf(graph_views(old(active_jobs)@)),
    ensures
        jobs_wf(graph_views(final(active_jobs)@)),
        all_recorded(
            graph_views(old(active_jobs)@),
            graph_views(final(active_jobs)@),
            tasks@,
            now,
        ),
        spared(graph_views(old(active_jobs)@), graph_views(final(active_jobs)@), skip@),
        ({
            let outcome = round_outcome(
                graph_views(old(active_jobs)@),
                skip@,
                old(slots)@,
                bias_assignment(old(slots)@),
                now,
            );
            &&& graph_views(final(active_jobs)@) == outcome.jobs
            &&& tasks@ == outcome.tasks
            &&& final(slots)@ == outcome.slots
        }),
        forall|e: int|
            0 <= e < old(slots)@.len() ==> (#[trigger] final(slots)@[e]).slots + occurrences(
                bias_assignment(old(slots)@),
                bound_count(graph_views(old(active_jobs)@), skip@, bias_assignment(old(slots)@)),
                e,
            ) == old(slots)@[e].slots,
{
    bind_round(slots, active_jobs, skip, now, false)
}

/// Binds runnable tasks to executors round-robin: one task for each executor
/// that has a free slot, by falling slot count, and again. The parameters are
/// those of `bind_task_bias`.
pub fn bind_task_round_robin(
    slots: &mut Vec<AvailableTaskSlots>,
    active_jobs: &mut Vec<ExecutionGraph>,
    skip: &Vec<PlanHandle>,
    now: u64,
) -> (tasks: Vec<BoundTask>)
    requires
        jobs_wf(graph_views(old(active_jobs)@)),
    ensures
        jobs_wf(graph_views(final(active_jobs)@)),
        all_recorded(
            graph_views(old(active_jobs)@),
            graph_views(final(active_jobs)@),
            tasks@,
            now,
        ),
        spared(graph_views(old(active_jobs)@), graph_views(final(active_jobs)@), skip@),
        ({
            let outcome = round_outcome(
                graph_views(old(active_jobs)@),
                skip@,
                old(slots)@,
                round_robin_assignment(old(slots)@),
                now,
            );
            &&& graph_views(final(active_jobs)@) == outcome.jobs
            &&& tasks@ == outcome.tasks
            &&& final(slots)@ == outcome.slots
        }),
        forall|e: int|
            0 <= e < old(slots)@.len() ==> (#[trigger] final(slots)@[e]).slots + occurrences(
                round_robin_assignment(old(slots)@),
                bound_count(graph_views(old(active_jobs)@), skip@, round_robin_assignment(old(slots)@)),
                e,
            ) == old(slots)@[e].slots,
{
    bind_round(slots, active_jobs, skip, now, true)
}

} // verus!
