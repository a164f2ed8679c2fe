use vstd::prelude::*;
use crate::graph::{BoundTask, GraphView, JobStatus, PlanHandle, StageView, TaskInfo, unbound_before};
use crate::slots::AvailableTaskSlots;

verus! {

/// One empty cell that a round may fill: the positions of the job in the list
/// of jobs and of the stage in the job, and the partition.
pub struct WorkItem {
    pub job: int,
    pub stage: int,
    pub partition: int,
}

/// The empty cells among the first `upto` partitions of a stage, in order.
pub open spec fn stage_work(cells: Seq<Option<TaskInfo>>, job: int, stage: int, upto: int) -> Seq<
    WorkItem,
>
    decreases upto,
{
    if upto <= 0 {
        Seq::empty()
    } else {
        let earlier = stage_work(cells, job, stage, upto - 1);
        if cells[upto - 1] is None {
            earlier.push(WorkItem { job, stage, partition: upto - 1 })
        } else {
            earlier
        }
    }
}

/// A stage takes part in a round if it runs and the policy does not flag its
/// plan as one to skip.
pub open spec fn eligible(stage: StageView, skip: Seq<PlanHandle>) -> bool {
    stage.running && !skip.contains(stage.plan)
}

/// The empty cells of the eligible stages among the first `upto` stages of a
/// job, stage by stage.
pub open spec fn job_work(graph: GraphView, skip: Seq<PlanHandle>, job: int, upto: int) -> Seq<
    WorkItem,
>
    decreases upto,
{
    if upto <= 0 {
        Seq::empty()
    } else {
        let earlier = job_work(graph, skip, job, upto - 1);
        let stage = graph.stages[upto - 1];
        if eligible(stage, skip) {
            earlier + stage_work(stage.task_infos, job, upto - 1, stage.task_infos.len() as int)
        } else {
            earlier
        }
    }
}

/// The empty cells that a round over the first `upto` jobs comes to, in the
/// order in which it comes to them: running jobs only, job by job.
pub open spec fn round_work(jobs: Seq<GraphView>, skip: Seq<PlanHandle>, upto: int) -> Seq<WorkItem>
    decreases upto,
{
    if upto <= 0 {
        Seq::empty()
    } else {
        let earlier = round_work(jobs, skip, upto - 1);
        let graph = jobs[upto - 1];
        if graph.status == JobStatus::Running {
            earlier + job_work(graph, skip, upto - 1, graph.stages.len() as int)
        } else {
            earlier
        }
    }
}

/// The jobs after one cell was bound to an executor.
pub open spec fn bind_item(jobs: Seq<GraphView>, item: WorkItem, executor_id: String, now: u64) -> Seq<
    GraphView,
> {
    jobs.update(item.job, jobs[item.job].bound(item.stage, item.partition, executor_id, now))
}

/// The jobs after the first `n` cells of `work` were bound in turn, cell `k`
/// to `executors[k]`.
pub open spec fn bound_jobs(
    jobs: Seq<GraphView>,
    work: Seq<WorkItem>,
    executors: Seq<String>,
    now: u64,
    n: int,
) -> Seq<GraphView>
    decreases n,
{
    if n <= 0 {
        jobs
    } else {
        bind_item(bound_jobs(jobs, work, executors, now, n - 1), work[n - 1], executors[n - 1], now)
    }
}

/// The task that binding cell `k` of `work` emits.
pub open spec fn bound_task(
    jobs: Seq<GraphView>,
    work: Seq<WorkItem>,
    executors: Seq<String>,
    now: u64,
    data_cache: bool,
    k: int,
) -> BoundTask {
    (
        executors[k],
        bound_jobs(jobs, work, executors, now, k)[work[k].job].description(
            work[k].stage,
            work[k].partition,
            data_cache,
        ),
    )
}

/// The tasks that binding the first `n` cells of `work` emits.
pub open spec fn bound_tasks(
    jobs: Seq<GraphView>,
    work: Seq<WorkItem>,
    executors: Seq<String>,
    now: u64,
    data_cache: bool,
    n: int,
) -> Seq<BoundTask> {
    Seq::new(n as nat, |k: int| bound_task(jobs, work, executors, now, data_cache, k))
}

/// The executor ids of the entries that the bindings go to.
pub open spec fn executors_of(slots: Seq<AvailableTaskSlots>, assigned: Seq<int>) -> Seq<String> {
    Seq::new(assigned.len(), |k: int| slots[assigned[k]].executor_id)
}

/// How many cells a round binds: all that it comes to, or as many as there
/// are slots.
pub open spec fn bound_count(jobs: Seq<GraphView>, skip: Seq<PlanHandle>, assigned: Seq<int>) -> int {
    let work = round_work(jobs, skip, jobs.len() as int);
    if work.len() <= assigned.len() {
        work.len() as int
    } else {
        assigned.len() as int
    }
}

/// What a round of bias or round-robin placement comes to.
pub struct RoundOutcome {
    pub jobs: Seq<GraphView>,
    pub tasks: Seq<BoundTask>,
    pub slots: Seq<AvailableTaskSlots>,
}

/// The outcome of a round in which binding `k` goes to entry `assigned[k]` of
/// the slot snapshot: the round binds the cells it comes to, in turn, until
/// the cells or the slots run out.
pub open spec fn round_outcome(
    jobs: Seq<GraphView>,
    skip: Seq<PlanHandle>,
    slots: Seq<AvailableTaskSlots>,
    assigned: Seq<int>,
    now: u64,
) -> RoundOutcome {
    let work = round_work(jobs, skip, jobs.len() as int);
    let executors = executors_of(slots, assigned);
    let n = bound_count(jobs, skip, assigned);
    RoundOutcome {
        jobs: bound_jobs(jobs, work, executors, now, n),
        tasks: bound_tasks(jobs, work, executors, now, false, n),
        slots: crate::slots::slots_after(slots, assigned, n),
    }
}

/// A stage's work has one item for each empty cell.
pub proof fn lemma_stage_work_len(cells: Seq<Option<TaskInfo>>, job: int, stage: int, upto: int)
    ensures
        stage_work(cells, job, stage, upto).len() == unbound_before(cells, upto),
    decreases upto,
{
    if upto > 0 {
        lemma_stage_work_len(cells, job, stage, upto - 1);
    }
}

/// The empty cell of partition `p` stands in a stage's work behind the empty
/// cells before it.
pub proof fn lemma_stage_work_index(
    cells: Seq<Option<TaskInfo>>,
    job: int,
    stage: int,
    p: int,
    upto: int,
)
    requires
        0 <= p <= upto,
    ensures
        stage_work(cells, job, stage, p).len() <= stage_work(cells, job, stage, upto).len(),
        p < upto && cells[p] is None ==> {
            &&& stage_work(cells, job, stage, p).len() < stage_work(cells, job, stage, upto).len()
            &&& stage_work(cells, job, stage, upto)[stage_work(cells, job, stage, p).len() as int]
                == WorkItem { job, stage, partition: p }
        },
    decreases upto,
{
    if p < upto {
        lemma_stage_work_index(cells, job, stage, p, upto - 1);
    }
}

/// The work of an eligible stage `s` stands in the job's work behind the work
/// of the stages before it.
pub proof fn lemma_job_work_index(
    graph: GraphView,
    skip: Seq<PlanHandle>,
    job: int,
    s: int,
    upto: int,
    i: int,
)
    requires
        0 <= s <= upto,
    ensures
        job_work(graph, skip, job, s).len() <= job_work(graph, skip, job, upto).len(),
        s < upto && eligible(graph.stages[s], skip) ==> job_work(graph, skip, job, s).len()
            + stage_work(
            graph.stages[s].task_infos,
            job,
            s,
            graph.stages[s].task_infos.len() as int,
        ).len() <= job_work(graph, skip, job, upto).len(),
        s < upto && eligible(graph.stages[s], skip) && 0 <= i < stage_work(
            graph.stages[s].task_infos,
            job,
            s,
            graph.stages[s].task_infos.len() as int,
        ).len() ==> job_work(graph, skip, job, upto)[job_work(graph, skip, job, s).len() + i]
            == stage_work(graph.stages[s].task_infos, job, s, graph.stages[s].task_infos.len() as int)[i],
    decreases upto,
{
    if s < upto {
        lemma_job_work_index(graph, skip, job, s, upto - 1, i);
    }
}

/// The work of a running job `j` stands in the round's work behind the work
/// of the jobs before it.
pub proof fn lemma_round_work_index(
    jobs: Seq<GraphView>,
    skip: Seq<PlanHandle>,
    j: int,
    upto: int,
    i: int,
)
    requires
        0 <= j <= upto,
    ensures
        round_work(jobs, skip, j).len() <= round_work(jobs, skip, upto).len(),
        j < upto && jobs[j].status == JobStatus::Running ==> round_work(jobs, skip, j).len()
            + job_work(jobs[j], skip, j, jobs[j].stages.len() as int).len() <= round_work(
            jobs,
            skip,
            upto,
        ).len(),
        j < upto && jobs[j].status == JobStatus::Running && 0 <= i < job_work(
            jobs[j],
            skip,
            j,
            jobs[j].stages.len() as int,
        ).len() ==> round_work(jobs, skip, upto)[round_work(jobs, skip, j).len() + i] == job_work(
            jobs[j],
            skip,
            j,
            jobs[j].stages.len() as int,
        )[i],
    decreases upto,
{
    if j < upto {
        lemma_round_work_index(jobs, skip, j, upto - 1, i);
    }
}

/// Where the round stands when it is at partition `p` of stage `s` of job
/// `j`: behind the work of the jobs, stages and partitions before.
pub open spec fn work_position(jobs: Seq<GraphView>, skip: Seq<PlanHandle>, j: int, s: int, p: int) -> int {
    (round_work(jobs, skip, j).len() + job_work(jobs[j], skip, j, s).len() + stage_work(
        jobs[j].stages[s].task_infos,
        j,
        s,
        p,
    ).len()) as int
}

/// The round's work holds, at the place where the round stands, the empty
/// cell that it stands at.
pub proof fn lemma_work_position(jobs: Seq<GraphView>, skip: Seq<PlanHandle>, j: int, s: int, p: int)
    requires
        0 <= j < jobs.len(),
        jobs[j].status == JobStatus::Running,
        0 <= s < jobs[j].stages.len(),
        eligible(jobs[j].stages[s], skip),
        0 <= p <= jobs[j].stages[s].task_infos.len(),
    ensures
        work_position(jobs, skip, j, s, p) <= round_work(jobs, skip, jobs.len() as int).len(),
        p < jobs[j].stages[s].task_infos.len() && jobs[j].stages[s].task_infos[p] is None ==> {
            &&& work_position(jobs, skip, j, s, p) < round_work(jobs, skip, jobs.len() as int).len()
            &&& round_work(jobs, skip, jobs.len() as int)[work_position(jobs, skip, j, s, p)]
                == WorkItem { job: j, stage: s, partition: p }
        },
{
    let cells = jobs[j].stages[s].task_infos;
    let i = stage_work(cells, j, s, p).len() as int;
    let i2 = job_work(jobs[j], skip, j, s).len() + i;
    lemma_stage_work_index(cells, j, s, p, cells.len() as int);
    lemma_job_work_index(jobs[j], skip, j, s, jobs[j].stages.len() as int, i);
    lemma_round_work_index(jobs, skip, j, jobs.len() as int, i2);
}

/// The stages that take no part in a round are as they were: the stages of
/// the jobs that do not run, the stages that do not run, and the stages whose
/// plan the policy flags as one to skip.
pub open spec fn spared(before: Seq<GraphView>, after: Seq<GraphView>, skip: Seq<PlanHandle>) -> bool {
    forall|j: int, s: int|
        0 <= j < before.len() && 0 <= s < before[j].stages.len() && !(before[j].status
            == JobStatus::Running && eligible(before[j].stages[s], skip)) ==> #[trigger] after[j].stages[s]
            == before[j].stages[s]
}

/// Two graphs differ at most in the stage at position `s`.
pub open spec fn same_but_stage(before: GraphView, after: GraphView, s: int) -> bool {
    &&& after.job_id == before.job_id
    &&& after.session_id == before.session_id
    &&& after.status == before.status
    &&& after.stages.len() == before.stages.len()
    &&& forall|t: int| 0 <= t < before.stages.len() && t != s ==> after.stages[t] == before.stages[t]
}

/// Two lists of jobs differ at most in the job at position `j`.
pub open spec fn same_but_job(before: Seq<GraphView>, after: Seq<GraphView>, j: int) -> bool {
    &&& after.len() == before.len()
    &&& forall|i: int| 0 <= i < before.len() && i != j ==> after[i] == before[i]
}

} // verus!
