use vstd::prelude::*;
use crate::error::BallistaError;

verus! {

/// Names a physical plan to the planner and to the executors. The binder
/// carries it through and never looks inside.
pub type PlanHandle = u64;

/// Where a job stands. Only a running job is bound.
#[derive(Clone, Copy, Debug, PartialEq, Eq, Structural)]
pub enum JobStatus {
    Queued,
    Running,
    Succeeded,
    Failed,
    Canceled,
}

/// One cell of a stage's task table: the task that a partition was given to.
#[derive(Debug)]
pub struct TaskInfo {
    pub executor_id: String,
    pub task_id: usize,
    pub started_at: u64,
}

/// Names one partition of one stage of one job.
#[derive(Debug)]
pub struct PartitionId {
    pub job_id: String,
    pub stage_id: usize,
    pub partition_id: usize,
}

/// What an executor is told about a task that was bound to it.
#[derive(Debug)]
pub struct TaskDescription {
    pub session_id: String,
    pub partition: PartitionId,
    pub stage_attempt_num: usize,
    pub task_id: usize,
    pub task_attempt: usize,
    pub data_cache: bool,
    pub plan: PlanHandle,
}

/// A task bound to an executor: the executor's id, then the task.
pub type BoundTask = (String, TaskDescription);

/// How many of the first `n` cells are empty.
pub open spec fn unbound_before(cells: Seq<Option<TaskInfo>>, n: int) -> nat
    decreases n,
{
    if n <= 0 {
        0
    } else {
        unbound_before(cells, n - 1) + if cells[n - 1] is None {
            1nat
        } else {
            0nat
        }
    }
}

/// How many cells are empty.
pub open spec fn unbound(cells: Seq<Option<TaskInfo>>) -> nat {
    unbound_before(cells, cells.len() as int)
}

/// No more cells are empty than there are cells.
pub proof fn lemma_unbound_before_bounds(cells: Seq<Option<TaskInfo>>, n: int)
    requires
        0 <= n,
    ensures
        unbound_before(cells, n) <= n,
    decreases n,
{
    if n > 0 {
        lemma_unbound_before_bounds(cells, n - 1);
    }
}

/// The count of empty cells at and after a cell depends on those cells only.
pub proof fn lemma_unbound_before_update(
    cells: Seq<Option<TaskInfo>>,
    p: int,
    cell: Option<TaskInfo>,
    n: int,
)
    requires
        0 <= p < cells.len(),
        0 <= n <= cells.len(),
    ensures
        n <= p ==> unbound_before(cells.update(p, cell), n) == unbound_before(cells, n),
        n > p ==> unbound_before(cells.update(p, cell), n) + (if cells[p] is None {
            1int
        } else {
            0int
        }) == unbound_before(cells, n) + (if cell is None {
            1int
        } else {
            0int
        }),
    decreases n,
{
    if n > 0 {
        lemma_unbound_before_update(cells, p, cell, n - 1);
    }
}

/// A stage as the contracts speak of it.
pub struct StageView {
    pub stage_id: usize,
    pub stage_attempt_num: usize,
    pub plan: PlanHandle,
    pub running: bool,
    pub task_infos: Seq<Option<TaskInfo>>,
    pub task_failure_numbers: Seq<usize>,
    pub task_id_gen: usize,
}

impl StageView {
    /// The number of partitions.
    pub open spec fn partitions(self) -> nat {
        self.task_infos.len()
    }

    /// A table cell and an attempt number for each partition; every task id
    /// given out is below the generator, and no two cells hold one task id;
    /// the generator cannot overflow while the empty cells are filled.
    pub open spec fn wf(self) -> bool {
        &&& self.task_failure_numbers.len() == self.task_infos.len()
        &&& self.task_id_gen + unbound(self.task_infos) <= usize::MAX
        &&& forall|p: int|
            0 <= p < self.task_infos.len() && (#[trigger] self.task_infos[p]) is Some
                ==> self.task_infos[p]->0.task_id < self.task_id_gen
        &&& forall|p: int, q: int|
            0 <= p < q < self.task_infos.len() && (#[trigger] self.task_infos[p]) is Some && (
            #[trigger] self.task_infos[q]) is Some ==> self.task_infos[p]->0.task_id
                != self.task_infos[q]->0.task_id
    }

    /// The cell that a binding writes.
    pub open spec fn info_for(self, executor_id: String, now: u64) -> TaskInfo {
        TaskInfo { executor_id, task_id: self.task_id_gen, started_at: now }
    }

    /// The stage after partition `p` was bound to an executor.
    pub open spec fn bound(self, p: int, executor_id: String, now: u64) -> StageView {
        StageView {
            task_infos: self.task_infos.update(p, Some(self.info_for(executor_id, now))),
            task_id_gen: (self.task_id_gen + 1) as usize,
            ..self
        }
    }

    /// The task that binding partition `p` emits.
    pub open spec fn description(
        self,
        job_id: String,
        session_id: String,
        p: int,
        data_cache: bool,
    ) -> TaskDescription {
        TaskDescription {
            session_id,
            partition: PartitionId { job_id, stage_id: self.stage_id, partition_id: p as usize },
            stage_attempt_num: self.stage_attempt_num,
            task_id: self.task_id_gen,
            task_attempt: self.task_failure_numbers[p],
            data_cache,
            plan: self.plan,
        }
    }

    /// Whether the stage is handed out for binding under a blacklist of stage
    /// ids: it runs, has an empty cell, and is not listed.
    pub open spec fn available(self, black_list: Seq<usize>) -> bool {
        &&& self.running
        &&& unbound(self.task_infos) > 0
        &&& !black_list.contains(self.stage_id)
    }
}

/// One stage of a job: its plan, its task table and its task id generator.
pub struct Stage {
    stage_id: usize,
    stage_attempt_num: usize,
    plan: PlanHandle,
    running: bool,
    task_infos: Vec<Option<TaskInfo>>,
    task_failure_numbers: Vec<usize>,
    task_id_gen: usize,
}

impl View for Stage {
    type V = StageView;

    closed spec fn view(&self) -> StageView {
        StageView {
            stage_id: self.stage_id,
            stage_attempt_num: self.stage_attempt_num,
            plan: self.plan,
            running: self.running,
            task_infos: self.task_infos@,
            task_failure_numbers: self.task_failure_numbers@,
            task_id_gen: self.task_id_gen,
        }
    }
}

impl Stage {
    /// A stage with one empty cell for each attempt number given, and a fresh
    /// task id generator.
    pub fn new(
        stage_id: usize,
        stage_attempt_num: usize,
        plan: PlanHandle,
        running: bool,
        task_failure_numbers: Vec<usize>,
    ) -> (stage: Stage)
        ensures
            stage@.wf(),
            stage@.stage_id == stage_id,
            stage@.stage_attempt_num == stage_attempt_num,
            stage@.plan == plan,
            stage@.running == running,
            stage@.task_failure_numbers == task_failure_numbers@,
            stage@.task_infos == Seq::new(
                task_failure_numbers@.len(),
                |p: int| None::<TaskInfo>,
            ),
            stage@.task_id_gen == 0,
    {
        let mut task_infos: Vec<Option<TaskInfo>> = Vec::new();
        let mut p: usize = 0;
        while p < task_failure_numbers.len()
            invariant
                p <= task_failure_numbers.len(),
                task_infos@ == Seq::new(p as nat, |q: int| None::<TaskInfo>),
            decreases task_failure_numbers.len() - p,
        {
            task_infos.push(None);
            p = p + 1;
        }
        proof {
            lemma_unbound_before_bounds(task_infos@, task_infos@.len() as int);
        }
        Stage {
            stage_id,
            stage_attempt_num,
            plan,
            running,
            task_infos,
            task_failure_numbers,
            task_id_gen: 0,
        }
    }

    pub fn stage_id(&self) -> (id: usize)
        ensures
            id == self@.stage_id,
    {
        self.stage_id
    }

    pub fn stage_attempt_num(&self) -> (n: usize)
        ensures
            n == self@.stage_attempt_num,
    {
        self.stage_attempt_num
    }

    pub fn plan(&self) -> (plan: PlanHandle)
        ensures
            plan == self@.plan,
    {
        self.plan
    }

    pub fn is_running(&self) -> (b: bool)
        ensures
            b == self@.running,
    {
        self.running
    }

    /// The value that the next task of this stage gets as its id.
    pub fn task_id_gen(&self) -> (n: usize)
        ensures
            n == self@.task_id_gen,
    {
        self.task_id_gen
    }

    /// The number of partitions.
    pub fn partitions(&self) -> (n: usize)
        ensures
            n == self@.partitions(),
    {
        self.task_infos.len()
    }

    /// The cell of a partition; `None` for an empty cell and for a partition
    /// that the stage does not have.
    pub fn task_info(&self, partition_id: usize) -> (cell: Option<&TaskInfo>)
        ensures
            partition_id < self@.partitions() ==> match cell {
                Some(info) => self@.task_infos[partition_id as int] == Some(*info),
                None => self@.task_infos[partition_id as int] is None,
            },
            partition_id >= self@.partitions() ==> cell is None,
    {
        if partition_id < self.task_infos.len() {
            self.task_infos[partition_id].as_ref()
        } else {
            None
        }
    }

    /// The attempt number of a partition.
    pub fn task_failure_number(&self, partition_id: usize) -> (n: Option<usize>)
        ensures
            n == if partition_id < self@.task_failure_numbers.len() {
                Some(self@.task_failure_numbers[partition_id as int])
            } else {
                None
            },
    {
        if partition_id < self.task_failure_numbers.len() {
            Some(self.task_failure_numbers[partition_id])
        } else {
            None
        }
    }

    /// Whether the cell of partition `p` is empty.
    pub fn is_unbound(&self, p: usize) -> (b: bool)
        requires
            p < self@.partitions(),
        ensures
            b == (self@.task_infos[p as int] is None),
    {
        self.task_infos[p].is_none()
    }

    /// The number of empty cells.
    pub fn available_tasks(&self) -> (n: usize)
        ensures
            n == unbound(self@.task_infos),
    {
        let mut n: usize = 0;
        let mut p: usize = 0;
        while p < self.task_infos.len()
            invariant
                p <= self.task_infos.len(),
                n == unbound_before(self.task_infos@, p as int),
                n <= p,
            decreases self.task_infos.len() - p,
        {
            if self.task_infos[p].is_none() {
                n = n + 1;
            }
            p = p + 1;
        }
        n
    }

    /// Gives the empty cell of partition `partition_id` to an executor: takes
    /// the next task id, fills the cell and returns the task to send.
    pub fn bind_task(
        &mut self,
        job_id: &String,
        session_id: &String,
        partition_id: usize,
        executor_id: &String,
        data_cache: bool,
        now: u64,
    ) -> (task: TaskDescription)
        requires
            old(self)@.wf(),
            partition_id < old(self)@.partitions(),
            old(self)@.task_infos[partition_id as int] is None,
        ensures
            final(self)@.wf(),
            final(self)@ == old(self)@.bound(partition_id as int, *executor_id, now),
            task == old(self)@.description(*job_id, *session_id, partition_id as int, data_cache),
            unbound(final(self)@.task_infos) == unbound(old(self)@.task_infos) - 1,
    {
        proof {
            lemma_unbound_before_update(
                self.task_infos@,
                partition_id as int,
                Some(self@.info_for(*executor_id, now)),
                self.task_infos@.len() as int,
            );
        }
        let task_id = self.task_id_gen;
        let task = TaskDescription {
            session_id: session_id.clone(),
            partition: PartitionId {
                job_id: job_id.clone(),
                stage_id: self.stage_id,
                partition_id,
            },
            stage_attempt_num: self.stage_attempt_num,
            task_id,
            task_attempt: self.task_failure_numbers[partition_id],
            data_cache,
            plan: self.plan,
        };
        self.task_infos.set(
            partition_id,
            Some(TaskInfo { executor_id: executor_id.clone(), task_id, started_at: now }),
        );
        self.task_id_gen = task_id + 1;
        task
    }

    /// A copy of the stage with the same view.
    pub fn duplicate(&self) -> (copy: Stage)
        ensures
            copy@ == self@,
    {
        let mut task_infos: Vec<Option<TaskInfo>> = Vec::new();
        let mut p: usize = 0;
        while p < self.task_infos.len()
            invariant
                p <= self.task_infos.len(),
                task_infos@ == self.task_infos@.take(p as int),
            decreases self.task_infos.len() - p,
        {
            let cell = match &self.task_infos[p] {
                Some(info) => Some(
                    TaskInfo {
                        executor_id: info.executor_id.clone(),
                        task_id: info.task_id,
                        started_at: info.started_at,
                    },
                ),
                None => None,
            };
            task_infos.push(cell);
            p = p + 1;
        }
        let mut task_failure_numbers: Vec<usize> = Vec::new();
        let mut q: usize = 0;
        while q < self.task_failure_numbers.len()
            invariant
                q <= self.task_failure_numbers.len(),
                task_failure_numbers@ == self.task_failure_numbers@.take(q as int),
            decreases self.task_failure_numbers.len() - q,
        {
            task_failure_numbers.push(self.task_failure_numbers[q]);
            q = q + 1;
        }
        assert(task_infos@ =~= self.task_infos@);
        assert(task_failure_numbers@ =~= self.task_failure_numbers@);
        Stage {
            stage_id: self.stage_id,
            stage_attempt_num: self.stage_attempt_num,
            plan: self.plan,
            running: self.running,
            task_infos,
            task_failure_numbers,
            task_id_gen: self.task_id_gen,
        }
    }
}

/// No two stages share an id.
pub open spec fn stage_ids_distinct(stages: Seq<StageView>) -> bool {
    forall|a: int, b: int|
        0 <= a < b < stages.len() ==> (#[trigger] stages[a]).stage_id != (
        #[trigger] stages[b]).stage_id
}

/// A job's execution graph as the contracts speak of it.
pub struct GraphView {
    pub job_id: String,
    pub session_id: String,
    pub status: JobStatus,
    pub stages: Seq<StageView>,
}

impl GraphView {
    /// Every stage is well formed, and no two stages share an id.
    pub open spec fn wf(self) -> bool {
        &&& forall|s: int| 0 <= s < self.stages.len() ==> (#[trigger] self.stages[s]).wf()
        &&& stage_ids_distinct(self.stages)
    }

    /// The graph after partition `p` of the stage at position `s` was bound to
    /// an executor.
    pub open spec fn bound(self, s: int, p: int, executor_id: String, now: u64) -> GraphView {
        GraphView { stages: self.stages.update(s, self.stages[s].bound(p, executor_id, now)), ..self }
    }

    /// The task that binding partition `p` of the stage at position `s` emits.
    pub open spec fn description(self, s: int, p: int, data_cache: bool) -> TaskDescription {
        self.stages[s].description(self.job_id, self.session_id, p, data_cache)
    }

    /// The stage that is handed out under a blacklist: the position of the
    /// first available stage, if there is one.
    pub open spec fn running_stage(self, black_list: Seq<usize>) -> Option<int> {
        if self.first_available(black_list, 0) < self.stages.len() {
            Some(self.first_available(black_list, 0))
        } else {
            None
        }
    }

    /// The position of the first available stage at or after `from`, or the
    /// number of stages if there is none.
    pub open spec fn first_available(self, black_list: Seq<usize>, from: int) -> int
        decreases self.stages.len() - from,
    {
        if from < 0 || from >= self.stages.len() {
            self.stages.len() as int
        } else if self.stages[from].available(black_list) {
            from
        } else {
            self.first_available(black_list, from + 1)
        }
    }
}

/// `first_available` is the least available position at or after `from`.
pub proof fn lemma_first_available(graph: GraphView, black_list: Seq<usize>, from: int)
    requires
        0 <= from <= graph.stages.len(),
    ensures
        from <= graph.first_available(black_list, from) <= graph.stages.len(),
        graph.first_available(black_list, from) < graph.stages.len()
            ==> graph.stages[graph.first_available(black_list, from)].available(black_list),
        forall|s: int|
            from <= s < graph.first_available(black_list, from) ==> !(
            #[trigger] graph.stages[s]).available(black_list),
    decreases graph.stages.len() - from,
{
    if from < graph.stages.len() && !graph.stages[from].available(black_list) {
        lemma_first_available(graph, black_list, from + 1);
    }
}

/// The views of a sequence of stages.
pub open spec fn stage_views(stages: Seq<Stage>) -> Seq<StageView> {
    stages.map_values(|stage: Stage| stage@)
}

/// The execution graph of one job, as far as binding reads and writes it: the
/// job's identity and status and its stages in order.
pub struct ExecutionGraph {
    job_id: String,
    session_id: String,
    status: JobStatus,
    stages: Vec<Stage>,
}

impl View for ExecutionGraph {
    type V = GraphView;

    closed spec fn view(&self) -> GraphView {
        GraphView {
            job_id: self.job_id,
            session_id: self.session_id,
            status: self.status,
            stages: stage_views(self.stages@),
        }
    }
}

/// Whether a stage id is on a blacklist.
pub fn is_listed(black_list: &Vec<usize>, stage_id: usize) -> (b: bool)
    ensures
        b == black_list@.contains(stage_id),
{
    let mut i: usize = 0;
    while i < black_list.len()
        invariant
            i <= black_list.len(),
            forall|j: int| 0 <= j < i ==> black_list@[j] != stage_id,
        decreases black_list.len() - i,
    {
        if black_list[i] == stage_id {
            return true;
        }
        i = i + 1;
    }
    false
}

impl ExecutionGraph {
    /// A graph without stages.
    pub fn new(job_id: String, session_id: String, status: JobStatus) -> (graph: ExecutionGraph)
        ensures
            graph@.wf(),
            graph@ == (GraphView { job_id, session_id, status, stages: Seq::empty() }),
    {
        let graph = ExecutionGraph { job_id, session_id, status, stages: Vec::new() };
        assert(graph@.stages =~= Seq::empty());
        graph
    }

    /// Appends a stage. A stage whose id the graph already has is refused, and
    /// the graph stays as it was.
    pub fn add_stage(&mut self, stage: Stage) -> (result: Result<(), BallistaError>)
        requires
            old(self)@.wf(),
            stage@.wf(),
        ensures
            final(self)@.wf(),
            match result {
                Ok(_) => {
                    &&& forall|s: int|
                        0 <= s < old(self)@.stages.len() ==> (#[trigger] old(self)@.stages[s]).stage_id
                            != stage@.stage_id
                    &&& final(self)@ == (GraphView {
                        stages: old(self)@.stages.push(stage@),
                        ..old(self)@
                    })
                },
                Err(e) => {
                    &&& e is AlreadyExists
                    &&& e.text() == "the job has a stage with this id"@
                    &&& exists|s: int|
                        0 <= s < old(self)@.stages.len() && (#[trigger] old(self)@.stages[s]).stage_id
                            == stage@.stage_id
                    &&& final(self)@ == old(self)@
                },
            },
    {
        let mut s: usize = 0;
        while s < self.stages.len()
            invariant
                s <= self.stages.len(),
                *self == *old(self),
                self@.wf(),
                forall|t: int| 0 <= t < s ==> (#[trigger] self@.stages[t]).stage_id != stage@.stage_id,
            decreases self.stages.len() - s,
        {
            if self.stages[s].stage_id == stage.stage_id {
                assert(self@.stages[s as int].stage_id == stage@.stage_id);
                return Err(BallistaError::AlreadyExists("the job has a stage with this id".to_string()));
            }
            s = s + 1;
        }
        self.stages.push(stage);
        assert(self@.stages =~= old(self)@.stages.push(stage@));
        Ok(())
    }

    pub fn job_id(&self) -> (id: &String)
        ensures
            *id == self@.job_id,
    {
        &self.job_id
    }

    pub fn session_id(&self) -> (id: &String)
        ensures
            *id == self@.session_id,
    {
        &self.session_id
    }

    pub fn status(&self) -> (status: JobStatus)
        ensures
            status == self@.status,
    {
        self.status
    }

    /// Sets the job's status and leaves the rest.
    pub fn set_status(&mut self, status: JobStatus)
        ensures
            final(self)@ == (GraphView { status, ..old(self)@ }),
    {
        self.status = status;
    }

    /// The number of stages.
    pub fn stage_count(&self) -> (n: usize)
        ensures
            n == self@.stages.len(),
    {
        self.stages.len()
    }

    /// The stage at a position.
    pub fn stage(&self, s: usize) -> (stage: &Stage)
        requires
            s < self@.stages.len(),
        ensures
            stage@ == self@.stages[s as int],
    {
        &self.stages[s]
    }

    /// The next stage to bind under a blacklist of stage ids: the position of
    /// the first stage that runs, has an empty cell and is not listed.
    pub fn fetch_running_stage(&self, black_list: &Vec<usize>) -> (found: Option<usize>)
        ensures
            match found {
                Some(s) => {
                    &&& s < self@.stages.len()
                    &&& self@.stages[s as int].available(black_list@)
                    &&& forall|t: int| 0 <= t < s ==> !(#[trigger] self@.stages[t]).available(black_list@)
                },
                None => forall|t: int|
                    0 <= t < self@.stages.len() ==> !(#[trigger] self@.stages[t]).available(
                        black_list@,
                    ),
            },
            found == match self@.running_stage(black_list@) {
                Some(s) => Some(s as usize),
                None => None,
            },
    {
        proof {
            lemma_first_available(self@, black_list@, 0);
        }
        let mut s: usize = 0;
        while s < self.stages.len()
            invariant
                s <= self.stages.len(),
                forall|t: int| 0 <= t < s ==> !(#[trigger] self@.stages[t]).available(black_list@),
            decreases self.stages.len() - s,
        {
            let stage = &self.stages[s];
            assert(stage@ == self@.stages[s as int]);
            if stage.running && !is_listed(black_list, stage.stage_id) && stage.available_tasks() > 0 {
                proof {
                    lemma_first_available(self@, black_list@, 0);
                }
                return Some(s);
            }
            s = s + 1;
        }
        None
    }

    /// Gives the empty cell of partition `partition_id` of the stage at
    /// position `s` to an executor, and returns the task to send.
    pub fn bind_task(
        &mut self,
        s: usize,
        partition_id: usize,
        executor_id: &String,
        data_cache: bool,
        now: u64,
    ) -> (task: TaskDescription)
        requires
            old(self)@.wf(),
            s < old(self)@.stages.len(),
            partition_id < old(self)@.stages[s as int].partitions(),
            old(self)@.stages[s as int].task_infos[partition_id as int] is None,
        ensures
            final(self)@.wf(),
            final(self)@ == old(self)@.bound(s as int, partition_id as int, *executor_id, now),
            task == old(self)@.description(s as int, partition_id as int, data_cache),
    {
        let stage = &mut self.stages[s];
        let task = stage.bind_task(
            &self.job_id,
            &self.session_id,
            partition_id,
            executor_id,
            data_cache,
            now,
        );
        proof {
            let expected = old(self)@.bound(s as int, partition_id as int, *executor_id, now);
            assert(self@.stages =~= expected.stages);
        }
        task
    }

    /// A copy of the graph with the same view.
    pub fn duplicate(&self) -> (copy: ExecutionGraph)
        ensures
            copy@ == self@,
    {
        let mut stages: Vec<Stage> = Vec::new();
        let mut s: usize = 0;
        while s < self.stages.len()
            invariant
                s <= self.stages.len(),
                stage_views(stages@) == stage_views(self.stages@).take(s as int),
            decreases self.stages.len() - s,
        {
            let ghost before = stages@;
            stages.push(self.stages[s].duplicate());
            s = s + 1;
            assert(stage_views(stages@) =~= stage_views(before).push(self.stages@[s - 1]@));
        }
        assert(stage_views(stages@) =~= stage_views(self.stages@));
        ExecutionGraph {
            job_id: self.job_id.clone(),
            session_id: self.session_id.clone(),
            status: self.status,
            stages,
        }
    }
}

/// The views of a sequence of graphs.
pub open spec fn graph_views(jobs: Seq<ExecutionGraph>) -> Seq<GraphView> {
    jobs.map_values(|graph: ExecutionGraph| graph@)
}

/// Every graph of the sequence is well formed.
pub open spec fn jobs_wf(jobs: Seq<GraphView>) -> bool {
    forall|j: int| 0 <= j < jobs.len() ==> (#[trigger] jobs[j]).wf()
}

/// A copy of a list of graphs with the same views.
pub fn duplicate_jobs(jobs: &Vec<ExecutionGraph>) -> (copy: Vec<ExecutionGraph>)
    ensures
        graph_views(copy@) == graph_views(jobs@),
{
    let mut copy: Vec<ExecutionGraph> = Vec::new();
    let mut j: usize = 0;
    while j < jobs.len()
        invariant
            j <= jobs.len(),
            graph_views(copy@) == graph_views(jobs@).take(j as int),
        decreases jobs.len() - j,
    {
        let ghost before = copy@;
        copy.push(jobs[j].duplicate());
        j = j + 1;
        assert(graph_views(copy@) =~= graph_views(before).push(jobs@[j - 1]@));
    }
    copy
}

/// A stage before and after a round: the same stage; the cells that were
/// filled are as they were; the cells that were filled since hold the task
/// ids from the generator's value before up to its value after, each once.
pub open spec fn stage_advanced(before: StageView, after: StageView) -> bool {
    &&& after.stage_id == before.stage_id
    &&& after.stage_attempt_num == before.stage_attempt_num
    &&& after.plan == before.plan
    &&& after.running == before.running
    &&& after.task_failure_numbers == before.task_failure_numbers
    &&& after.task_infos.len() == before.task_infos.len()
    &&& before.task_id_gen <= after.task_id_gen
    &&& after.task_id_gen - before.task_id_gen == unbound(before.task_infos) - unbound(
        after.task_infos,
    )
    &&& forall|p: int|
        0 <= p < before.task_infos.len() && (#[trigger] before.task_infos[p]) is Some
            ==> after.task_infos[p] == before.task_infos[p]
    &&& forall|p: int|
        0 <= p < before.task_infos.len() && before.task_infos[p] is None && (
        #[trigger] after.task_infos[p]) is Some ==> before.task_id_gen
            <= after.task_infos[p]->0.task_id < after.task_id_gen
    &&& forall|id: int| before.task_id_gen <= id < after.task_id_gen ==> #[trigger] issued(before, after, id)
}

/// A cell that was empty before holds the task `id` after.
pub open spec fn issued(before: StageView, after: StageView, id: int) -> bool {
    exists|p: int| #[trigger] filled_with(before, after, p, id)
}

/// Cell `p` was empty before and holds the task `id` after.
pub open spec fn filled_with(before: StageView, after: StageView, p: int, id: int) -> bool {
    &&& 0 <= p < before.task_infos.len()
    &&& before.task_infos[p] is None
    &&& after.task_infos[p] is Some
    &&& after.task_infos[p]->0.task_id == id
}

/// A job before and after a round: the same job, and each stage has advanced.
pub open spec fn graph_advanced(before: GraphView, after: GraphView) -> bool {
    &&& after.job_id == before.job_id
    &&& after.session_id == before.session_id
    &&& after.status == before.status
    &&& after.stages.len() == before.stages.len()
    &&& forall|s: int|
        0 <= s < before.stages.len() ==> stage_advanced(before.stages[s], #[trigger] after.stages[s])
}

/// The jobs before and after a round: the same jobs, and each has advanced.
pub open spec fn jobs_advanced(before: Seq<GraphView>, after: Seq<GraphView>) -> bool {
    &&& after.len() == before.len()
    &&& forall|j: int| 0 <= j < before.len() ==> graph_advanced(before[j], #[trigger] after[j])
}

/// A task is the binding of partition `p` of the stage at `s` of the job at
/// `j`: the cell was empty before the round and holds the task's id and
/// executor after it, with the time of the round; the task names the
/// partition; and the task's id was free before the round.
pub open spec fn fills(
    before: Seq<GraphView>,
    after: Seq<GraphView>,
    task: BoundTask,
    now: u64,
    j: int,
    s: int,
    p: int,
) -> bool {
    &&& 0 <= j < before.len()
    &&& 0 <= s < before[j].stages.len()
    &&& 0 <= p < before[j].stages[s].task_infos.len()
    &&& before[j].stages[s].task_infos[p] is None
    &&& after[j].stages[s].task_infos[p] == Some(
        TaskInfo { executor_id: task.0, task_id: task.1.task_id, started_at: now },
    )
    &&& task.1.partition == (PartitionId {
        job_id: before[j].job_id,
        stage_id: before[j].stages[s].stage_id,
        partition_id: p as usize,
    })
    &&& task.1.session_id == before[j].session_id
    &&& task.1.stage_attempt_num == before[j].stages[s].stage_attempt_num
    &&& task.1.task_attempt == before[j].stages[s].task_failure_numbers[p]
    &&& task.1.plan == before[j].stages[s].plan
    &&& before[j].stages[s].task_id_gen <= task.1.task_id < after[j].stages[s].task_id_gen
}

/// A task is the binding of a cell that was empty before the round.
pub open spec fn recorded(before: Seq<GraphView>, after: Seq<GraphView>, task: BoundTask, now: u64) -> bool {
    exists|j: int, s: int, p: int| #[trigger] fills(before, after, task, now, j, s, p)
}

/// Every task of a list is the binding of a cell that was empty before the
/// round, and the jobs have advanced.
pub open spec fn all_recorded(
    before: Seq<GraphView>,
    after: Seq<GraphView>,
    tasks: Seq<BoundTask>,
    now: u64,
) -> bool {
    &&& jobs_advanced(before, after)
    &&& forall|k: int| 0 <= k < tasks.len() ==> recorded(before, after, #[trigger] tasks[k], now)
}

/// Binding one more empty cell keeps the record.
pub proof fn lemma_recorded_step(
    before: Seq<GraphView>,
    current: Seq<GraphView>,
    tasks: Seq<BoundTask>,
    now: u64,
    j: int,
    s: int,
    p: int,
    executor_id: String,
    data_cache: bool,
)
    requires
        all_recorded(before, current, tasks, now),
        jobs_wf(current),
        0 <= j < current.len(),
        0 <= s < current[j].stages.len(),
        0 <= p < current[j].stages[s].task_infos.len(),
        current[j].stages[s].task_infos[p] is None,
    ensures
        all_recorded(
            before,
            current.update(j, current[j].bound(s, p, executor_id, now)),
            tasks.push((executor_id, current[j].description(s, p, data_cache))),
            now,
        ),
{
    let stage0 = before[j].stages[s];
    let stage = current[j].stages[s];
    let stage1 = stage.bound(p, executor_id, now);
    let next = current.update(j, current[j].bound(s, p, executor_id, now));
    let task = (executor_id, current[j].description(s, p, data_cache));
    lemma_unbound_before_update(
        stage.task_infos,
        p,
        Some(stage.info_for(executor_id, now)),
        stage.task_infos.len() as int,
    );
    assert(stage_advanced(stage0, stage1)) by {
        assert forall|id: int| stage0.task_id_gen <= id < stage1.task_id_gen implies #[trigger] issued(
            stage0,
            stage1,
            id,
        ) by {
            if id < stage.task_id_gen {
                assert(issued(stage0, stage, id));
                let q = choose|q: int| #[trigger] filled_with(stage0, stage, q, id);
                assert(filled_with(stage0, stage1, q, id));
            } else {
                assert(filled_with(stage0, stage1, p, id));
            }
        }
    }
    let all = tasks.push(task);
    assert forall|k: int| 0 <= k < all.len() implies recorded(before, next, #[trigger] all[k], now) by {
        if k < tasks.len() {
            let (a, b, c) = choose|a: int, b: int, c: int| #[trigger]
                fills(before, current, tasks[k], now, a, b, c);
            assert(fills(before, next, all[k], now, a, b, c));
        } else {
            assert(fills(before, next, all[k], now, j, s, p));
        }
    }
}

/// How many of the first `upto` tasks are bound to an executor.
pub open spec fn bound_to(tasks: Seq<BoundTask>, executor_id: Seq<char>, upto: int) -> nat
    decreases upto,
{
    if upto <= 0 {
        0
    } else {
        bound_to(tasks, executor_id, upto - 1) + if tasks[upto - 1].0@ == executor_id {
            1nat
        } else {
            0nat
        }
    }
}

/// A count of the first tasks of a list does not see what is appended.
pub proof fn lemma_bound_to_push(tasks: Seq<BoundTask>, task: BoundTask, executor_id: Seq<char>, upto: int)
    requires
        0 <= upto <= tasks.len(),
    ensures
        bound_to(tasks.push(task), executor_id, upto) == bound_to(tasks, executor_id, upto),
    decreases upto,
{
    if upto > 0 {
        lemma_bound_to_push(tasks, task, executor_id, upto - 1);
    }
}

} // verus!
