use vstd::prelude::*;
use vstd::utf8::encode_utf8;
use crate::error::BallistaError;
use crate::graph::{
    all_recorded, bound_to, duplicate_jobs, graph_views, jobs_wf, lemma_bound_to_push,
    lemma_recorded_step, unbound, BoundTask, ExecutionGraph, GraphView, JobStatus, PlanHandle,
    StageView,
};
use crate::ring::{names_of, nodes_by_name, ring_lookup, shrunk, HashRing, TopologyNode};
use crate::work::{same_but_job, same_but_stage};

verus! {

/// What the scan-file extractor gives for one plan of one job: for each scan
/// of the plan and each partition the paths of the files to read, or the
/// extractor's error.
#[derive(Debug)]
pub struct PlanScan {
    pub job_id: String,
    pub plan: PlanHandle,
    pub files: Result<Vec<Vec<Vec<String>>>, BallistaError>,
}

/// A stage is left to other policies if its plan scans no files, or scans
/// more than once.
pub fn is_skip_consistent_hash(scan_files: &Vec<Vec<Vec<String>>>) -> (skip: bool)
    ensures
        skip == (scan_files@.len() == 0 || scan_files@.len() > 1),
{
    scan_files.len() == 0 || scan_files.len() > 1
}

/// The position of the first entry at or after `from` for a plan of a job, or
/// the length of the table if there is none.
pub open spec fn scan_index(table: Seq<PlanScan>, job_id: Seq<char>, plan: PlanHandle, from: int) -> int
    decreases table.len() - from,
{
    if from < 0 || from >= table.len() {
        table.len() as int
    } else if table[from].job_id@ == job_id && table[from].plan == plan {
        from
    } else {
        scan_index(table, job_id, plan, from + 1)
    }
}

/// What the extractor gives for a plan of a job: the first entry of the table
/// for them; no scans where the table has no entry.
pub open spec fn scan_lookup(table: Seq<PlanScan>, job_id: Seq<char>, plan: PlanHandle) -> Result<
    Seq<Vec<Vec<String>>>,
    BallistaError,
> {
    let i = scan_index(table, job_id, plan, 0);
    if i >= table.len() {
        Ok(Seq::empty())
    } else {
        match table[i].files {
            Ok(scans) => Ok(scans@),
            Err(e) => Err(e),
        }
    }
}

/// The position of the first entry for a plan of a job.
fn find_scan(table: &Vec<PlanScan>, job_id: &String, plan: PlanHandle) -> (found: Option<usize>)
    ensures
        match found {
            Some(i) => i < table@.len() && i == scan_index(table@, job_id@, plan, 0),
            None => scan_index(table@, job_id@, plan, 0) >= table@.len(),
        },
{
    let mut i: usize = 0;
    while i < table.len()
        invariant
            i <= table.len(),
            scan_index(table@, job_id@, plan, 0) == scan_index(table@, job_id@, plan, i as int),
        decreases table.len() - i,
    {
        if table[i].job_id == *job_id && table[i].plan == plan {
            return Some(i);
        }
        i = i + 1;
    }
    None
}

/// The key that a partition is placed by: the bytes of the path of its first
/// file. A partition beyond the scan, or without files, has none.
pub open spec fn partition_key(files: Seq<Vec<String>>, p: int) -> Option<Seq<u8>> {
    if 0 <= p < files.len() && files[p]@.len() > 0 {
        Some(encode_utf8(files[p]@[0]@))
    } else {
        None
    }
}

/// Why a consistent-hash round fails.
pub enum HashFailure {
    /// The extractor failed for a stage that the round came to.
    Scan(BallistaError),
    /// A partition that the round came to has no file to place it by.
    AbsentFiles,
}

/// Where a consistent-hash round stands: the jobs, the ring's nodes by name,
/// the free slots left on the ring, the tasks bound so far, and why the round
/// failed if it did.
pub struct HashRound {
    pub jobs: Seq<GraphView>,
    pub nodes: Map<Seq<char>, TopologyNode>,
    pub total: int,
    pub tasks: Seq<BoundTask>,
    pub failure: Option<HashFailure>,
}

/// The ring that a round places by, and the round's parameters.
pub struct HashPolicy {
    pub names: Seq<Seq<char>>,
    pub replicas: nat,
    pub tolerance: nat,
    pub now: u64,
}

/// The round after partition `p` of stage `s` of job `j` hit the node `name`.
pub open spec fn hit_state(
    st: HashRound,
    j: int,
    s: int,
    p: int,
    name: Seq<char>,
    data_cache: bool,
    now: u64,
) -> HashRound {
    HashRound {
        jobs: st.jobs.update(j, st.jobs[j].bound(s, p, st.nodes[name].id, now)),
        nodes: st.nodes.insert(name, st.nodes[name].taken()),
        total: st.total - 1,
        tasks: st.tasks.push((st.nodes[name].id, st.jobs[j].description(s, p, data_cache))),
        failure: st.failure,
    }
}

/// One pass over a stage from partition `from` on. The pass looks at the
/// first `limit` empty cells; a cell whose key hits a valid node within the
/// tolerance is bound to that node and takes one of its slots. The pass ends
/// when the slots run out, and fails at a cell that has no file.
pub open spec fn hash_pass(
    st: HashRound,
    policy: HashPolicy,
    j: int,
    s: int,
    files: Seq<Vec<String>>,
    tolerance: nat,
    data_cache: bool,
    limit: int,
    considered: int,
    partitions: int,
    from: int,
) -> HashRound
    decreases partitions - from,
{
    if from < 0 || from >= partitions || st.failure is Some || st.total <= 0 || considered >= limit {
        st
    } else if st.jobs[j].stages[s].task_infos[from] is Some {
        hash_pass(st, policy, j, s, files, tolerance, data_cache, limit, considered, partitions, from + 1)
    } else {
        match partition_key(files, from) {
            None => HashRound { failure: Some(HashFailure::AbsentFiles), ..st },
            Some(key) => match ring_lookup(st.nodes, policy.names, policy.replicas, key, tolerance) {
                Some(name) => hash_pass(
                    hit_state(st, j, s, from, name, data_cache, policy.now),
                    policy,
                    j,
                    s,
                    files,
                    tolerance,
                    data_cache,
                    limit,
                    considered + 1,
                    partitions,
                    from + 1,
                ),
                None => hash_pass(
                    st,
                    policy,
                    j,
                    s,
                    files,
                    tolerance,
                    data_cache,
                    limit,
                    considered + 1,
                    partitions,
                    from + 1,
                ),
            },
        }
    }
}

/// One visit of a stage: a pass that binds only to the node that a key hits
/// first and marks those tasks as placed by their data, then a pass with the
/// policy's tolerance.
pub open spec fn hash_stage(st: HashRound, policy: HashPolicy, j: int, s: int, files: Seq<Vec<String>>) -> HashRound {
    let partitions = st.jobs[j].stages[s].task_infos.len() as int;
    let first = hash_pass(st, policy, j, s, files, 0, true, st.total, 0, partitions, 0);
    hash_pass(first, policy, j, s, files, policy.tolerance, false, first.total, 0, partitions, 0)
}

/// A stage is visited again and again while visits bind tasks and it has
/// empty cells.
pub open spec fn hash_stage_repeat(
    st: HashRound,
    policy: HashPolicy,
    j: int,
    s: int,
    files: Seq<Vec<String>>,
) -> HashRound
    decreases st.total,
{
    if st.failure is Some || st.total <= 0 || unbound(st.jobs[j].stages[s].task_infos) == 0 {
        st
    } else {
        let next = hash_stage(st, policy, j, s, files);
        if 0 <= next.total < st.total {
            hash_stage_repeat(next, policy, j, s, files)
        } else {
            next
        }
    }
}

/// What a round does with one stage: nothing if the stage does not run or
/// has no empty cell, or if its plan does not have exactly one scan; else it
/// visits the stage by that scan. The round fails if the extractor failed
/// for the stage.
pub open spec fn hash_stage_turn(
    st: HashRound,
    policy: HashPolicy,
    table: Seq<PlanScan>,
    j: int,
    s: int,
) -> HashRound {
    let stage = st.jobs[j].stages[s];
    if st.failure is Some || st.total <= 0 || !stage.running || unbound(stage.task_infos) == 0 {
        st
    } else {
        match scan_lookup(table, st.jobs[j].job_id@, stage.plan) {
            Err(e) => HashRound { failure: Some(HashFailure::Scan(e)), ..st },
            Ok(scans) => if scans.len() != 1 {
                st
            } else {
                hash_stage_repeat(st, policy, j, s, scans[0]@)
            },
        }
    }
}

/// What a round does with the stages of a job from stage `from` on.
pub open spec fn hash_job(
    st: HashRound,
    policy: HashPolicy,
    table: Seq<PlanScan>,
    j: int,
    stages: int,
    from: int,
) -> HashRound
    decreases stages - from,
{
    if from < 0 || from >= stages {
        st
    } else {
        hash_job(hash_stage_turn(st, policy, table, j, from), policy, table, j, stages, from + 1)
    }
}

/// What a round does with the jobs from job `from` on: it goes through the
/// stages of each running job.
pub open spec fn hash_jobs(
    st: HashRound,
    policy: HashPolicy,
    table: Seq<PlanScan>,
    jobs: int,
    from: int,
) -> HashRound
    decreases jobs - from,
{
    if from < 0 || from >= jobs {
        st
    } else if st.jobs[from].status == JobStatus::Running {
        hash_jobs(
            hash_job(st, policy, table, from, st.jobs[from].stages.len() as int, 0),
            policy,
            table,
            jobs,
            from + 1,
        )
    } else {
        hash_jobs(st, policy, table, jobs, from + 1)
    }
}

/// The free slots of the first `upto` nodes together.
pub open spec fn total_slots(nodes: Seq<TopologyNode>, upto: int) -> int
    decreases upto,
{
    if upto <= 0 {
        0
    } else {
        total_slots(nodes, upto - 1) + nodes[upto - 1].available_slots
    }
}

/// What a consistent-hash round over `jobs` comes to, on a ring of `nodes`
/// with `num_replicas` points each.
pub open spec fn hash_round(
    jobs: Seq<GraphView>,
    nodes: Seq<TopologyNode>,
    num_replicas: nat,
    tolerance: nat,
    table: Seq<PlanScan>,
    now: u64,
) -> HashRound {
    hash_jobs(
        HashRound {
            jobs,
            nodes: nodes_by_name(nodes, nodes.len() as int),
            total: total_slots(nodes, nodes.len() as int),
            tasks: Seq::empty(),
            failure: None,
        },
        HashPolicy { names: names_of(nodes), replicas: num_replicas, tolerance, now },
        table,
        jobs.len() as int,
        0,
    )
}

/// A round that has failed or has no slot left does nothing more.
pub proof fn lemma_idle_job(
    st: HashRound,
    policy: HashPolicy,
    table: Seq<PlanScan>,
    j: int,
    stages: int,
    from: int,
)
    requires
        st.failure is Some || st.total <= 0,
    ensures
        hash_job(st, policy, table, j, stages, from) == st,
    decreases stages - from,
{
    if !(from < 0 || from >= stages) {
        lemma_idle_job(st, policy, table, j, stages, from + 1);
    }
}

/// A round that has failed or has no slot left does nothing more.
pub proof fn lemma_idle_jobs(st: HashRound, policy: HashPolicy, table: Seq<PlanScan>, jobs: int, from: int)
    requires
        st.failure is Some || st.total <= 0,
    ensures
        hash_jobs(st, policy, table, jobs, from) == st,
    decreases jobs - from,
{
    if !(from < 0 || from >= jobs) {
        lemma_idle_job(st, policy, table, from, st.jobs[from].stages.len() as int, 0);
        lemma_idle_jobs(st, policy, table, jobs, from + 1);
    }
}

/// Stages that do not run or have no empty cell are passed over.
pub proof fn lemma_pass_over(
    st: HashRound,
    policy: HashPolicy,
    table: Seq<PlanScan>,
    j: int,
    stages: int,
    from: int,
    to: int,
)
    requires
        0 <= from <= to <= stages,
        forall|t: int|
            from <= t < to ==> !(#[trigger] st.jobs[j].stages[t]).running || unbound(
                st.jobs[j].stages[t].task_infos,
            ) == 0,
    ensures
        hash_job(st, policy, table, j, stages, from) == hash_job(st, policy, table, j, stages, to),
    decreases to - from,
{
    if from < to {
        lemma_pass_over(st, policy, table, j, stages, from + 1, to);
    }
}

/// Two views of a stage differ at most in the cells of the task table and in
/// the task id generator.
pub open spec fn same_identity(before: StageView, after: StageView) -> bool {
    &&& after.stage_id == before.stage_id
    &&& after.stage_attempt_num == before.stage_attempt_num
    &&& after.plan == before.plan
    &&& after.running == before.running
    &&& after.task_failure_numbers == before.task_failure_numbers
    &&& after.task_infos.len() == before.task_infos.len()
}

/// An error is the one that a round's failure stands for.
pub open spec fn failure_matches(failure: Option<HashFailure>, e: BallistaError) -> bool {
    match failure {
        Some(HashFailure::Scan(x)) => e == x,
        Some(HashFailure::AbsentFiles) => e is InvalidState && e.text()
            == "a partition has no file to place it by"@,
        None => false,
    }
}

/// No two nodes are of one executor.
pub open spec fn ids_distinct(nodes: Map<Seq<char>, TopologyNode>) -> bool {
    forall|a: Seq<char>, b: Seq<char>|
        nodes.contains_key(a) && nodes.contains_key(b) && a != b ==> (#[trigger] nodes[a]).id@ != (
        #[trigger] nodes[b]).id@
}

/// Every slot that a node has lost since `before` is a task bound to its
/// executor since: for each node, the free slots and the tasks bound to its
/// executor add up to what they were.
pub open spec fn balanced(
    before: Map<Seq<char>, TopologyNode>,
    tasks_before: Seq<BoundTask>,
    after: Map<Seq<char>, TopologyNode>,
    tasks_after: Seq<BoundTask>,
) -> bool {
    forall|name: Seq<char>| #[trigger]
        before.contains_key(name) ==> after[name].available_slots + bound_to(
            tasks_after,
            before[name].id@,
            tasks_after.len() as int,
        ) == before[name].available_slots + bound_to(
            tasks_before,
            before[name].id@,
            tasks_before.len() as int,
        )
}

/// A stage takes part in a consistent-hash round if its job runs, the stage
/// runs, and the extractor gives exactly one scan for its plan.
pub open spec fn placed_by_hash(graph: GraphView, s: int, table: Seq<PlanScan>) -> bool {
    &&& graph.status == JobStatus::Running
    &&& graph.stages[s].running
    &&& match scan_lookup(table, graph.job_id@, graph.stages[s].plan) {
        Ok(scans) => scans.len() == 1,
        Err(_) => false,
    }
}

/// The stages that take no part in a consistent-hash round are as they were.
pub open spec fn spared_by_hash(before: Seq<GraphView>, after: Seq<GraphView>, table: Seq<PlanScan>) -> bool {
    forall|j: int, s: int|
        0 <= j < before.len() && 0 <= s < before[j].stages.len() && !placed_by_hash(
            before[j],
            s,
            table,
        ) ==> #[trigger] after[j].stages[s] == before[j].stages[s]
}

/// What a round started from.
pub struct RoundStart {
    pub jobs: Seq<GraphView>,
    pub nodes: Map<Seq<char>, TopologyNode>,
    pub table: Seq<PlanScan>,
}

/// With the ring holding `nodes`, the key of a task's partition hits, without
/// tolerance, the node of the task's executor.
pub open spec fn hits_first(
    policy: HashPolicy,
    start: RoundStart,
    nodes: Map<Seq<char>, TopologyNode>,
    key: Seq<u8>,
    task: BoundTask,
) -> bool {
    &&& shrunk(start.nodes, nodes)
    &&& match scan_lookup(start.table, task.1.partition.job_id@, task.1.plan) {
        Ok(scans) => scans.len() == 1 && partition_key(scans[0]@, task.1.partition.partition_id as int)
            == Some(key),
        Err(_) => false,
    }
    &&& ring_lookup(nodes, policy.names, policy.replicas, key, 0) is Some
    &&& nodes[ring_lookup(nodes, policy.names, policy.replicas, key, 0)->0].id == task.0
}

/// A task that is marked as placed by its data was bound to the node that
/// the key of its partition hit without tolerance, at some point of the
/// round.
pub open spec fn primary_hit(policy: HashPolicy, start: RoundStart, task: BoundTask) -> bool {
    task.1.data_cache ==> exists|nodes: Map<Seq<char>, TopologyNode>, key: Seq<u8>| #[trigger]
        hits_first(policy, start, nodes, key, task)
}

/// Every task of a list that is marked as placed by its data was.
pub open spec fn all_primary(policy: HashPolicy, start: RoundStart, tasks: Seq<BoundTask>) -> bool {
    forall|k: int| 0 <= k < tasks.len() ==> primary_hit(policy, start, #[trigger] tasks[k])
}

/// The state of a round that has not failed.
pub open spec fn round_state(
    jobs: Seq<GraphView>,
    nodes: Map<Seq<char>, TopologyNode>,
    total: int,
    tasks: Seq<BoundTask>,
) -> HashRound {
    HashRound { jobs, nodes, total, tasks, failure: None }
}

/// The free slots of a list of nodes together.
fn count_slots(nodes: &Vec<TopologyNode>) -> (total: u128)
    ensures
        total == total_slots(nodes@, nodes@.len() as int),
{
    let mut total: u128 = 0;
    let mut i: usize = 0;
    while i < nodes.len()
        invariant
            i <= nodes.len(),
            total == total_slots(nodes@, i as int),
            total <= i * 0xffff_ffff,
        decreases nodes.len() - i,
    {
        total = total + nodes[i].available_slots as u128;
        i = i + 1;
    }
    total
}

/// One pass over a stage; see `hash_pass`.
fn run_pass(
    jobs: &mut Vec<ExecutionGraph>,
    j: usize,
    s: usize,
    ring: &mut HashRing,
    total: &mut u128,
    tasks: &mut Vec<BoundTask>,
    files: &Vec<Vec<String>>,
    tolerance: usize,
    data_cache: bool,
    now: u64,
    Ghost(policy): Ghost<HashPolicy>,
    Ghost(start): Ghost<RoundStart>,
) -> (result: Result<(), BallistaError>)
    requires
        jobs_wf(graph_views(old(jobs)@)),
        j < old(jobs)@.len(),
        s < graph_views(old(jobs)@)[j as int].stages.len(),
        old(ring).wf(),
        old(ring).names() == policy.names,
        old(ring).replicas() == policy.replicas,
        policy.now == now,
        all_recorded(start.jobs, graph_views(old(jobs)@), old(tasks)@, now),
        spared_by_hash(start.jobs, graph_views(old(jobs)@), start.table),
        shrunk(start.nodes, old(ring).nodes()),
        all_primary(policy, start, old(tasks)@),
        scan_lookup(
            start.table,
            graph_views(old(jobs)@)[j as int].job_id@,
            graph_views(old(jobs)@)[j as int].stages[s as int].plan,
        ) matches Ok(scans) && scans.len() == 1 && scans[0] == *files,
        data_cache ==> tolerance == 0,
        graph_views(old(jobs)@)[j as int].status == JobStatus::Running,
        graph_views(old(jobs)@)[j as int].stages[s as int].running,
    ensures
        all_recorded(start.jobs, graph_views(final(jobs)@), final(tasks)@, now),
        spared_by_hash(start.jobs, graph_views(final(jobs)@), start.table),
        all_primary(policy, start, final(tasks)@),
        jobs_wf(graph_views(final(jobs)@)),
        final(ring).wf(),
        final(ring).names() == policy.names,
        final(ring).replicas() == policy.replicas,
        same_but_job(graph_views(old(jobs)@), graph_views(final(jobs)@), j as int),
        same_but_stage(graph_views(old(jobs)@)[j as int], graph_views(final(jobs)@)[j as int], s as int),
        same_identity(
            graph_views(old(jobs)@)[j as int].stages[s as int],
            graph_views(final(jobs)@)[j as int].stages[s as int],
        ),
        *final(total) <= *old(total),
        shrunk(old(ring).nodes(), final(ring).nodes()),
        ids_distinct(old(ring).nodes()) ==> balanced(
            old(ring).nodes(),
            old(tasks)@,
            final(ring).nodes(),
            final(tasks)@,
        ),
        ({
            let begin = round_state(graph_views(old(jobs)@), old(ring).nodes(), *old(total) as int, old(tasks)@);
            let target = hash_pass(
                begin,
                policy,
                j as int,
                s as int,
                files@,
                tolerance as nat,
                data_cache,
                *old(total) as int,
                0,
                begin.jobs[j as int].stages[s as int].task_infos.len() as int,
                0,
            );
            match result {
                Ok(_) => target == round_state(
                    graph_views(final(jobs)@),
                    final(ring).nodes(),
                    *final(total) as int,
                    final(tasks)@,
                ),
                Err(e) => target.failure == Some(HashFailure::AbsentFiles) && failure_matches(
                    target.failure,
                    e,
                ),
            }
        }),
{
    let ghost begin = round_state(graph_views(jobs@), ring.nodes(), *total as int, tasks@);
    let partitions = jobs[j].stage(s).partitions();
    let limit: u128 = *total;
    let ghost target = hash_pass(
        begin,
        policy,
        j as int,
        s as int,
        files@,
        tolerance as nat,
        data_cache,
        limit as int,
        0,
        partitions as int,
        0,
    );
    let mut considered: usize = 0;
    let mut p: usize = 0;
    while p < partitions
        invariant
            p <= partitions,
            considered <= p,
            j < jobs@.len(),
            s < graph_views(jobs@)[j as int].stages.len(),
            jobs_wf(graph_views(jobs@)),
            ring.wf(),
            ring.names() == policy.names,
            ring.replicas() == policy.replicas,
            policy.now == now,
            all_recorded(start.jobs, graph_views(jobs@), tasks@, now),
            spared_by_hash(start.jobs, graph_views(jobs@), start.table),
            shrunk(start.nodes, ring.nodes()),
            all_primary(policy, start, tasks@),
            same_but_job(graph_views(old(jobs)@), graph_views(jobs@), j as int),
            same_but_stage(graph_views(old(jobs)@)[j as int], graph_views(jobs@)[j as int], s as int),
            same_identity(
                graph_views(old(jobs)@)[j as int].stages[s as int],
                graph_views(jobs@)[j as int].stages[s as int],
            ),
            *total <= *old(total),
            shrunk(old(ring).nodes(), ring.nodes()),
            ids_distinct(old(ring).nodes()) ==> balanced(old(ring).nodes(), old(tasks)@, ring.nodes(), tasks@),
            graph_views(jobs@)[j as int].stages[s as int].task_infos.len() == partitions,
            graph_views(old(jobs)@)[j as int].stages[s as int].task_infos.len() == partitions,
            limit == *old(total),
            graph_views(jobs@)[j as int].status == JobStatus::Running,
            graph_views(jobs@)[j as int].stages[s as int].running,
            data_cache ==> tolerance == 0,
            scan_lookup(
                start.table,
                graph_views(jobs@)[j as int].job_id@,
                graph_views(jobs@)[j as int].stages[s as int].plan,
            ) matches Ok(scans) && scans.len() == 1 && scans[0] == *files,
            target == hash_pass(
                round_state(graph_views(old(jobs)@), old(ring).nodes(), *old(total) as int, old(tasks)@),
                policy,
                j as int,
                s as int,
                files@,
                tolerance as nat,
                data_cache,
                limit as int,
                0,
                partitions as int,
                0,
            ),
            target == hash_pass(
                round_state(graph_views(jobs@), ring.nodes(), *total as int, tasks@),
                policy,
                j as int,
                s as int,
                files@,
                tolerance as nat,
                data_cache,
                limit as int,
                considered as int,
                partitions as int,
                p as int,
            ),
        decreases partitions - p,
    {
        if *total == 0 || considered as u128 >= limit {
            return Ok(());
        }
        if jobs[j].stage(s).is_unbound(p) {
            if p >= files.len() || files[p].len() == 0 {
                return Err(BallistaError::InvalidState("a partition has no file to place it by".to_string()));
            }
            let key = files[p][0].as_str().as_bytes();
            considered = considered + 1;
            let ghost before = graph_views(jobs@);
            let ghost nodes_before = ring.nodes();
            match ring.take_slot(key, tolerance) {
                Some(executor_id) => {
                    proof {
                        lemma_recorded_step(
                            start.jobs,
                            before,
                            tasks@,
                            now,
                            j as int,
                            s as int,
                            p as int,
                            executor_id,
                            data_cache,
                        );
                    }
                    let graph = &mut jobs[j];
                    let task = graph.bind_task(s, p, &executor_id, data_cache, now);
                    let ghost tasks_before = tasks@;
                    proof {
                        if data_cache {
                            assert(hits_first(policy, start, nodes_before, key@, (executor_id, task)));
                        }
                    }
                    tasks.push((executor_id, task));
                    *total = *total - 1;
                    proof {
                        if ids_distinct(old(ring).nodes()) {
                            assert forall|other: Seq<char>| #[trigger]
                                old(ring).nodes().contains_key(other) implies ring.nodes()[other].available_slots
                                + bound_to(tasks@, old(ring).nodes()[other].id@, tasks@.len() as int)
                                == old(ring).nodes()[other].available_slots + bound_to(
                                old(tasks)@,
                                old(ring).nodes()[other].id@,
                                old(tasks)@.len() as int,
                            ) by {
                                lemma_bound_to_push(
                                    tasks_before,
                                    (executor_id, task),
                                    old(ring).nodes()[other].id@,
                                    tasks_before.len() as int,
                                );
                            }
                        }
                        let after = graph_views(jobs@);
                        assert(after =~= before.update(
                            j as int,
                            before[j as int].bound(s as int, p as int, executor_id, now),
                        ));
                    }
                },
                None => {},
            }
        }
        p = p + 1;
    }
    Ok(())
}

/// One visit of a stage; see `hash_stage`.
fn run_stage(
    jobs: &mut Vec<ExecutionGraph>,
    j: usize,
    s: usize,
    ring: &mut HashRing,
    total: &mut u128,
    tasks: &mut Vec<BoundTask>,
    files: &Vec<Vec<String>>,
    tolerance: usize,
    now: u64,
    Ghost(policy): Ghost<HashPolicy>,
    Ghost(start): Ghost<RoundStart>,
) -> (result: Result<(), BallistaError>)
    requires
        jobs_wf(graph_views(old(jobs)@)),
        j < old(jobs)@.len(),
        s < graph_views(old(jobs)@)[j as int].stages.len(),
        old(ring).wf(),
        old(ring).names() == policy.names,
        old(ring).replicas() == policy.replicas,
        policy.now == now,
        policy.tolerance == tolerance,
        all_recorded(start.jobs, graph_views(old(jobs)@), old(tasks)@, now),
        spared_by_hash(start.jobs, graph_views(old(jobs)@), start.table),
        shrunk(start.nodes, old(ring).nodes()),
        all_primary(policy, start, old(tasks)@),
        scan_lookup(
            start.table,
            graph_views(old(jobs)@)[j as int].job_id@,
            graph_views(old(jobs)@)[j as int].stages[s as int].plan,
        ) matches Ok(scans) && scans.len() == 1 && scans[0] == *files,
        graph_views(old(jobs)@)[j as int].status == JobStatus::Running,
        graph_views(old(jobs)@)[j as int].stages[s as int].running,
    ensures
        all_recorded(start.jobs, graph_views(final(jobs)@), final(tasks)@, now),
        spared_by_hash(start.jobs, graph_views(final(jobs)@), start.table),
        all_primary(policy, start, final(tasks)@),
        jobs_wf(graph_views(final(jobs)@)),
        final(ring).wf(),
        final(ring).names() == policy.names,
        final(ring).replicas() == policy.replicas,
        same_but_job(graph_views(old(jobs)@), graph_views(final(jobs)@), j as int),
        same_but_stage(graph_views(old(jobs)@)[j as int], graph_views(final(jobs)@)[j as int], s as int),
        same_identity(
            graph_views(old(jobs)@)[j as int].stages[s as int],
            graph_views(final(jobs)@)[j as int].stages[s as int],
        ),
        *final(total) <= *old(total),
        shrunk(old(ring).nodes(), final(ring).nodes()),
        ids_distinct(old(ring).nodes()) ==> balanced(
            old(ring).nodes(),
            old(tasks)@,
            final(ring).nodes(),
            final(tasks)@,
        ),
        ({
            let begin = round_state(graph_views(old(jobs)@), old(ring).nodes(), *old(total) as int, old(tasks)@);
            let target = hash_stage(begin, policy, j as int, s as int, files@);
            match result {
                Ok(_) => target == round_state(
                    graph_views(final(jobs)@),
                    final(ring).nodes(),
                    *final(total) as int,
                    final(tasks)@,
                ),
                Err(e) => target.failure == Some(HashFailure::AbsentFiles) && failure_matches(
                    target.failure,
                    e,
                ),
            }
        }),
{
    match run_pass(jobs, j, s, ring, total, tasks, files, 0, true, now, Ghost(policy), Ghost(start)) {
        Ok(_) => {},
        Err(e) => {
            return Err(e);
        },
    }
    let result = run_pass(jobs, j, s, ring, total, tasks, files, tolerance, false, now, Ghost(policy), Ghost(start));
    result
}

/// The stages of one job; see `hash_job`.
fn run_job(
    jobs: &mut Vec<ExecutionGraph>,
    j: usize,
    ring: &mut HashRing,
    total: &mut u128,
    tasks: &mut Vec<BoundTask>,
    table: &Vec<PlanScan>,
    tolerance: usize,
    now: u64,
    Ghost(policy): Ghost<HashPolicy>,
    Ghost(start): Ghost<RoundStart>,
) -> (result: Result<(), BallistaError>)
    requires
        jobs_wf(graph_views(old(jobs)@)),
        j < old(jobs)@.len(),
        old(ring).wf(),
        old(ring).names() == policy.names,
        old(ring).replicas() == policy.replicas,
        policy.now == now,
        policy.tolerance == tolerance,
        all_recorded(start.jobs, graph_views(old(jobs)@), old(tasks)@, now),
        spared_by_hash(start.jobs, graph_views(old(jobs)@), start.table),
        shrunk(start.nodes, old(ring).nodes()),
        all_primary(policy, start, old(tasks)@),
        start.table == table@,
        graph_views(old(jobs)@)[j as int].status == JobStatus::Running,
    ensures
        all_recorded(start.jobs, graph_views(final(jobs)@), final(tasks)@, now),
        spared_by_hash(start.jobs, graph_views(final(jobs)@), start.table),
        all_primary(policy, start, final(tasks)@),
        jobs_wf(graph_views(final(jobs)@)),
        final(ring).wf(),
        final(ring).names() == policy.names,
        final(ring).replicas() == policy.replicas,
        graph_views(final(jobs)@).len() == graph_views(old(jobs)@).len(),
        shrunk(old(ring).nodes(), final(ring).nodes()),
        ids_distinct(old(ring).nodes()) ==> balanced(
            old(ring).nodes(),
            old(tasks)@,
            final(ring).nodes(),
            final(tasks)@,
        ),
        ({
            let begin = round_state(graph_views(old(jobs)@), old(ring).nodes(), *old(total) as int, old(tasks)@);
            let target = hash_job(
                begin,
                policy,
                table@,
                j as int,
                begin.jobs[j as int].stages.len() as int,
                0,
            );
            match result {
                Ok(_) => target == round_state(
                    graph_views(final(jobs)@),
                    final(ring).nodes(),
                    *final(total) as int,
                    final(tasks)@,
                ),
                Err(e) => failure_matches(target.failure, e),
            }
        }),
{
    let stages = jobs[j].stage_count();
    let ghost begin = round_state(graph_views(jobs@), ring.nodes(), *total as int, tasks@);
    let ghost target = hash_job(begin, policy, table@, j as int, stages as int, 0);
    let mut black_list: Vec<usize> = Vec::new();
    let ghost mut lo: int = 0;
    loop
        invariant
            j < jobs@.len(),
            jobs_wf(graph_views(jobs@)),
            ring.wf(),
            ring.names() == policy.names,
            ring.replicas() == policy.replicas,
            policy.now == now,
            all_recorded(start.jobs, graph_views(jobs@), tasks@, now),
            spared_by_hash(start.jobs, graph_views(jobs@), start.table),
            shrunk(start.nodes, ring.nodes()),
            all_primary(policy, start, tasks@),
            policy.tolerance == tolerance,
            start.table == table@,
            graph_views(jobs@).len() == graph_views(old(jobs)@).len(),
            shrunk(old(ring).nodes(), ring.nodes()),
            ids_distinct(old(ring).nodes()) ==> balanced(old(ring).nodes(), old(tasks)@, ring.nodes(), tasks@),
            graph_views(jobs@)[j as int].stages.len() == stages,
            graph_views(jobs@)[j as int].status == JobStatus::Running,
            graph_views(old(jobs)@)[j as int].stages.len() == stages,
            0 <= lo <= stages,
            target == hash_job(
                round_state(graph_views(old(jobs)@), old(ring).nodes(), *old(total) as int, old(tasks)@),
                policy,
                table@,
                j as int,
                stages as int,
                0,
            ),
            target == hash_job(
                round_state(graph_views(jobs@), ring.nodes(), *total as int, tasks@),
                policy,
                table@,
                j as int,
                stages as int,
                lo,
            ),
            forall|t: int|
                lo <= t < stages ==> !black_list@.contains(
                    (#[trigger] graph_views(jobs@)[j as int].stages[t]).stage_id,
                ),
            forall|t: int|
                0 <= t < lo ==> !(#[trigger] graph_views(jobs@)[j as int].stages[t]).available(
                    black_list@,
                ),
        decreases stages - lo, *total,
    {
        let ghost st = round_state(graph_views(jobs@), ring.nodes(), *total as int, tasks@);
        let ghost current = graph_views(jobs@)[j as int];
        if *total == 0 {
            proof {
                lemma_idle_job(st, policy, table@, j as int, stages as int, lo);
            }
            return Ok(());
        }
        let found = jobs[j].fetch_running_stage(&black_list);
        let s = match found {
            Some(s) => s,
            None => {
                proof {
                    lemma_pass_over(st, policy, table@, j as int, stages as int, lo, stages as int);
                }
                return Ok(());
            },
        };
        proof {
            lemma_pass_over(st, policy, table@, j as int, stages as int, lo, s as int);
        }
        let stage = jobs[j].stage(s);
        let stage_id = stage.stage_id();
        let plan = stage.plan();
        let scans: &Vec<Vec<Vec<String>>> = match find_scan(table, jobs[j].job_id(), plan) {
            None => {
                proof {
                    list_stage(black_list@, current, s as int);
                }
                black_list.push(stage_id);
                proof {
                    lo = s + 1;
                }
                continue ;
            },
            Some(i) => match &table[i].files {
                Err(e) => {
                    proof {
                        let failed = hash_stage_turn(st, policy, table@, j as int, s as int);
                        lemma_idle_job(failed, policy, table@, j as int, stages as int, s + 1);
                    }
                    return Err(e.duplicate());
                },
                Ok(scans) => scans,
            },
        };
        if is_skip_consistent_hash(scans) {
            proof {
                list_stage(black_list@, current, s as int);
            }
            black_list.push(stage_id);
            proof {
                lo = s + 1;
            }
            continue ;
        }
        let before_total = *total;
        let result = run_stage(jobs, j, s, ring, total, tasks, &scans[0], tolerance, now, Ghost(policy), Ghost(start));
        let ghost after = graph_views(jobs@)[j as int];
        match result {
            Err(e) => {
                proof {
                    let failed = hash_stage(st, policy, j as int, s as int, scans@[0]@);
                    assert(hash_stage_repeat(failed, policy, j as int, s as int, scans@[0]@) == failed);
                    lemma_idle_job(failed, policy, table@, j as int, stages as int, s + 1);
                }
                return Err(e);
            },
            Ok(_) => {},
        }
        if *total == before_total {
            proof {
                list_stage(black_list@, after, s as int);
            }
            black_list.push(stage_id);
            proof {
                lo = s + 1;
            }
        } else {
            proof {
                lo = s as int;
            }
        }
    }
}

/// Listing a stage's id leaves the later stages unlisted, and keeps every
/// stage up to it from being handed out.
proof fn list_stage(black_list: Seq<usize>, graph: GraphView, s: int)
    requires
        graph.wf(),
        0 <= s < graph.stages.len(),
        forall|t: int| s <= t < graph.stages.len() ==> !black_list.contains((#[trigger] graph.stages[t]).stage_id),
        forall|t: int| 0 <= t < s ==> !(#[trigger] graph.stages[t]).available(black_list),
    ensures
        forall|t: int|
            s < t < graph.stages.len() ==> !black_list.push(graph.stages[s].stage_id).contains(
                (#[trigger] graph.stages[t]).stage_id,
            ),
        forall|t: int|
            0 <= t <= s ==> !(#[trigger] graph.stages[t]).available(
                black_list.push(graph.stages[s].stage_id),
            ),
{
    let listed = black_list.push(graph.stages[s].stage_id);
    assert forall|t: int| 0 <= t <= s implies !(#[trigger] graph.stages[t]).available(listed) by {
        if t == s {
            assert(listed[black_list.len() as int] == graph.stages[s].stage_id);
        } else if black_list.contains(graph.stages[t].stage_id) {
            let i = choose|i: int| 0 <= i < black_list.len() && black_list[i] == graph.stages[t].stage_id;
            assert(listed[i] == graph.stages[t].stage_id);
        }
    }
}

/// The jobs of a round; see `hash_jobs`.
fn run_jobs(
    jobs: &mut Vec<ExecutionGraph>,
    ring: &mut HashRing,
    total: &mut u128,
    tasks: &mut Vec<BoundTask>,
    table: &Vec<PlanScan>,
    tolerance: usize,
    now: u64,
    Ghost(policy): Ghost<HashPolicy>,
    Ghost(start): Ghost<RoundStart>,
) -> (result: Result<(), BallistaError>)
    requires
        jobs_wf(graph_views(old(jobs)@)),
        old(ring).wf(),
        old(ring).names() == policy.names,
        old(ring).replicas() == policy.replicas,
        policy.now == now,
        policy.tolerance == tolerance,
        all_recorded(start.jobs, graph_views(old(jobs)@), old(tasks)@, now),
        spared_by_hash(start.jobs, graph_views(old(jobs)@), start.table),
        shrunk(start.nodes, old(ring).nodes()),
        all_primary(policy, start, old(tasks)@),
        start.table == table@,
    ensures
        all_recorded(start.jobs, graph_views(final(jobs)@), final(tasks)@, now),
        spared_by_hash(start.jobs, graph_views(final(jobs)@), start.table),
        all_primary(policy, start, final(tasks)@),
        final(ring).names() == policy.names,
        final(ring).replicas() == policy.replicas,
        shrunk(old(ring).nodes(), final(ring).nodes()),
        ids_distinct(old(ring).nodes()) ==> balanced(
            old(ring).nodes(),
            old(tasks)@,
            final(ring).nodes(),
            final(tasks)@,
        ),
        ({
            let begin = round_state(graph_views(old(jobs)@), old(ring).nodes(), *old(total) as int, old(tasks)@);
            let target = hash_jobs(begin, policy, table@, begin.jobs.len() as int, 0);
            match result {
                Ok(_) => {
                    &&& jobs_wf(graph_views(final(jobs)@))
                    &&& final(ring).wf()
                    &&& target == round_state(
                        graph_views(final(jobs)@),
                        final(ring).nodes(),
                        *final(total) as int,
                        final(tasks)@,
                    )
                },
                Err(e) => failure_matches(target.failure, e),
            }
        }),
{
    let count = jobs.len();
    let ghost begin = round_state(graph_views(jobs@), ring.nodes(), *total as int, tasks@);
    let ghost target = hash_jobs(begin, policy, table@, count as int, 0);
    let mut j: usize = 0;
    while j < count
        invariant
            j <= count,
            count == jobs@.len(),
            count == graph_views(old(jobs)@).len(),
            shrunk(old(ring).nodes(), ring.nodes()),
            ids_distinct(old(ring).nodes()) ==> balanced(old(ring).nodes(), old(tasks)@, ring.nodes(), tasks@),
            jobs_wf(graph_views(jobs@)),
            ring.wf(),
            ring.names() == policy.names,
            ring.replicas() == policy.replicas,
            policy.now == now,
            all_recorded(start.jobs, graph_views(jobs@), tasks@, now),
            spared_by_hash(start.jobs, graph_views(jobs@), start.table),
            shrunk(start.nodes, ring.nodes()),
            all_primary(policy, start, tasks@),
            policy.tolerance == tolerance,
            start.table == table@,
            target == hash_jobs(
                round_state(graph_views(old(jobs)@), old(ring).nodes(), *old(total) as int, old(tasks)@),
                policy,
                table@,
                count as int,
                0,
            ),
            target == hash_jobs(
                round_state(graph_views(jobs@), ring.nodes(), *total as int, tasks@),
                policy,
                table@,
                count as int,
                j as int,
            ),
        decreases count - j,
    {
        if jobs[j].status() == JobStatus::Running {
            let ghost st = round_state(graph_views(jobs@), ring.nodes(), *total as int, tasks@);
            match run_job(jobs, j, ring, total, tasks, table, tolerance, now, Ghost(policy), Ghost(start)) {
                Ok(_) => {},
                Err(e) => {
                    proof {
                        let failed = hash_job(
                            st,
                            policy,
                            table@,
                            j as int,
                            st.jobs[j as int].stages.len() as int,
                            0,
                        );
                        lemma_idle_jobs(failed, policy, table@, count as int, j + 1);
                    }
                    return Err(e);
                },
            }
        }
        j = j + 1;
    }
    Ok(())
}

/// Binds runnable tasks to executors by consistent hashing: a task goes to
/// the node that the path of its partition's first file hits on a ring of
/// the nodes, first without tolerance, then within `tolerance`. `scan_files`
/// holds what the scan-file extractor gives for the plans; `now` is the time
/// written into the task table. Returns the tasks bound and the ring with the
/// slots that are left, or no ring where the nodes have no free slot. Where
/// the round fails, the jobs stay as they were.
pub fn bind_task_consistent_hash(
    topology_nodes: Vec<TopologyNode>,
    num_replicas: usize,
    tolerance: usize,
    active_jobs: &mut Vec<ExecutionGraph>,
    scan_files: &Vec<PlanScan>,
    now: u64,
) -> (result: Result<(Vec<BoundTask>, Option<HashRing>), BallistaError>)
    requires
        jobs_wf(graph_views(old(active_jobs)@)),
    ensures
        jobs_wf(graph_views(final(active_jobs)@)),
        ({
            let outcome = hash_round(
                graph_views(old(active_jobs)@),
                topology_nodes@,
                num_replicas as nat,
                tolerance as nat,
                scan_files@,
                now,
            );
            match result {
                Ok((tasks, ring)) => {
                    &&& outcome.failure is None
                    &&& tasks@ == outcome.tasks
                    &&& graph_views(final(active_jobs)@) == outcome.jobs
                    &&& all_recorded(
                        graph_views(old(active_jobs)@),
                        graph_views(final(active_jobs)@),
                        tasks@,
                        now,
                    )
                    &&& spared_by_hash(
                        graph_views(old(active_jobs)@),
                        graph_views(final(active_jobs)@),
                        scan_files@,
                    )
                    &&& all_primary(
                        HashPolicy {
                            names: names_of(topology_nodes@),
                            replicas: num_replicas as nat,
                            tolerance: tolerance as nat,
                            now,
                        },
                        RoundStart {
                            jobs: graph_views(old(active_jobs)@),
                            nodes: nodes_by_name(topology_nodes@, topology_nodes@.len() as int),
                            table: scan_files@,
                        },
                        tasks@,
                    )
                    &&& match ring {
                        Some(ring) => {
                            &&& total_slots(topology_nodes@, topology_nodes@.len() as int) > 0
                            &&& ring.wf()
                            &&& ring.nodes() == outcome.nodes
                            &&& ring.names() == names_of(topology_nodes@)
                            &&& ring.replicas() == num_replicas
                            &&& shrunk(
                                nodes_by_name(topology_nodes@, topology_nodes@.len() as int),
                                ring.nodes(),
                            )
                            &&& ids_distinct(nodes_by_name(topology_nodes@, topology_nodes@.len() as int))
                                ==> balanced(
                                nodes_by_name(topology_nodes@, topology_nodes@.len() as int),
                                Seq::empty(),
                                ring.nodes(),
                                tasks@,
                            )
                        },
                        None => total_slots(topology_nodes@, topology_nodes@.len() as int) == 0,
                    }
                },
                Err(e) => {
                    &&& failure_matches(outcome.failure, e)
                    &&& graph_views(final(active_jobs)@) == graph_views(old(active_jobs)@)
                },
            }
        }),
{
    let ghost policy = HashPolicy {
        names: names_of(topology_nodes@),
        replicas: num_replicas as nat,
        tolerance: tolerance as nat,
        now,
    };
    let mut total = count_slots(&topology_nodes);
    let mut tasks: Vec<BoundTask> = Vec::new();
    if total == 0 {
        proof {
            lemma_idle_jobs(
                HashRound {
                    jobs: graph_views(active_jobs@),
                    nodes: nodes_by_name(topology_nodes@, topology_nodes@.len() as int),
                    total: 0,
                    tasks: Seq::empty(),
                    failure: None,
                },
                policy,
                scan_files@,
                graph_views(active_jobs@).len() as int,
                0,
            );
        }
        return Ok((tasks, None));
    }
    let mut ring = HashRing::new(topology_nodes, num_replicas);
    let mut jobs = duplicate_jobs(active_jobs);
    let ghost start = RoundStart { jobs: graph_views(active_jobs@), nodes: ring.nodes(), table: scan_files@ };
    match run_jobs(&mut jobs, &mut ring, &mut total, &mut tasks, scan_files, tolerance, now, Ghost(policy), Ghost(start)) {
        Ok(_) => {
            *active_jobs = jobs;
            Ok((tasks, Some(ring)))
        },
        Err(e) => Err(e),
    }
}

} // verus!
