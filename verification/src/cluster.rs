use vstd::prelude::*;
use crate::binding::{bind_task_bias, bind_task_round_robin};
use crate::config::TaskDistributionPolicy;
use crate::consistent_hash::{
    bind_task_consistent_hash, failure_matches, hash_round, lemma_idle_jobs, HashPolicy, HashRound,
    PlanScan,
};
use crate::error::BallistaError;
use crate::graph::{graph_views, jobs_wf, BoundTask, ExecutionGraph, GraphView, PlanHandle};
use crate::ring::{
    lemma_nodes_by_name, names_of, network_name, nodes_by_name, shrunk, HashRing, TopologyNode,
};
use crate::slots::{bias_assignment, round_robin_assignment, AvailableTaskSlots, ExecutorSlot};
use crate::work::round_outcome;

verus! {

/// What an executor says of itself when it registers.
#[derive(Debug)]
pub struct ExecutorSpecification {
    pub task_slots: u32,
}

/// Where an executor is reached and what it can take.
#[derive(Debug)]
pub struct ExecutorMetadata {
    pub id: String,
    pub host: String,
    pub port: u16,
    pub grpc_port: u16,
    pub specification: ExecutorSpecification,
}

/// The last sign of life of an executor.
#[derive(Debug)]
pub struct ExecutorHeartbeat {
    pub executor_id: String,
    pub timestamp: u64,
}

/// The task slots of a registered executor: how many are free, of how many.
#[derive(Debug)]
pub struct SlotCount {
    pub available: u32,
    pub capacity: u32,
}

/// All that the cluster state holds of one executor.
#[derive(Debug)]
pub struct ExecutorRecord {
    pub executor_id: String,
    pub metadata: Option<ExecutorMetadata>,
    pub heartbeat: Option<ExecutorHeartbeat>,
    pub slots: Option<SlotCount>,
}

impl ExecutorMetadata {
    /// A copy that is equal to what was copied.
    pub fn duplicate(&self) -> (copy: ExecutorMetadata)
        ensures
            copy == *self,
    {
        ExecutorMetadata {
            id: self.id.clone(),
            host: self.host.clone(),
            port: self.port,
            grpc_port: self.grpc_port,
            specification: ExecutorSpecification { task_slots: self.specification.task_slots },
        }
    }
}

impl ExecutorHeartbeat {
    /// A copy that is equal to what was copied.
    pub fn duplicate(&self) -> (copy: ExecutorHeartbeat)
        ensures
            copy == *self,
    {
        ExecutorHeartbeat { executor_id: self.executor_id.clone(), timestamp: self.timestamp }
    }
}

impl ExecutorRecord {
    /// A copy that is equal to what was copied.
    pub fn duplicate(&self) -> (copy: ExecutorRecord)
        ensures
            copy == *self,
    {
        ExecutorRecord {
            executor_id: self.executor_id.clone(),
            metadata: match &self.metadata {
                Some(metadata) => Some(metadata.duplicate()),
                None => None,
            },
            heartbeat: match &self.heartbeat {
                Some(heartbeat) => Some(heartbeat.duplicate()),
                None => None,
            },
            slots: match &self.slots {
                Some(slots) => Some(SlotCount { available: slots.available, capacity: slots.capacity }),
                None => None,
            },
        }
    }

    /// The parts of a record belong to its executor, and no more slots are
    /// free than the executor has.
    pub open spec fn wf(self) -> bool {
        &&& self.metadata is Some ==> self.metadata->0.id@ == self.executor_id@
        &&& self.heartbeat is Some ==> self.heartbeat->0.executor_id@ == self.executor_id@
        &&& self.slots is Some ==> self.slots->0.available <= self.slots->0.capacity
    }
}

/// The position of the record of an executor at or after `from`, or the
/// number of records if it has none.
pub open spec fn index_of(records: Seq<ExecutorRecord>, id: Seq<char>, from: int) -> int
    decreases records.len() - from,
{
    if from < 0 || from >= records.len() {
        records.len() as int
    } else if records[from].executor_id@ == id {
        from
    } else {
        index_of(records, id, from + 1)
    }
}

/// `index_of` is the first position of the id at or after `from`.
pub proof fn lemma_index_of(records: Seq<ExecutorRecord>, id: Seq<char>, from: int)
    requires
        0 <= from <= records.len(),
    ensures
        from <= index_of(records, id, from) <= records.len(),
        index_of(records, id, from) < records.len() ==> records[index_of(records, id, from)].executor_id@
            == id,
        forall|i: int|
            from <= i < index_of(records, id, from) ==> (#[trigger] records[i]).executor_id@ != id,
    decreases records.len() - from,
{
    if from < records.len() && records[from].executor_id@ != id {
        lemma_index_of(records, id, from + 1);
    }
}

/// Every record is well formed, and no two records are of one executor.
pub open spec fn records_wf(records: Seq<ExecutorRecord>) -> bool {
    &&& forall|i: int| 0 <= i < records.len() ==> (#[trigger] records[i]).wf()
    &&& forall|a: int, b: int|
        0 <= a < b < records.len() ==> (#[trigger] records[a]).executor_id@ != (
        #[trigger] records[b]).executor_id@
}

/// The records after an executor registered: its record is new, with all its
/// slots free.
pub open spec fn registered(
    records: Seq<ExecutorRecord>,
    metadata: ExecutorMetadata,
    specification: ExecutorSpecification,
    now: u64,
) -> Seq<ExecutorRecord> {
    let record = ExecutorRecord {
        executor_id: metadata.id,
        metadata: Some(metadata),
        heartbeat: Some(ExecutorHeartbeat { executor_id: metadata.id, timestamp: now }),
        slots: Some(
            SlotCount { available: specification.task_slots, capacity: specification.task_slots },
        ),
    };
    let i = index_of(records, metadata.id@, 0);
    if i < records.len() {
        records.update(i, record)
    } else {
        records.push(record)
    }
}

/// The records after metadata was saved: only the metadata of its executor
/// changes.
pub open spec fn with_metadata(records: Seq<ExecutorRecord>, metadata: ExecutorMetadata) -> Seq<
    ExecutorRecord,
> {
    let i = index_of(records, metadata.id@, 0);
    if i < records.len() {
        records.update(i, ExecutorRecord { metadata: Some(metadata), ..records[i] })
    } else {
        records.push(
            ExecutorRecord {
                executor_id: metadata.id,
                metadata: Some(metadata),
                heartbeat: None,
                slots: None,
            },
        )
    }
}

/// The records after a heartbeat was saved: only the heartbeat of its
/// executor changes.
pub open spec fn with_heartbeat(records: Seq<ExecutorRecord>, heartbeat: ExecutorHeartbeat) -> Seq<
    ExecutorRecord,
> {
    let i = index_of(records, heartbeat.executor_id@, 0);
    if i < records.len() {
        records.update(i, ExecutorRecord { heartbeat: Some(heartbeat), ..records[i] })
    } else {
        records.push(
            ExecutorRecord {
                executor_id: heartbeat.executor_id,
                metadata: None,
                heartbeat: Some(heartbeat),
                slots: None,
            },
        )
    }
}

/// The records without the record of an executor.
pub open spec fn without(records: Seq<ExecutorRecord>, id: Seq<char>) -> Seq<ExecutorRecord> {
    let i = index_of(records, id, 0);
    if i < records.len() {
        records.remove(i)
    } else {
        records
    }
}

/// The heartbeats of the first `upto` records, in the order of the records.
pub open spec fn heartbeats_of(records: Seq<ExecutorRecord>, upto: int) -> Seq<ExecutorHeartbeat>
    decreases upto,
{
    if upto <= 0 {
        Seq::empty()
    } else {
        let earlier = heartbeats_of(records, upto - 1);
        match records[upto - 1].heartbeat {
            Some(heartbeat) => earlier.push(heartbeat),
            None => earlier,
        }
    }
}

/// Why slots cannot be given back.
pub enum ReleaseFailure {
    /// The executor is not registered.
    Unknown,
    /// The executor would have more free slots than it has slots.
    Exceeds,
}

/// The records after slots were given back to one executor.
pub open spec fn release(records: Seq<ExecutorRecord>, id: Seq<char>, count: u32) -> Result<
    Seq<ExecutorRecord>,
    ReleaseFailure,
> {
    let i = index_of(records, id, 0);
    if i >= records.len() || records[i].slots is None {
        Err(ReleaseFailure::Unknown)
    } else if records[i].slots->0.available + count > records[i].slots->0.capacity {
        Err(ReleaseFailure::Exceeds)
    } else {
        Ok(
            records.update(
                i,
                ExecutorRecord {
                    slots: Some(
                        SlotCount {
                            available: (records[i].slots->0.available + count) as u32,
                            capacity: records[i].slots->0.capacity,
                        },
                    ),
                    ..records[i]
                },
            ),
        )
    }
}

/// The records after the first `upto` pairs of a list were given back in
/// turn, or why the first pair that cannot be given back cannot.
pub open spec fn release_all(records: Seq<ExecutorRecord>, pairs: Seq<ExecutorSlot>, upto: int) -> Result<
    Seq<ExecutorRecord>,
    ReleaseFailure,
>
    decreases upto,
{
    if upto <= 0 {
        Ok(records)
    } else {
        match release_all(records, pairs, upto - 1) {
            Ok(earlier) => release(earlier, pairs[upto - 1].0@, pairs[upto - 1].1),
            Err(failure) => Err(failure),
        }
    }
}

/// Once a pair cannot be given back, the list cannot.
pub proof fn lemma_release_fails(
    records: Seq<ExecutorRecord>,
    pairs: Seq<ExecutorSlot>,
    k: int,
    upto: int,
)
    requires
        0 <= k <= upto,
        release_all(records, pairs, k) is Err,
    ensures
        release_all(records, pairs, upto) == release_all(records, pairs, k),
    decreases upto,
{
    if k < upto {
        lemma_release_fails(records, pairs, k, upto - 1);
    }
}

/// The cluster state of a single scheduler, held in memory: the executors
/// that are known, with their metadata, heartbeats and free task slots.
pub struct InMemoryClusterState {
    records: Vec<ExecutorRecord>,
}

impl View for InMemoryClusterState {
    type V = Seq<ExecutorRecord>;

    closed spec fn view(&self) -> Seq<ExecutorRecord> {
        self.records@
    }
}

/// A copy of a list of records that is equal to it.
fn duplicate_records(records: &Vec<ExecutorRecord>) -> (copy: Vec<ExecutorRecord>)
    ensures
        copy@ == records@,
{
    let mut copy: Vec<ExecutorRecord> = Vec::new();
    let mut i: usize = 0;
    while i < records.len()
        invariant
            i <= records.len(),
            copy@ == records@.take(i as int),
        decreases records.len() - i,
    {
        copy.push(records[i].duplicate());
        i = i + 1;
    }
    copy
}

impl InMemoryClusterState {
    /// A state that knows no executor.
    pub fn new() -> (state: InMemoryClusterState)
        ensures
            state@ == Seq::<ExecutorRecord>::empty(),
            records_wf(state@),
    {
        InMemoryClusterState { records: Vec::new() }
    }

    /// Makes the state ready; a state in memory always is.
    pub fn init(&self) -> (result: Result<(), BallistaError>)
        ensures
            result is Ok,
    {
        Ok(())
    }

    /// The position of the record of an executor.
    fn find(&self, id: &str) -> (found: Option<usize>)
        ensures
            match found {
                Some(i) => i < self@.len() && i == index_of(self@, id@, 0),
                None => index_of(self@, id@, 0) >= self@.len(),
            },
    {
        let wanted = id.to_owned();
        let mut i: usize = 0;
        while i < self.records.len()
            invariant
                i <= self.records.len(),
                wanted@ == id@,
                index_of(self@, id@, 0) == index_of(self@, id@, i as int),
            decreases self.records.len() - i,
        {
            if self.records[i].executor_id == wanted {
                return Some(i);
            }
            i = i + 1;
        }
        None
    }

    /// Registers an executor: its metadata replaces what was there, all its
    /// task slots are free, and its heartbeat is of `now`.
    pub fn register_executor(
        &mut self,
        metadata: ExecutorMetadata,
        specification: ExecutorSpecification,
        now: u64,
    ) -> (result: Result<(), BallistaError>)
        requires
            records_wf(old(self)@),
        ensures
            result is Ok,
            records_wf(final(self)@),
            final(self)@ == registered(old(self)@, metadata, specification, now),
    {
        let id = metadata.id.clone();
        let heartbeat_id = metadata.id.clone();
        let found = self.find(metadata.id.as_str());
        let record = ExecutorRecord {
            executor_id: id,
            metadata: Some(metadata),
            heartbeat: Some(ExecutorHeartbeat { executor_id: heartbeat_id, timestamp: now }),
            slots: Some(
                SlotCount { available: specification.task_slots, capacity: specification.task_slots },
            ),
        };
        proof {
            lemma_index_of(self@, record.executor_id@, 0);
        }
        match found {
            Some(i) => {
                self.records.set(i, record);
            },
            None => {
                self.records.push(record);
            },
        }
        Ok(())
    }

    /// Saves the metadata of an executor, over what was there; the slots and
    /// the heartbeat stay.
    pub fn save_executor_metadata(&mut self, metadata: ExecutorMetadata) -> (result: Result<
        (),
        BallistaError,
    >)
        requires
            records_wf(old(self)@),
        ensures
            result is Ok,
            records_wf(final(self)@),
            final(self)@ == with_metadata(old(self)@, metadata),
    {
        let found = self.find(metadata.id.as_str());
        proof {
            lemma_index_of(self@, metadata.id@, 0);
        }
        match found {
            Some(i) => {
                let record = &mut self.records[i];
                record.metadata = Some(metadata);
            },
            None => {
                let id = metadata.id.clone();
                self.records.push(
                    ExecutorRecord { executor_id: id, metadata: Some(metadata), heartbeat: None, slots: None },
                );
            },
        }
        Ok(())
    }

    /// The metadata of an executor; `NotFound` where none is saved.
    pub fn get_executor_metadata(&self, executor_id: &str) -> (result: Result<
        ExecutorMetadata,
        BallistaError,
    >)
        ensures
            match result {
                Ok(metadata) => index_of(self@, executor_id@, 0) < self@.len() && self@[index_of(
                    self@,
                    executor_id@,
                    0,
                )].metadata == Some(metadata),
                Err(e) => e is NotFound && e.text() == "no metadata is saved for the executor"@ && (index_of(self@, executor_id@, 0) >= self@.len()
                    || self@[index_of(self@, executor_id@, 0)].metadata is None),
            },
    {
        match self.find(executor_id) {
            Some(i) => match &self.records[i].metadata {
                Some(metadata) => Ok(metadata.duplicate()),
                None => Err(BallistaError::NotFound("no metadata is saved for the executor".to_string())),
            },
            None => Err(BallistaError::NotFound("no metadata is saved for the executor".to_string())),
        }
    }

    /// Saves the heartbeat of an executor, over what was there.
    pub fn save_executor_heartbeat(&mut self, heartbeat: ExecutorHeartbeat) -> (result: Result<
        (),
        BallistaError,
    >)
        requires
            records_wf(old(self)@),
        ensures
            result is Ok,
            records_wf(final(self)@),
            final(self)@ == with_heartbeat(old(self)@, heartbeat),
    {
        let found = self.find(heartbeat.executor_id.as_str());
        proof {
            lemma_index_of(self@, heartbeat.executor_id@, 0);
        }
        match found {
            Some(i) => {
                let record = &mut self.records[i];
                record.heartbeat = Some(heartbeat);
            },
            None => {
                let id = heartbeat.executor_id.clone();
                self.records.push(
                    ExecutorRecord { executor_id: id, metadata: None, heartbeat: Some(heartbeat), slots: None },
                );
            },
        }
        Ok(())
    }

    /// Forgets an executor: its metadata, its slots and its heartbeat. An
    /// executor that is not known is no error.
    pub fn remove_executor(&mut self, executor_id: &str) -> (result: Result<(), BallistaError>)
        requires
            records_wf(old(self)@),
        ensures
            result is Ok,
            records_wf(final(self)@),
            final(self)@ == without(old(self)@, executor_id@),
            index_of(final(self)@, executor_id@, 0) >= final(self)@.len(),
    {
        let found = self.find(executor_id);
        proof {
            lemma_index_of(self@, executor_id@, 0);
        }
        match found {
            Some(i) => {
                self.records.remove(i);
                proof {
                    lemma_index_of(self@, executor_id@, 0);
                }
            },
            None => {},
        }
        Ok(())
    }

    /// The heartbeats that are saved, in the order of the records.
    pub fn executor_heartbeats(&self) -> (heartbeats: Vec<ExecutorHeartbeat>)
        ensures
            heartbeats@ == heartbeats_of(self@, self@.len() as int),
    {
        let mut heartbeats: Vec<ExecutorHeartbeat> = Vec::new();
        let mut i: usize = 0;
        while i < self.records.len()
            invariant
                i <= self.records.len(),
                heartbeats@ == heartbeats_of(self@, i as int),
            decreases self.records.len() - i,
        {
            match &self.records[i].heartbeat {
                Some(heartbeat) => {
                    heartbeats.push(heartbeat.duplicate());
                },
                None => {},
            }
            i = i + 1;
        }
        heartbeats
    }

    /// The heartbeat of an executor; `None` where none is saved.
    pub fn get_executor_heartbeat(&self, executor_id: &str) -> (heartbeat: Option<ExecutorHeartbeat>)
        ensures
            heartbeat == if index_of(self@, executor_id@, 0) < self@.len() {
                self@[index_of(self@, executor_id@, 0)].heartbeat
            } else {
                None
            },
    {
        match self.find(executor_id) {
            Some(i) => match &self.records[i].heartbeat {
                Some(heartbeat) => Some(heartbeat.duplicate()),
                None => None,
            },
            None => None,
        }
    }

    /// The free and the total task slots of an executor; `None` where it is
    /// not registered.
    pub fn get_executor_slots(&self, executor_id: &str) -> (slots: Option<(u32, u32)>)
        ensures
            slots == if index_of(self@, executor_id@, 0) < self@.len() {
                match self@[index_of(self@, executor_id@, 0)].slots {
                    Some(count) => Some((count.available, count.capacity)),
                    None => None,
                }
            } else {
                None
            },
    {
        match self.find(executor_id) {
            Some(i) => match &self.records[i].slots {
                Some(count) => Some((count.available, count.capacity)),
                None => None,
            },
            None => None,
        }
    }

    /// Sets the free and the total task slots of an executor that is known,
    /// as when the state is read from a store. Fails with `NotFound` for an
    /// executor that is not known and with `InvalidState` for more free slots
    /// than slots; the state then stays as it was.
    pub fn set_executor_slots(&mut self, executor_id: &str, available: u32, capacity: u32) -> (result:
        Result<(), BallistaError>)
        requires
            records_wf(old(self)@),
        ensures
            records_wf(final(self)@),
            match result {
                Ok(_) => {
                    let i = index_of(old(self)@, executor_id@, 0);
                    &&& i < old(self)@.len()
                    &&& available <= capacity
                    &&& final(self)@ == old(self)@.update(
                        i,
                        ExecutorRecord {
                            slots: Some(SlotCount { available, capacity }),
                            ..old(self)@[i]
                        },
                    )
                },
                Err(e) => {
                    &&& final(self)@ == old(self)@
                    &&& if index_of(old(self)@, executor_id@, 0) >= old(self)@.len() {
                        e is NotFound && e.text() == "the executor is not registered"@
                    } else {
                        e is InvalidState && e.text() == "more free slots than slots"@ && available
                            > capacity
                    }
                },
            },
    {
        let found = self.find(executor_id);
        match found {
            None => Err(BallistaError::NotFound("the executor is not registered".to_string())),
            Some(i) => {
                if available > capacity {
                    return Err(BallistaError::InvalidState("more free slots than slots".to_string()));
                }
                let record = &mut self.records[i];
                record.slots = Some(SlotCount { available, capacity });
                Ok(())
            },
        }
    }

    /// Gives task slots back to executors when their tasks have ended: each
    /// pair names an executor and a number of slots. Either every pair is
    /// given back or none is: the call fails with `NotFound` where an
    /// executor is not registered, and with `InvalidState` where an executor
    /// would get more free slots than it has slots.
    pub fn unbind_tasks(&mut self, executor_slots: Vec<ExecutorSlot>) -> (result: Result<
        (),
        BallistaError,
    >)
        requires
            records_wf(old(self)@),
        ensures
            records_wf(final(self)@),
            match release_all(old(self)@, executor_slots@, executor_slots@.len() as int) {
                Ok(records) => result is Ok && final(self)@ == records,
                Err(ReleaseFailure::Unknown) => result is Err && result->Err_0 is NotFound
                    && result->Err_0.text() == "the executor is not registered"@ && final(self)@
                    == old(self)@,
                Err(ReleaseFailure::Exceeds) => result is Err && result->Err_0 is InvalidState
                    && result->Err_0.text() == "more slots are given back than were taken"@
                    && final(self)@ == old(self)@,
            },
    {
        let saved = duplicate_records(&self.records);
        let mut k: usize = 0;
        while k < executor_slots.len()
            invariant
                k <= executor_slots.len(),
                saved@ == old(self)@,
                records_wf(saved@),
                records_wf(self@),
                release_all(old(self)@, executor_slots@, k as int) == Ok::<
                    Seq<ExecutorRecord>,
                    ReleaseFailure,
                >(self@),
            decreases executor_slots.len() - k,
        {
            let count = executor_slots[k].1;
            let found = self.find(executor_slots[k].0.as_str());
            let i = match found {
                Some(i) => i,
                None => {
                    proof {
                        lemma_release_fails(
                            old(self)@,
                            executor_slots@,
                            k + 1,
                            executor_slots@.len() as int,
                        );
                    }
                    self.records = saved;
                    return Err(BallistaError::NotFound("the executor is not registered".to_string()));
                },
            };
            let (available, capacity) = match &self.records[i].slots {
                Some(slots) => (slots.available, slots.capacity),
                None => {
                    proof {
                        lemma_release_fails(
                            old(self)@,
                            executor_slots@,
                            k + 1,
                            executor_slots@.len() as int,
                        );
                    }
                    self.records = saved;
                    return Err(BallistaError::NotFound("the executor is not registered".to_string()));
                },
            };
            if count > capacity - available {
                proof {
                    lemma_release_fails(old(self)@, executor_slots@, k + 1, executor_slots@.len() as int);
                }
                self.records = saved;
                return Err(BallistaError::InvalidState("more slots are given back than were taken".to_string()));
            }
            let record = &mut self.records[i];
            record.slots = Some(SlotCount { available: available + count, capacity });
            k = k + 1;
        }
        Ok(())
    }
}

/// Whether a round may use an executor: every executor where no list is
/// given, else the listed ones.
pub open spec fn admits(executors: Option<Vec<String>>, id: Seq<char>) -> bool {
    match executors {
        None => true,
        Some(ids) => exists|i: int| 0 <= i < ids@.len() && (#[trigger] ids@[i])@ == id,
    }
}

/// Whether a round may use an executor.
fn is_admitted(executors: &Option<Vec<String>>, id: &String) -> (b: bool)
    ensures
        b == admits(*executors, id@),
{
    match executors {
        None => true,
        Some(ids) => {
            let mut i: usize = 0;
            while i < ids.len()
                invariant
                    i <= ids.len(),
                    *executors == Some(*ids),
                    forall|k: int| 0 <= k < i ==> (#[trigger] ids@[k])@ != id@,
                decreases ids.len() - i,
            {
                if ids[i] == *id {
                    assert(executors->Some_0 == *ids);
                    return true;
                }
                i = i + 1;
            }
            false
        },
    }
}

/// An executor is in the snapshot of a round if it is registered, has a free
/// slot and may be used.
pub open spec fn in_snapshot(record: ExecutorRecord, executors: Option<Vec<String>>) -> bool {
    &&& record.slots is Some
    &&& record.slots->0.available > 0
    &&& admits(executors, record.executor_id@)
}

/// The free slots of the executors among the first `upto` records that are in
/// the snapshot, in the order of the records.
pub open spec fn snapshot_of(records: Seq<ExecutorRecord>, executors: Option<Vec<String>>, upto: int) -> Seq<
    AvailableTaskSlots,
>
    decreases upto,
{
    if upto <= 0 {
        Seq::empty()
    } else {
        let earlier = snapshot_of(records, executors, upto - 1);
        if in_snapshot(records[upto - 1], executors) {
            earlier.push(
                AvailableTaskSlots {
                    executor_id: records[upto - 1].executor_id,
                    slots: records[upto - 1].slots->0.available,
                },
            )
        } else {
            earlier
        }
    }
}

/// A record with another number of free slots.
pub open spec fn with_available(record: ExecutorRecord, available: u32) -> ExecutorRecord {
    ExecutorRecord {
        slots: Some(SlotCount { available, capacity: record.slots->0.capacity }),
        ..record
    }
}

/// The records after a round left `slots` of the snapshot: each executor of
/// the snapshot has the free slots that the round left it.
pub open spec fn after_round(
    records: Seq<ExecutorRecord>,
    executors: Option<Vec<String>>,
    slots: Seq<AvailableTaskSlots>,
) -> Seq<ExecutorRecord> {
    Seq::new(
        records.len(),
        |i: int|
            if in_snapshot(records[i], executors) {
                with_available(
                    records[i],
                    slots[snapshot_of(records, executors, i).len() as int].slots,
                )
            } else {
                records[i]
            },
    )
}

/// An executor is on the ring of a round if it is in the snapshot and its
/// metadata and heartbeat are saved.
pub open spec fn on_ring(record: ExecutorRecord, executors: Option<Vec<String>>) -> bool {
    &&& in_snapshot(record, executors)
    &&& record.metadata is Some
    &&& record.heartbeat is Some
}

/// The name of an executor's node on the ring.
pub open spec fn node_name(record: ExecutorRecord) -> Seq<char> {
    network_name(record.metadata->0.host@, record.metadata->0.port)
}

/// A node stands for an executor.
pub open spec fn node_of(record: ExecutorRecord, node: TopologyNode) -> bool {
    &&& node.id == record.executor_id
    &&& node.name@ == node_name(record)
    &&& node.last_seen_ts == record.heartbeat->0.timestamp
    &&& node.available_slots == record.slots->0.available
}

/// The positions of the executors among the first `upto` records that are on
/// the ring.
pub open spec fn ring_members(records: Seq<ExecutorRecord>, executors: Option<Vec<String>>, upto: int) -> Seq<
    int,
>
    decreases upto,
{
    if upto <= 0 {
        Seq::empty()
    } else {
        let earlier = ring_members(records, executors, upto - 1);
        if on_ring(records[upto - 1], executors) {
            earlier.push(upto - 1)
        } else {
            earlier
        }
    }
}

/// `nodes` are the nodes of the executors that are on the ring, in the order
/// of the records.
pub open spec fn is_topology(
    records: Seq<ExecutorRecord>,
    executors: Option<Vec<String>>,
    nodes: Seq<TopologyNode>,
) -> bool {
    let members = ring_members(records, executors, records.len() as int);
    &&& nodes.len() == members.len()
    &&& forall|q: int| 0 <= q < nodes.len() ==> node_of(records[members[q]], #[trigger] nodes[q])
}

/// The records after a round left `nodes` on the ring: each executor whose
/// node is on the ring has the free slots of its node.
pub open spec fn after_hash(
    records: Seq<ExecutorRecord>,
    executors: Option<Vec<String>>,
    nodes: Map<Seq<char>, TopologyNode>,
) -> Seq<ExecutorRecord> {
    Seq::new(
        records.len(),
        |i: int|
            if on_ring(records[i], executors) && nodes.contains_key(node_name(records[i]))
                && nodes[node_name(records[i])].id@ == records[i].executor_id@ {
                with_available(records[i], nodes[node_name(records[i])].available_slots)
            } else {
                records[i]
            },
    )
}

/// What binding by consistent hash returns and leaves, given what the round
/// comes to: the round's tasks and jobs, and the records with the slots that
/// are left on the ring; or the round's error, and everything as it was.
pub open spec fn bound_by_hash(
    records: Seq<ExecutorRecord>,
    executors: Option<Vec<String>>,
    outcome: HashRound,
    jobs: Seq<GraphView>,
    result: Result<Vec<BoundTask>, BallistaError>,
    jobs_after: Seq<GraphView>,
    records_after: Seq<ExecutorRecord>,
) -> bool {
    match result {
        Ok(tasks) => {
            &&& outcome.failure is None
            &&& tasks@ == outcome.tasks
            &&& jobs_after == outcome.jobs
            &&& records_after == after_hash(records, executors, outcome.nodes)
        },
        Err(e) => {
            &&& failure_matches(outcome.failure, e)
            &&& jobs_after == jobs
            &&& records_after == records
        },
    }
}

/// The members of the ring are records that are on the ring.
pub proof fn lemma_ring_members(records: Seq<ExecutorRecord>, executors: Option<Vec<String>>, upto: int)
    requires
        0 <= upto <= records.len(),
    ensures
        forall|q: int|
            0 <= q < ring_members(records, executors, upto).len() ==> 0 <= (#[trigger] ring_members(
                records,
                executors,
                upto,
            )[q]) < upto && on_ring(records[ring_members(records, executors, upto)[q]], executors),
    decreases upto,
{
    if upto > 0 {
        lemma_ring_members(records, executors, upto - 1);
        let earlier = ring_members(records, executors, upto - 1);
        let members = ring_members(records, executors, upto);
        assert forall|q: int| 0 <= q < members.len() implies 0 <= (#[trigger] members[q]) < upto
            && on_ring(records[members[q]], executors) by {
            if q < earlier.len() {
                assert(members[q] == earlier[q]);
            }
        }
    }
}

/// The position of the node with a name in a list of nodes.
fn find_node(nodes: &Vec<TopologyNode>, name: &String) -> (found: Option<usize>)
    ensures
        match found {
            Some(q) => q < nodes@.len() && nodes@[q as int].name@ == name@,
            None => forall|q: int| 0 <= q < nodes@.len() ==> (#[trigger] nodes@[q]).name@ != name@,
        },
{
    let mut q: usize = 0;
    while q < nodes.len()
        invariant
            q <= nodes.len(),
            forall|k: int| 0 <= k < q ==> (#[trigger] nodes@[k]).name@ != name@,
        decreases nodes.len() - q,
    {
        if nodes[q].name == *name {
            return Some(q);
        }
        q = q + 1;
    }
    None
}

impl InMemoryClusterState {
    /// The free slots of the registered executors that have a free slot, in
    /// the order in which the executors became known; with `executors` given,
    /// of those executors only.
    pub fn available_task_slots(&self, executors: &Option<Vec<String>>) -> (slots: Vec<
        AvailableTaskSlots,
    >)
        ensures
            slots@ == snapshot_of(self@, *executors, self@.len() as int),
    {
        let mut slots: Vec<AvailableTaskSlots> = Vec::new();
        let mut i: usize = 0;
        while i < self.records.len()
            invariant
                i <= self.records.len(),
                slots@ == snapshot_of(self@, *executors, i as int),
            decreases self.records.len() - i,
        {
            let record = &self.records[i];
            match &record.slots {
                Some(count) => {
                    if count.available > 0 && is_admitted(executors, &record.executor_id) {
                        slots.push(
                            AvailableTaskSlots {
                                executor_id: record.executor_id.clone(),
                                slots: count.available,
                            },
                        );
                    }
                },
                None => {},
            }
            i = i + 1;
        }
        slots
    }

    /// Writes the free slots that a round left back into the records.
    fn apply_round(
        &mut self,
        executors: &Option<Vec<String>>,
        slots: &Vec<AvailableTaskSlots>,
        Ghost(before): Ghost<Seq<AvailableTaskSlots>>,
    )
        requires
            records_wf(old(self)@),
            before == snapshot_of(old(self)@, *executors, old(self)@.len() as int),
            slots@.len() == before.len(),
            forall|e: int| 0 <= e < before.len() ==> (#[trigger] slots@[e]).slots <= before[e].slots,
        ensures
            records_wf(final(self)@),
            final(self)@ == after_round(old(self)@, *executors, slots@),
    {
        let mut q: usize = 0;
        let mut i: usize = 0;
        while i < self.records.len()
            invariant
                i <= self.records.len(),
                self@.len() == old(self)@.len(),
                records_wf(old(self)@),
                before == snapshot_of(old(self)@, *executors, old(self)@.len() as int),
                slots@.len() == before.len(),
                forall|e: int| 0 <= e < before.len() ==> (#[trigger] slots@[e]).slots <= before[e].slots,
                q == snapshot_of(old(self)@, *executors, i as int).len(),
                q <= i,
                forall|k: int|
                    0 <= k < i ==> (#[trigger] self@[k]) == after_round(old(self)@, *executors, slots@)[k],
                forall|k: int| i <= k < self@.len() ==> (#[trigger] self@[k]) == old(self)@[k],
            decreases self.records.len() - i,
        {
            proof {
                lemma_snapshot_index(old(self)@, *executors, i as int, old(self)@.len() as int);
            }
            let member = match &self.records[i].slots {
                Some(count) => count.available > 0 && is_admitted(executors, &self.records[i].executor_id),
                None => false,
            };
            if member {
                let available = slots[q].slots;
                let capacity = match &self.records[i].slots {
                    Some(count) => count.capacity,
                    None => 0,
                };
                let record = &mut self.records[i];
                record.slots = Some(SlotCount { available, capacity });
                q = q + 1;
            }
            i = i + 1;
        }
        proof {
            let target = after_round(old(self)@, *executors, slots@);
            assert forall|k: int| 0 <= k < target.len() implies (#[trigger] target[k]).wf() by {
                lemma_snapshot_index(old(self)@, *executors, k, old(self)@.len() as int);
            }
        }
    }

    /// The nodes of the executors that a consistent-hash round may use.
    fn topology(&self, executors: &Option<Vec<String>>) -> (nodes: Vec<TopologyNode>)
        ensures
            is_topology(self@, *executors, nodes@),
    {
        let mut nodes: Vec<TopologyNode> = Vec::new();
        let mut i: usize = 0;
        while i < self.records.len()
            invariant
                i <= self.records.len(),
                nodes@.len() == ring_members(self@, *executors, i as int).len(),
                forall|q: int|
                    0 <= q < nodes@.len() ==> node_of(
                        self@[ring_members(self@, *executors, i as int)[q]],
                        #[trigger] nodes@[q],
                    ),
            decreases self.records.len() - i,
        {
            let record = &self.records[i];
            match (&record.slots, &record.metadata, &record.heartbeat) {
                (Some(count), Some(metadata), Some(heartbeat)) => {
                    if count.available > 0 && is_admitted(executors, &record.executor_id) {
                        let mut node = TopologyNode::new(
                            metadata.host.as_str(),
                            metadata.port,
                            record.executor_id.as_str(),
                            heartbeat.timestamp,
                            count.available,
                        );
                        node.id = record.executor_id.clone();
                        nodes.push(node);
                    }
                },
                _ => {},
            }
            i = i + 1;
        }
        nodes
    }

    /// Writes the free slots of the nodes that a round left on the ring back
    /// into the records.
    fn apply_ring(
        &mut self,
        executors: &Option<Vec<String>>,
        ring: &HashRing,
        Ghost(nodes): Ghost<Seq<TopologyNode>>,
    )
        requires
            records_wf(old(self)@),
            ring.wf(),
            is_topology(old(self)@, *executors, nodes),
            shrunk(nodes_by_name(nodes, nodes.len() as int), ring.nodes()),
        ensures
            records_wf(final(self)@),
            final(self)@ == after_hash(old(self)@, *executors, ring.nodes()),
    {
        let left = ring.node_list();
        let ghost target = after_hash(old(self)@, *executors, ring.nodes());
        let mut i: usize = 0;
        while i < self.records.len()
            invariant
                i <= self.records.len(),
                self@.len() == old(self)@.len(),
                records_wf(old(self)@),
                ring.wf(),
                is_topology(old(self)@, *executors, nodes),
                shrunk(nodes_by_name(nodes, nodes.len() as int), ring.nodes()),
                target == after_hash(old(self)@, *executors, ring.nodes()),
                forall|q: int|
                    0 <= q < left@.len() ==> ring.nodes().contains_key((#[trigger] left@[q]).name@)
                        && ring.nodes()[left@[q].name@] == left@[q],
                forall|name: Seq<char>|
                    ring.nodes().contains_key(name) ==> exists|q: int|
                        0 <= q < left@.len() && (#[trigger] left@[q]).name@ == name,
                forall|k: int| 0 <= k < i ==> (#[trigger] self@[k]) == target[k],
                forall|k: int| i <= k < self@.len() ==> (#[trigger] self@[k]) == old(self)@[k],
            decreases self.records.len() - i,
        {
            let record = &self.records[i];
            let mut written: Option<(u32, u32)> = None;
            match (&record.slots, &record.metadata, &record.heartbeat) {
                (Some(count), Some(metadata), Some(heartbeat)) => {
                    if count.available > 0 && is_admitted(executors, &record.executor_id) {
                        let probe = TopologyNode::new(
                            metadata.host.as_str(),
                            metadata.port,
                            record.executor_id.as_str(),
                            heartbeat.timestamp,
                            count.available,
                        );
                        match find_node(&left, &probe.name) {
                            Some(q) => {
                                if left[q].id == record.executor_id {
                                    written = Some((left[q].available_slots, count.capacity));
                                }
                            },
                            None => {},
                        }
                    }
                },
                _ => {},
            }
            match written {
                Some((available, capacity)) => {
                    let record = &mut self.records[i];
                    record.slots = Some(SlotCount { available, capacity });
                },
                None => {},
            }
            i = i + 1;
        }
        proof {
            assert forall|k: int| 0 <= k < target.len() implies (#[trigger] target[k]).wf() by {
                if on_ring(old(self)@[k], *executors) && ring.nodes().contains_key(
                    node_name(old(self)@[k]),
                ) && ring.nodes()[node_name(old(self)@[k])].id@ == old(self)@[k].executor_id@ {
                    lemma_node_source(old(self)@, *executors, nodes, k, ring.nodes());
                }
            }
        }
    }

    /// Binds the runnable tasks of the active jobs to executors that have free
    /// slots, by the policy given, and takes the slots. With `executors`
    /// given, only those executors are used. Bias and round-robin skip no
    /// plan; consistent hashing places by `scan_files`. Where binding fails,
    /// neither the jobs nor the slots change.
    pub fn bind_schedulable_tasks(
        &mut self,
        distribution: TaskDistributionPolicy,
        active_jobs: &mut Vec<ExecutionGraph>,
        executors: Option<Vec<String>>,
        scan_files: &Vec<PlanScan>,
        now: u64,
    ) -> (result: Result<Vec<BoundTask>, BallistaError>)
        requires
            records_wf(old(self)@),
            jobs_wf(graph_views(old(active_jobs)@)),
        ensures
            records_wf(final(self)@),
            jobs_wf(graph_views(final(active_jobs)@)),
            match distribution {
                TaskDistributionPolicy::Bias => {
                    let snapshot = snapshot_of(old(self)@, executors, old(self)@.len() as int);
                    let outcome = round_outcome(
                        graph_views(old(active_jobs)@),
                        Seq::empty(),
                        snapshot,
                        bias_assignment(snapshot),
                        now,
                    );
                    &&& result is Ok
                    &&& result->Ok_0@ == outcome.tasks
                    &&& graph_views(final(active_jobs)@) == outcome.jobs
                    &&& final(self)@ == after_round(old(self)@, executors, outcome.slots)
                },
                TaskDistributionPolicy::RoundRobin => {
                    let snapshot = snapshot_of(old(self)@, executors, old(self)@.len() as int);
                    let outcome = round_outcome(
                        graph_views(old(active_jobs)@),
                        Seq::empty(),
                        snapshot,
                        round_robin_assignment(snapshot),
                        now,
                    );
                    &&& result is Ok
                    &&& result->Ok_0@ == outcome.tasks
                    &&& graph_views(final(active_jobs)@) == outcome.jobs
                    &&& final(self)@ == after_round(old(self)@, executors, outcome.slots)
                },
                TaskDistributionPolicy::ConsistentHash { num_replicas, tolerance } => exists|
                    nodes: Seq<TopologyNode>,
                |
                    is_topology(old(self)@, executors, nodes) && #[trigger] bound_by_hash(
                        old(self)@,
                        executors,
                        hash_round(
                            graph_views(old(active_jobs)@),
                            nodes,
                            num_replicas as nat,
                            tolerance as nat,
                            scan_files@,
                            now,
                        ),
                        graph_views(old(active_jobs)@),
                        result,
                        graph_views(final(active_jobs)@),
                        final(self)@,
                    ),
            },
    {
        let skip: Vec<PlanHandle> = Vec::new();
        match distribution {
            TaskDistributionPolicy::Bias => {
                let mut slots = self.available_task_slots(&executors);
                let ghost before = slots@;
                let tasks = bind_task_bias(&mut slots, active_jobs, &skip, now);
                self.apply_round(&executors, &slots, Ghost(before));
                Ok(tasks)
            },
            TaskDistributionPolicy::RoundRobin => {
                let mut slots = self.available_task_slots(&executors);
                let ghost before = slots@;
                let tasks = bind_task_round_robin(&mut slots, active_jobs, &skip, now);
                self.apply_round(&executors, &slots, Ghost(before));
                Ok(tasks)
            },
            TaskDistributionPolicy::ConsistentHash { num_replicas, tolerance } => {
                let nodes = self.topology(&executors);
                let ghost listed = nodes@;
                match bind_task_consistent_hash(
                    nodes,
                    num_replicas,
                    tolerance,
                    active_jobs,
                    scan_files,
                    now,
                ) {
                    Ok((tasks, ring)) => {
                        match ring {
                            Some(ring) => {
                                self.apply_ring(&executors, &ring, Ghost(listed));
                            },
                            None => {
                                proof {
                                    lemma_idle_ring(self@, executors, listed);
                                    lemma_idle_jobs(
                                        HashRound {
                                            jobs: graph_views(old(active_jobs)@),
                                            nodes: nodes_by_name(listed, listed.len() as int),
                                            total: 0,
                                            tasks: Seq::empty(),
                                            failure: None,
                                        },
                                        HashPolicy {
                                            names: names_of(listed),
                                            replicas: num_replicas as nat,
                                            tolerance: tolerance as nat,
                                            now,
                                        },
                                        scan_files@,
                                        graph_views(old(active_jobs)@).len() as int,
                                        0,
                                    );
                                }
                            },
                        }
                        let result = Ok(tasks);
                        assert(bound_by_hash(
                            old(self)@,
                            executors,
                            hash_round(
                                graph_views(old(active_jobs)@),
                                listed,
                                num_replicas as nat,
                                tolerance as nat,
                                scan_files@,
                                now,
                            ),
                            graph_views(old(active_jobs)@),
                            result,
                            graph_views(active_jobs@),
                            self@,
                        ));
                        result
                    },
                    Err(e) => {
                        let result = Err(e);
                        assert(bound_by_hash(
                            old(self)@,
                            executors,
                            hash_round(
                                graph_views(old(active_jobs)@),
                                listed,
                                num_replicas as nat,
                                tolerance as nat,
                                scan_files@,
                                now,
                            ),
                            graph_views(old(active_jobs)@),
                            result,
                            graph_views(active_jobs@),
                            self@,
                        ));
                        result
                    },
                }
            },
        }
    }
}

/// The snapshot grows with the records, and an executor of the snapshot
/// stands in it behind the executors of the snapshot before it.
pub proof fn lemma_snapshot_index(
    records: Seq<ExecutorRecord>,
    executors: Option<Vec<String>>,
    i: int,
    upto: int,
)
    requires
        0 <= i <= upto <= records.len(),
    ensures
        snapshot_of(records, executors, i).len() <= snapshot_of(records, executors, upto).len(),
        i < upto && in_snapshot(records[i], executors) ==> {
            let q = snapshot_of(records, executors, i).len() as int;
            &&& q < snapshot_of(records, executors, upto).len()
            &&& snapshot_of(records, executors, upto)[q].executor_id == records[i].executor_id
            &&& snapshot_of(records, executors, upto)[q].slots == records[i].slots->0.available
        },
    decreases upto,
{
    if i < upto {
        lemma_snapshot_index(records, executors, i, upto - 1);
    }
}

/// The node that the ring holds under the name and the id of an executor has
/// no more free slots than the executor.
pub proof fn lemma_node_source(
    records: Seq<ExecutorRecord>,
    executors: Option<Vec<String>>,
    nodes: Seq<TopologyNode>,
    i: int,
    left: Map<Seq<char>, TopologyNode>,
)
    requires
        records_wf(records),
        is_topology(records, executors, nodes),
        shrunk(nodes_by_name(nodes, nodes.len() as int), left),
        0 <= i < records.len(),
        on_ring(records[i], executors),
        left.contains_key(node_name(records[i])),
        left[node_name(records[i])].id@ == records[i].executor_id@,
    ensures
        left[node_name(records[i])].available_slots <= records[i].slots->0.available,
{
    let name = node_name(records[i]);
    let start = nodes_by_name(nodes, nodes.len() as int);
    lemma_nodes_by_name(nodes, nodes.len() as int);
    let q = choose|q: int| 0 <= q < nodes.len() && #[trigger] nodes[q] == start[name];
    lemma_ring_members(records, executors, records.len() as int);
}

/// A ring whose nodes have no free slot stands for no executor.
pub proof fn lemma_idle_ring(
    records: Seq<ExecutorRecord>,
    executors: Option<Vec<String>>,
    nodes: Seq<TopologyNode>,
)
    requires
        is_topology(records, executors, nodes),
        crate::consistent_hash::total_slots(nodes, nodes.len() as int) == 0,
    ensures
        records == after_hash(records, executors, nodes_by_name(nodes, nodes.len() as int)),
{
    lemma_ring_members(records, executors, records.len() as int);
    if nodes.len() > 0 {
        lemma_total_positive(nodes, nodes.len() as int);
    }
}

/// The free slots of a list of nodes are at least those of its last node.
pub proof fn lemma_total_positive(nodes: Seq<TopologyNode>, upto: int)
    requires
        0 <= upto <= nodes.len(),
    ensures
        crate::consistent_hash::total_slots(nodes, upto) >= 0,
        upto > 0 ==> crate::consistent_hash::total_slots(nodes, upto) >= nodes[upto - 1].available_slots,
    decreases upto,
{
    if upto > 0 {
        lemma_total_positive(nodes, upto - 1);
    }
}

} // verus!
