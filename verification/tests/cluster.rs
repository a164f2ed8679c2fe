use ballista_scheduler::cluster::{
    ExecutorHeartbeat, ExecutorMetadata, ExecutorSpecification, InMemoryClusterState,
};
use ballista_scheduler::config::TaskDistributionPolicy;
use ballista_scheduler::consistent_hash::PlanScan;
use ballista_scheduler::error::BallistaError;
use ballista_scheduler::graph::{ExecutionGraph, JobStatus, Stage};

fn metadata(id: &str, port: u16, task_slots: u32) -> ExecutorMetadata {
    ExecutorMetadata {
        id: id.to_string(),
        host: "localhost".to_string(),
        port,
        grpc_port: port + 1000,
        specification: ExecutorSpecification { task_slots },
    }
}

fn cluster() -> InMemoryClusterState {
    let mut state = InMemoryClusterState::new();
    state.init().unwrap();
    for (id, port, task_slots) in [("executor_1", 8081, 3), ("executor_2", 8082, 5), ("executor_3", 8083, 7)] {
        state
            .register_executor(
                metadata(id, port, task_slots),
                ExecutorSpecification { task_slots },
                100,
            )
            .unwrap();
    }
    state
}

fn mock_graph(job_id: &str, num_partition: usize, num_pending_task: usize) -> ExecutionGraph {
    let executor = "executor_0".to_string();
    let mut graph = ExecutionGraph::new(
        job_id.to_string(),
        format!("session_{job_id}"),
        JobStatus::Running,
    );
    graph.add_stage(Stage::new(1, 0, 1, false, vec![0])).unwrap();
    graph
        .add_stage(Stage::new(2, 0, 2, true, vec![0; num_partition]))
        .unwrap();
    graph.bind_task(0, 0, &executor, false, 1);
    for partition in 0..num_partition - num_pending_task {
        graph.bind_task(1, partition, &executor, false, 1);
    }
    graph
}

fn mock_active_jobs() -> Vec<ExecutionGraph> {
    vec![mock_graph("job_a", 8, 2), mock_graph("job_b", 8, 7)]
}

fn scan_files_for_job_b() -> Vec<PlanScan> {
    let files = (0..8).map(|i| vec![format!("file--{}", i)]).collect();
    vec![
        PlanScan {
            job_id: "job_a".to_string(),
            plan: 2,
            files: Ok(vec![]),
        },
        PlanScan {
            job_id: "job_b".to_string(),
            plan: 2,
            files: Ok(vec![files]),
        },
    ]
}

fn slots(state: &InMemoryClusterState) -> Vec<Option<(u32, u32)>> {
    ["executor_1", "executor_2", "executor_3"]
        .iter()
        .map(|id| state.get_executor_slots(id))
        .collect()
}

#[test]
fn registering_gives_metadata_slots_and_heartbeat() {
    let state = cluster();
    let found = state.get_executor_metadata("executor_2").unwrap();
    assert_eq!(found.id, "executor_2");
    assert_eq!(found.host, "localhost");
    assert_eq!(found.port, 8082);
    assert_eq!(found.grpc_port, 9082);
    assert_eq!(found.specification.task_slots, 5);
    assert_eq!(state.get_executor_slots("executor_2"), Some((5, 5)));
    let heartbeat = state.get_executor_heartbeat("executor_2").unwrap();
    assert_eq!(heartbeat.executor_id, "executor_2");
    assert_eq!(heartbeat.timestamp, 100);
}

#[test]
fn registering_again_starts_over() {
    let mut state = cluster();
    state
        .unbind_tasks(vec![])
        .unwrap();
    let mut jobs = mock_active_jobs();
    state
        .bind_schedulable_tasks(TaskDistributionPolicy::Bias, &mut jobs, None, &vec![], 5)
        .unwrap();
    assert_eq!(state.get_executor_slots("executor_3"), Some((0, 7)));
    state
        .register_executor(metadata("executor_3", 9000, 4), ExecutorSpecification { task_slots: 4 }, 200)
        .unwrap();
    assert_eq!(state.get_executor_slots("executor_3"), Some((4, 4)));
    assert_eq!(state.get_executor_metadata("executor_3").unwrap().port, 9000);
    assert_eq!(state.get_executor_heartbeat("executor_3").unwrap().timestamp, 200);
    assert_eq!(state.executor_heartbeats().len(), 3);
}

#[test]
fn an_unknown_executor_has_no_metadata() {
    let state = cluster();
    match state.get_executor_metadata("executor_9") {
        Err(BallistaError::NotFound(_)) => {}
        other => panic!("unexpected result {:?}", other),
    }
    assert!(state.get_executor_heartbeat("executor_9").is_none());
    assert!(state.get_executor_slots("executor_9").is_none());
}

#[test]
fn saving_metadata_leaves_slots_and_heartbeat() {
    let mut state = cluster();
    state.save_executor_metadata(metadata("executor_1", 7000, 9)).unwrap();
    assert_eq!(state.get_executor_metadata("executor_1").unwrap().port, 7000);
    assert_eq!(state.get_executor_slots("executor_1"), Some((3, 3)));
    assert_eq!(state.get_executor_heartbeat("executor_1").unwrap().timestamp, 100);
    state.save_executor_metadata(metadata("executor_4", 7004, 2)).unwrap();
    assert_eq!(state.get_executor_metadata("executor_4").unwrap().port, 7004);
    assert!(state.get_executor_slots("executor_4").is_none());
    assert!(state.get_executor_heartbeat("executor_4").is_none());
}

#[test]
fn saving_a_heartbeat_replaces_the_last_one() {
    let mut state = cluster();
    state
        .save_executor_heartbeat(ExecutorHeartbeat {
            executor_id: "executor_2".to_string(),
            timestamp: 555,
        })
        .unwrap();
    state
        .save_executor_heartbeat(ExecutorHeartbeat {
            executor_id: "executor_5".to_string(),
            timestamp: 556,
        })
        .unwrap();
    assert_eq!(state.get_executor_heartbeat("executor_2").unwrap().timestamp, 555);
    let all: Vec<(String, u64)> = state
        .executor_heartbeats()
        .into_iter()
        .map(|h| (h.executor_id, h.timestamp))
        .collect();
    assert_eq!(
        all,
        vec![
            ("executor_1".to_string(), 100),
            ("executor_2".to_string(), 555),
            ("executor_3".to_string(), 100),
            ("executor_5".to_string(), 556)
        ]
    );
    match state.get_executor_metadata("executor_5") {
        Err(BallistaError::NotFound(_)) => {}
        other => panic!("unexpected result {:?}", other),
    }
}

#[test]
fn removing_forgets_the_executor_and_may_be_repeated() {
    let mut state = cluster();
    state.remove_executor("executor_2").unwrap();
    assert!(state.get_executor_metadata("executor_2").is_err());
    assert!(state.get_executor_heartbeat("executor_2").is_none());
    assert!(state.get_executor_slots("executor_2").is_none());
    state.remove_executor("executor_2").unwrap();
    assert_eq!(slots(&state), vec![Some((3, 3)), None, Some((7, 7))]);
}

#[test]
fn unbinding_after_binding_restores_the_slots() {
    let mut state = cluster();
    let mut jobs = mock_active_jobs();
    let tasks = state
        .bind_schedulable_tasks(TaskDistributionPolicy::Bias, &mut jobs, None, &vec![], 5)
        .unwrap();
    assert_eq!(tasks.len(), 9);
    assert_eq!(slots(&state), vec![Some((3, 3)), Some((3, 5)), Some((0, 7))]);
    state
        .unbind_tasks(vec![("executor_3".to_string(), 7), ("executor_2".to_string(), 2)])
        .unwrap();
    assert_eq!(slots(&state), vec![Some((3, 3)), Some((5, 5)), Some((7, 7))]);
}

#[test]
fn unbinding_nothing_afterwards_changes_nothing() {
    let mut state = cluster();
    let mut jobs = mock_active_jobs();
    state
        .bind_schedulable_tasks(TaskDistributionPolicy::RoundRobin, &mut jobs, None, &vec![], 5)
        .unwrap();
    state
        .unbind_tasks(vec![("executor_3".to_string(), 1), ("executor_3".to_string(), 1)])
        .unwrap();
    let once = slots(&state);
    assert_eq!(once, vec![Some((0, 3)), Some((2, 5)), Some((6, 7))]);
    state.unbind_tasks(vec![]).unwrap();
    assert_eq!(slots(&state), once);
}

#[test]
fn unbinding_fails_as_a_whole_for_an_unknown_executor() {
    let mut state = cluster();
    let mut jobs = mock_active_jobs();
    state
        .bind_schedulable_tasks(TaskDistributionPolicy::Bias, &mut jobs, None, &vec![], 5)
        .unwrap();
    let before = slots(&state);
    match state.unbind_tasks(vec![("executor_3".to_string(), 2), ("executor_9".to_string(), 1)]) {
        Err(BallistaError::NotFound(_)) => {}
        other => panic!("unexpected result {:?}", other),
    }
    assert_eq!(slots(&state), before);
    state.save_executor_metadata(metadata("executor_4", 7004, 2)).unwrap();
    match state.unbind_tasks(vec![("executor_4".to_string(), 1)]) {
        Err(BallistaError::NotFound(_)) => {}
        other => panic!("unexpected result {:?}", other),
    }
}

#[test]
fn unbinding_fails_as_a_whole_beyond_the_capacity() {
    let mut state = cluster();
    let mut jobs = mock_active_jobs();
    state
        .bind_schedulable_tasks(TaskDistributionPolicy::Bias, &mut jobs, None, &vec![], 5)
        .unwrap();
    let before = slots(&state);
    match state.unbind_tasks(vec![
        ("executor_3".to_string(), 4),
        ("executor_2".to_string(), 1),
        ("executor_3".to_string(), 4),
    ]) {
        Err(BallistaError::InvalidState(_)) => {}
        other => panic!("unexpected result {:?}", other),
    }
    assert_eq!(slots(&state), before);
    match state.unbind_tasks(vec![("executor_1".to_string(), u32::MAX)]) {
        Err(BallistaError::InvalidState(_)) => {}
        other => panic!("unexpected result {:?}", other),
    }
    assert_eq!(slots(&state), before);
}

#[test]
fn binding_uses_the_listed_executors_only() {
    let mut state = cluster();
    let mut jobs = mock_active_jobs();
    let tasks = state
        .bind_schedulable_tasks(
            TaskDistributionPolicy::Bias,
            &mut jobs,
            Some(vec!["executor_1".to_string(), "executor_2".to_string()]),
            &vec![],
            5,
        )
        .unwrap();
    assert_eq!(tasks.len(), 8);
    assert!(tasks.iter().all(|t| t.0 != "executor_3"));
    assert_eq!(slots(&state), vec![Some((0, 3)), Some((0, 5)), Some((7, 7))]);
    // no executor has a slot left among the listed ones
    let again = state
        .bind_schedulable_tasks(
            TaskDistributionPolicy::RoundRobin,
            &mut jobs,
            Some(vec!["executor_1".to_string(), "executor_2".to_string()]),
            &vec![],
            5,
        )
        .unwrap();
    assert!(again.is_empty());
}

#[test]
fn binding_by_consistent_hash_takes_the_slots_of_the_nodes() {
    let mut state = InMemoryClusterState::new();
    for (id, port, task_slots) in [("executor_1", 8081, 1), ("executor_2", 8082, 3), ("executor_3", 8083, 5)] {
        state
            .register_executor(metadata(id, port, task_slots), ExecutorSpecification { task_slots }, 0)
            .unwrap();
    }
    let mut jobs = mock_active_jobs();
    let tasks = state
        .bind_schedulable_tasks(
            TaskDistributionPolicy::consistent_hash(),
            &mut jobs,
            None,
            &scan_files_for_job_b(),
            5,
        )
        .unwrap();
    assert_eq!(tasks.len(), 6);
    assert_eq!(slots(&state), vec![Some((0, 1)), Some((0, 3)), Some((3, 5))]);
    let more = state
        .bind_schedulable_tasks(
            TaskDistributionPolicy::ConsistentHash {
                num_replicas: 31,
                tolerance: 1,
            },
            &mut jobs,
            None,
            &scan_files_for_job_b(),
            5,
        )
        .unwrap();
    // only executor_3 has a slot left, so the ring is of that node alone and
    // its first hit binds the last partition
    assert_eq!(more.len(), 1);
    assert_eq!(more[0].0, "executor_3");
    assert!(more[0].1.data_cache);
    assert_eq!(slots(&state), vec![Some((0, 1)), Some((0, 3)), Some((2, 5))]);
}

#[test]
fn a_failed_binding_leaves_jobs_and_slots() {
    let mut state = cluster();
    let mut jobs = mock_active_jobs();
    let mut table = scan_files_for_job_b();
    table[1].files = Err(BallistaError::Storage("gone".to_string()));
    let result = state.bind_schedulable_tasks(
        TaskDistributionPolicy::consistent_hash(),
        &mut jobs,
        None,
        &table,
        5,
    );
    match result {
        Err(BallistaError::Storage(message)) => assert_eq!(message, "gone"),
        other => panic!("unexpected result {:?}", other),
    }
    assert_eq!(slots(&state), vec![Some((3, 3)), Some((5, 5)), Some((7, 7))]);
    assert_eq!(jobs[1].stage(1).available_tasks(), 7);
}

#[test]
fn slots_are_set_for_a_known_executor_only() {
    let mut state = cluster();
    state.set_executor_slots("executor_2", 1, 6).unwrap();
    assert_eq!(state.get_executor_slots("executor_2"), Some((1, 6)));
    match state.set_executor_slots("executor_2", 7, 6) {
        Err(BallistaError::InvalidState(_)) => {}
        other => panic!("unexpected result {:?}", other),
    }
    match state.set_executor_slots("executor_9", 1, 6) {
        Err(BallistaError::NotFound(_)) => {}
        other => panic!("unexpected result {:?}", other),
    }
    assert_eq!(slots(&state), vec![Some((3, 3)), Some((1, 6)), Some((7, 7))]);
    state.save_executor_metadata(metadata("executor_4", 7004, 2)).unwrap();
    state.set_executor_slots("executor_4", 0, 2).unwrap();
    assert_eq!(state.get_executor_slots("executor_4"), Some((0, 2)));
}

#[test]
fn the_snapshot_holds_the_executors_with_a_free_slot() {
    let mut state = cluster();
    state.set_executor_slots("executor_2", 0, 5).unwrap();
    state.save_executor_metadata(metadata("executor_4", 7004, 2)).unwrap();
    let all: Vec<(String, u32)> = state
        .available_task_slots(&None)
        .into_iter()
        .map(|s| (s.executor_id, s.slots))
        .collect();
    assert_eq!(
        all,
        vec![("executor_1".to_string(), 3), ("executor_3".to_string(), 7)]
    );
    let some: Vec<(String, u32)> = state
        .available_task_slots(&Some(vec![
            "executor_3".to_string(),
            "executor_2".to_string(),
            "executor_9".to_string(),
        ]))
        .into_iter()
        .map(|s| (s.executor_id, s.slots))
        .collect();
    assert_eq!(some, vec![("executor_3".to_string(), 7)]);
    assert!(state.available_task_slots(&Some(vec![])).is_empty());
}

#[test]
fn errors_say_what_is_wrong() {
    let mut state = cluster();
    assert_eq!(
        state.get_executor_metadata("executor_9").unwrap_err().message(),
        "no metadata is saved for the executor"
    );
    assert_eq!(
        state
            .unbind_tasks(vec![("executor_9".to_string(), 1)])
            .unwrap_err()
            .message(),
        "the executor is not registered"
    );
    assert_eq!(
        state
            .unbind_tasks(vec![("executor_1".to_string(), 1)])
            .unwrap_err()
            .message(),
        "more slots are given back than were taken"
    );
    assert_eq!(
        state.set_executor_slots("executor_1", 4, 3).unwrap_err().message(),
        "more free slots than slots"
    );
    assert_eq!(
        state.set_executor_slots("executor_9", 1, 3).unwrap_err().message(),
        "the executor is not registered"
    );
}
