use ballista_scheduler::binding::is_skipped;
use ballista_scheduler::consistent_hash::is_skip_consistent_hash;
use ballista_scheduler::error::BallistaError;
use ballista_scheduler::graph::{duplicate_jobs, is_listed, ExecutionGraph, JobStatus, Stage};
use ballista_scheduler::slots::{sort_descending, AvailableTaskSlots};

fn graph() -> ExecutionGraph {
    let mut graph = ExecutionGraph::new("job".to_string(), "session".to_string(), JobStatus::Running);
    graph.add_stage(Stage::new(1, 0, 10, false, vec![0, 0])).unwrap();
    graph.add_stage(Stage::new(2, 3, 20, true, vec![0, 1, 2])).unwrap();
    graph.add_stage(Stage::new(3, 0, 30, true, vec![0])).unwrap();
    graph
}

#[test]
fn a_new_stage_has_empty_cells() {
    let stage = Stage::new(7, 2, 70, true, vec![4, 5]);
    assert_eq!(stage.stage_id(), 7);
    assert_eq!(stage.stage_attempt_num(), 2);
    assert_eq!(stage.plan(), 70);
    assert!(stage.is_running());
    assert_eq!(stage.partitions(), 2);
    assert_eq!(stage.available_tasks(), 2);
    assert_eq!(stage.task_id_gen(), 0);
    assert!(stage.task_info(0).is_none());
    assert!(stage.task_info(5).is_none());
    assert!(stage.is_unbound(1));
    assert_eq!(stage.task_failure_number(1), Some(5));
    assert_eq!(stage.task_failure_number(2), None);
}

#[test]
fn binding_a_cell_gives_the_task_and_fills_the_cell() {
    let mut stage = Stage::new(7, 2, 70, true, vec![4, 5]);
    let task = stage.bind_task(
        &"job".to_string(),
        &"session".to_string(),
        1,
        &"executor_1".to_string(),
        true,
        99,
    );
    assert_eq!(task.session_id, "session");
    assert_eq!(task.partition.job_id, "job");
    assert_eq!(task.partition.stage_id, 7);
    assert_eq!(task.partition.partition_id, 1);
    assert_eq!(task.stage_attempt_num, 2);
    assert_eq!(task.task_id, 0);
    assert_eq!(task.task_attempt, 5);
    assert!(task.data_cache);
    assert_eq!(task.plan, 70);
    let cell = stage.task_info(1).unwrap();
    assert_eq!(cell.executor_id, "executor_1");
    assert_eq!(cell.task_id, 0);
    assert_eq!(cell.started_at, 99);
    assert!(!stage.is_unbound(1));
    assert_eq!(stage.available_tasks(), 1);
    assert_eq!(stage.task_id_gen(), 1);
    let copy = stage.duplicate();
    assert_eq!(copy.task_info(1).unwrap().executor_id, "executor_1");
    assert_eq!(copy.task_id_gen(), 1);
    assert_eq!(copy.available_tasks(), 1);
}

#[test]
fn a_second_stage_with_an_id_is_refused() {
    let mut graph = graph();
    match graph.add_stage(Stage::new(2, 0, 0, true, vec![])) {
        Err(BallistaError::AlreadyExists(_)) => {}
        other => panic!("unexpected result {:?}", other),
    }
    assert_eq!(
        graph
            .add_stage(Stage::new(3, 0, 0, false, vec![0]))
            .unwrap_err()
            .message(),
        "the job has a stage with this id"
    );
    assert_eq!(graph.stage_count(), 3);
    assert_eq!(graph.stage(1).plan(), 20);
}

#[test]
fn the_first_running_stage_with_an_empty_cell_is_fetched() {
    let mut graph = graph();
    assert_eq!(graph.job_id(), "job");
    assert_eq!(graph.session_id(), "session");
    assert_eq!(graph.status(), JobStatus::Running);
    assert_eq!(graph.fetch_running_stage(&vec![]), Some(1));
    assert_eq!(graph.fetch_running_stage(&vec![2]), Some(2));
    assert_eq!(graph.fetch_running_stage(&vec![3, 2]), None);
    let executor = "executor_1".to_string();
    for partition in 0..3 {
        let task = graph.bind_task(1, partition, &executor, false, 5);
        assert_eq!(task.task_id, partition);
        assert_eq!(task.task_attempt, partition);
    }
    assert_eq!(graph.fetch_running_stage(&vec![]), Some(2));
    graph.bind_task(2, 0, &executor, false, 5);
    assert_eq!(graph.fetch_running_stage(&vec![]), None);
    graph.set_status(JobStatus::Succeeded);
    assert_eq!(graph.status(), JobStatus::Succeeded);
}

#[test]
fn copies_of_jobs_are_apart() {
    let jobs = vec![graph()];
    let mut copy = duplicate_jobs(&jobs);
    copy[0].bind_task(1, 0, &"executor_1".to_string(), false, 5);
    assert_eq!(copy[0].stage(1).available_tasks(), 2);
    assert_eq!(jobs[0].stage(1).available_tasks(), 3);
    assert_eq!(copy[0].job_id(), "job");
    assert_eq!(copy[0].stage_count(), 3);
}

#[test]
fn lists_are_searched() {
    assert!(is_listed(&vec![4, 5], 5));
    assert!(!is_listed(&vec![4, 5], 6));
    assert!(!is_listed(&vec![], 0));
    assert!(is_skipped(&vec![40, 50], 40));
    assert!(!is_skipped(&vec![40, 50], 4));
}

#[test]
fn a_stage_is_placed_by_hash_with_one_scan_only() {
    assert!(is_skip_consistent_hash(&vec![]));
    assert!(!is_skip_consistent_hash(&vec![vec![]]));
    assert!(is_skip_consistent_hash(&vec![vec![], vec![]]));
}

#[test]
fn the_order_is_by_falling_slots_and_keeps_ties() {
    let slots: Vec<AvailableTaskSlots> = [3u32, 7, 3, 0, 7, 5]
        .iter()
        .enumerate()
        .map(|(i, slots)| AvailableTaskSlots {
            executor_id: format!("executor_{i}"),
            slots: *slots,
        })
        .collect();
    assert_eq!(sort_descending(&slots), vec![1, 4, 5, 0, 2, 3]);
    assert_eq!(sort_descending(&vec![]), Vec::<usize>::new());
}

#[test]
fn every_kind_of_error_carries_its_message() {
    let errors = vec![
        BallistaError::NotFound("a".to_string()),
        BallistaError::AlreadyExists("b".to_string()),
        BallistaError::InvalidState("c".to_string()),
        BallistaError::Storage("d".to_string()),
        BallistaError::Serialization("e".to_string()),
        BallistaError::Concurrency("f".to_string()),
        BallistaError::Internal("g".to_string()),
    ];
    let messages: Vec<String> = errors.iter().map(|e| e.message().clone()).collect();
    assert_eq!(messages, vec!["a", "b", "c", "d", "e", "f", "g"]);
    let copies: Vec<String> = errors.iter().map(|e| format!("{:?}", e.duplicate())).collect();
    let expected: Vec<String> = errors.iter().map(|e| format!("{:?}", e)).collect();
    assert_eq!(copies, expected);
}
