use std::collections::HashMap;

use ballista_scheduler::binding::{bind_task_bias, bind_task_round_robin};
use ballista_scheduler::consistent_hash::{bind_task_consistent_hash, PlanScan};
use ballista_scheduler::error::BallistaError;
use ballista_scheduler::graph::{BoundTask, ExecutionGraph, JobStatus, Stage};
use ballista_scheduler::ring::TopologyNode;
use ballista_scheduler::slots::AvailableTaskSlots;

fn get_result(bound_tasks: Vec<BoundTask>) -> HashMap<String, HashMap<String, usize>> {
    let mut result = HashMap::new();

    for bound_task in bound_tasks {
        let entry = result
            .entry(bound_task.1.partition.job_id)
            .or_insert_with(HashMap::new);
        let n = entry.entry(bound_task.0).or_insert_with(|| 0);
        *n += 1;
    }

    result
}

/// A job whose first stage is done and whose second stage runs with
/// `num_partition` partitions, of which the last `num_pending_task` are not
/// bound yet.
fn mock_graph(job_id: &str, num_partition: usize, num_pending_task: usize) -> ExecutionGraph {
    let executor = "executor_0".to_string();
    let mut graph = ExecutionGraph::new(
        job_id.to_string(),
        format!("session_{job_id}"),
        JobStatus::Running,
    );
    graph.add_stage(Stage::new(1, 0, 1, false, vec![0])).unwrap();
    graph
        .add_stage(Stage::new(2, 0, 2, true, vec![0; num_partition]))
        .unwrap();
    graph.bind_task(0, 0, &executor, false, 1);
    for partition in 0..num_partition - num_pending_task {
        graph.bind_task(1, partition, &executor, false, 1);
    }
    graph
}

fn mock_active_jobs(num_partition: usize) -> Vec<ExecutionGraph> {
    vec![
        mock_graph("job_a", num_partition, 2),
        mock_graph("job_b", num_partition, 7),
    ]
}

fn mock_available_slots() -> Vec<AvailableTaskSlots> {
    vec![
        AvailableTaskSlots {
            executor_id: "executor_1".to_string(),
            slots: 3,
        },
        AvailableTaskSlots {
            executor_id: "executor_2".to_string(),
            slots: 5,
        },
        AvailableTaskSlots {
            executor_id: "executor_3".to_string(),
            slots: 7,
        },
    ]
}

fn mock_topology_nodes() -> Vec<TopologyNode> {
    vec![
        TopologyNode::new("localhost", 8081, "executor_1", 0, 1),
        TopologyNode::new("localhost", 8082, "executor_2", 0, 3),
        TopologyNode::new("localhost", 8083, "executor_3", 0, 5),
    ]
}

fn mock_scan_files(num_partition: usize) -> Vec<Vec<Vec<String>>> {
    let mut scan_files = vec![];
    for i in 0..num_partition {
        scan_files.push(vec![format!("file--{}", i)]);
    }
    vec![scan_files]
}

/// The extractor's answers for the running stage of both jobs: files for
/// `expected_job_id`, no scan for the other job.
fn mock_get_scan_files(expected_job_id: &str, num_partition: usize) -> Vec<PlanScan> {
    let mut table = vec![];
    for job_id in ["job_a", "job_b"] {
        table.push(PlanScan {
            job_id: job_id.to_string(),
            plan: 2,
            files: Ok(if expected_job_id.eq(job_id) {
                mock_scan_files(num_partition)
            } else {
                vec![]
            }),
        });
    }
    table
}

fn slots_of(slots: &[AvailableTaskSlots]) -> Vec<(String, u32)> {
    slots
        .iter()
        .map(|s| (s.executor_id.clone(), s.slots))
        .collect()
}

#[test]
fn test_bind_task_bias() {
    let num_partition = 8usize;
    let mut active_jobs = mock_active_jobs(num_partition);
    let mut available_slots = mock_available_slots();

    let bound_tasks = bind_task_bias(&mut available_slots, &mut active_jobs, &vec![], 7);
    assert_eq!(9, bound_tasks.len());

    let result = get_result(bound_tasks);

    let mut expected = Vec::new();
    {
        let mut expected0 = HashMap::new();

        let mut entry_a = HashMap::new();
        entry_a.insert("executor_3".to_string(), 2);
        let mut entry_b = HashMap::new();
        entry_b.insert("executor_3".to_string(), 5);
        entry_b.insert("executor_2".to_string(), 2);

        expected0.insert("job_a".to_string(), entry_a);
        expected0.insert("job_b".to_string(), entry_b);

        expected.push(expected0);
    }
    {
        let mut expected0 = HashMap::new();

        let mut entry_b = HashMap::new();
        entry_b.insert("executor_3".to_string(), 7);
        let mut entry_a = HashMap::new();
        entry_a.insert("executor_2".to_string(), 2);

        expected0.insert("job_a".to_string(), entry_a);
        expected0.insert("job_b".to_string(), entry_b);

        expected.push(expected0);
    }

    assert!(
        expected.contains(&result),
        "The result {:?} is not as expected {:?}",
        result,
        expected
    );
}

#[test]
fn test_bind_task_round_robin() {
    let num_partition = 8usize;
    let mut active_jobs = mock_active_jobs(num_partition);
    let mut available_slots = mock_available_slots();

    let bound_tasks = bind_task_round_robin(&mut available_slots, &mut active_jobs, &vec![], 7);
    assert_eq!(9, bound_tasks.len());

    let result = get_result(bound_tasks);

    let mut expected = Vec::new();
    {
        let mut expected0 = HashMap::new();

        let mut entry_a = HashMap::new();
        entry_a.insert("executor_3".to_string(), 1);
        entry_a.insert("executor_2".to_string(), 1);
        let mut entry_b = HashMap::new();
        entry_b.insert("executor_1".to_string(), 3);
        entry_b.insert("executor_3".to_string(), 2);
        entry_b.insert("executor_2".to_string(), 2);

        expected0.insert("job_a".to_string(), entry_a);
        expected0.insert("job_b".to_string(), entry_b);

        expected.push(expected0);
    }
    {
        let mut expected0 = HashMap::new();

        let mut entry_b = HashMap::new();
        entry_b.insert("executor_3".to_string(), 3);
        entry_b.insert("executor_2".to_string(), 2);
        entry_b.insert("executor_1".to_string(), 2);
        let mut entry_a = HashMap::new();
        entry_a.insert("executor_2".to_string(), 1);
        entry_a.insert("executor_1".to_string(), 1);

        expected0.insert("job_a".to_string(), entry_a);
        expected0.insert("job_b".to_string(), entry_b);

        expected.push(expected0);
    }

    assert!(
        expected.contains(&result),
        "The result {:?} is not as expected {:?}",
        result,
        expected
    );
}

#[test]
fn test_bind_task_consistent_hash() {
    let num_partition = 8usize;
    let topology_nodes = mock_topology_nodes;
    let num_replicas = 31;
    let tolerance = 0;

    // Check none scan files case
    {
        let mut active_jobs = mock_active_jobs(num_partition);
        let (bound_tasks, _) = bind_task_consistent_hash(
            topology_nodes(),
            num_replicas,
            tolerance,
            &mut active_jobs,
            &vec![],
            7,
        )
        .unwrap();
        assert_eq!(0, bound_tasks.len());
    }

    // Check job_b with scan files
    {
        let mut active_jobs = mock_active_jobs(num_partition);
        let (bound_tasks, _) = bind_task_consistent_hash(
            topology_nodes(),
            num_replicas,
            tolerance,
            &mut active_jobs,
            &mock_get_scan_files("job_b", 8),
            7,
        )
        .unwrap();
        assert_eq!(6, bound_tasks.len());

        let result = get_result(bound_tasks);

        let mut expected = HashMap::new();
        {
            let mut entry_b = HashMap::new();
            entry_b.insert("executor_3".to_string(), 2);
            entry_b.insert("executor_2".to_string(), 3);
            entry_b.insert("executor_1".to_string(), 1);

            expected.insert("job_b".to_string(), entry_b);
        }
        assert!(
            expected.eq(&result),
            "The result {:?} is not as expected {:?}",
            result,
            expected
        );
    }
}

#[test]
fn test_bind_task_consistent_hash_with_tolerance() {
    let num_partition = 8usize;
    let mut active_jobs = mock_active_jobs(num_partition);
    let topology_nodes = mock_topology_nodes();
    let num_replicas = 31;
    let tolerance = 1;

    {
        let (bound_tasks, _) = bind_task_consistent_hash(
            topology_nodes,
            num_replicas,
            tolerance,
            &mut active_jobs,
            &mock_get_scan_files("job_b", 8),
            7,
        )
        .unwrap();
        assert_eq!(7, bound_tasks.len());

        let result = get_result(bound_tasks);

        let mut expected = HashMap::new();
        {
            let mut entry_b = HashMap::new();
            entry_b.insert("executor_3".to_string(), 3);
            entry_b.insert("executor_2".to_string(), 3);
            entry_b.insert("executor_1".to_string(), 1);

            expected.insert("job_b".to_string(), entry_b);
        }
        assert!(
            expected.eq(&result),
            "The result {:?} is not as expected {:?}",
            result,
            expected
        );
    }
}

#[test]
fn bias_fills_the_largest_executor_first() {
    let mut active_jobs = mock_active_jobs(8);
    let mut available_slots = mock_available_slots();
    let bound_tasks = bind_task_bias(&mut available_slots, &mut active_jobs, &vec![], 7);
    let executors: Vec<&str> = bound_tasks.iter().map(|t| t.0.as_str()).collect();
    assert_eq!(
        executors,
        vec![
            "executor_3",
            "executor_3",
            "executor_3",
            "executor_3",
            "executor_3",
            "executor_3",
            "executor_3",
            "executor_2",
            "executor_2"
        ]
    );
    assert_eq!(
        slots_of(&available_slots),
        vec![
            ("executor_1".to_string(), 3),
            ("executor_2".to_string(), 3),
            ("executor_3".to_string(), 0)
        ]
    );
}

#[test]
fn round_robin_gives_each_executor_one_in_turn() {
    let mut active_jobs = mock_active_jobs(8);
    let mut available_slots = mock_available_slots();
    let bound_tasks = bind_task_round_robin(&mut available_slots, &mut active_jobs, &vec![], 7);
    let executors: Vec<&str> = bound_tasks.iter().map(|t| t.0.as_str()).collect();
    assert_eq!(
        executors,
        vec![
            "executor_3",
            "executor_2",
            "executor_1",
            "executor_3",
            "executor_2",
            "executor_1",
            "executor_3",
            "executor_2",
            "executor_1"
        ]
    );
    assert_eq!(
        slots_of(&available_slots),
        vec![
            ("executor_1".to_string(), 0),
            ("executor_2".to_string(), 2),
            ("executor_3".to_string(), 4)
        ]
    );
}

#[test]
fn binding_fills_the_cell_and_takes_the_next_task_id() {
    let mut active_jobs = mock_active_jobs(8);
    let mut available_slots = mock_available_slots();
    let bound_tasks = bind_task_bias(&mut available_slots, &mut active_jobs, &vec![], 42);
    // job_a had bound partitions 0..6 of its running stage with ids 0..6.
    let first = &bound_tasks[0];
    assert_eq!(first.0, "executor_3");
    assert_eq!(first.1.session_id, "session_job_a");
    assert_eq!(first.1.partition.job_id, "job_a");
    assert_eq!(first.1.partition.stage_id, 2);
    assert_eq!(first.1.partition.partition_id, 6);
    assert_eq!(first.1.stage_attempt_num, 0);
    assert_eq!(first.1.task_id, 6);
    assert_eq!(first.1.task_attempt, 0);
    assert!(!first.1.data_cache);
    assert_eq!(first.1.plan, 2);
    let second = &bound_tasks[1];
    assert_eq!(second.1.partition.partition_id, 7);
    assert_eq!(second.1.task_id, 7);
    let stage = active_jobs[0].stage(1);
    let cell = stage.task_info(6).unwrap();
    assert_eq!(cell.executor_id, "executor_3");
    assert_eq!(cell.task_id, 6);
    assert_eq!(cell.started_at, 42);
    assert_eq!(stage.task_id_gen(), 8);
    assert_eq!(stage.available_tasks(), 0);
}

#[test]
fn skipped_plans_and_idle_jobs_are_left_alone() {
    let mut active_jobs = mock_active_jobs(8);
    active_jobs[0].set_status(JobStatus::Queued);
    let mut available_slots = mock_available_slots();
    let bound_tasks = bind_task_round_robin(&mut available_slots, &mut active_jobs, &vec![2], 7);
    assert_eq!(0, bound_tasks.len());
    assert_eq!(active_jobs[0].stage(1).available_tasks(), 2);
    assert_eq!(active_jobs[1].stage(1).available_tasks(), 7);
    assert_eq!(
        slots_of(&available_slots),
        vec![
            ("executor_1".to_string(), 3),
            ("executor_2".to_string(), 5),
            ("executor_3".to_string(), 7)
        ]
    );
}

#[test]
fn slots_run_out_before_the_tasks() {
    let mut active_jobs = mock_active_jobs(8);
    let mut available_slots = vec![
        AvailableTaskSlots {
            executor_id: "executor_1".to_string(),
            slots: 0,
        },
        AvailableTaskSlots {
            executor_id: "executor_2".to_string(),
            slots: 3,
        },
    ];
    let bound_tasks = bind_task_bias(&mut available_slots, &mut active_jobs, &vec![], 7);
    assert_eq!(3, bound_tasks.len());
    assert_eq!(active_jobs[1].stage(1).available_tasks(), 6);
    assert_eq!(available_slots[1].slots, 0);
    let mut none_left = mock_active_jobs(8);
    let again = bind_task_round_robin(&mut available_slots, &mut none_left, &vec![], 7);
    assert_eq!(0, again.len());
}

#[test]
fn consistent_hash_marks_only_first_hits_as_placed_by_data() {
    let mut active_jobs = mock_active_jobs(8);
    let (bound_tasks, ring) = bind_task_consistent_hash(
        mock_topology_nodes(),
        31,
        1,
        &mut active_jobs,
        &mock_get_scan_files("job_b", 8),
        7,
    )
    .unwrap();
    let marks: Vec<bool> = bound_tasks.iter().map(|t| t.1.data_cache).collect();
    assert_eq!(marks, vec![true, true, true, true, true, true, false]);
    // the slots that the ring's nodes lost are the tasks bound
    let left: u32 = ring
        .unwrap()
        .node_list()
        .iter()
        .map(|node| node.available_slots)
        .sum();
    assert_eq!(left, 9 - 7);
}

#[test]
fn consistent_hash_takes_one_slot_for_each_task() {
    let mut active_jobs = mock_active_jobs(8);
    let (bound_tasks, ring) = bind_task_consistent_hash(
        mock_topology_nodes(),
        31,
        0,
        &mut active_jobs,
        &mock_get_scan_files("job_b", 8),
        7,
    )
    .unwrap();
    assert_eq!(6, bound_tasks.len());
    let ring = ring.unwrap();
    for node in ring.node_list() {
        let before = match node.id.as_str() {
            "executor_1" => 1,
            "executor_2" => 3,
            _ => 5,
        };
        let bound = bound_tasks.iter().filter(|t| t.0 == node.id).count() as u32;
        assert_eq!(node.available_slots + bound, before);
    }
    assert_eq!(active_jobs[0].stage(1).available_tasks(), 2);
    assert_eq!(active_jobs[1].stage(1).available_tasks(), 1);
}

#[test]
fn consistent_hash_without_scan_files_changes_nothing() {
    let mut active_jobs = mock_active_jobs(8);
    let (bound_tasks, ring) = bind_task_consistent_hash(
        mock_topology_nodes(),
        31,
        0,
        &mut active_jobs,
        &mock_get_scan_files("job_c", 8),
        7,
    )
    .unwrap();
    assert_eq!(0, bound_tasks.len());
    assert_eq!(active_jobs[0].stage(1).available_tasks(), 2);
    assert_eq!(active_jobs[1].stage(1).available_tasks(), 7);
    assert_eq!(active_jobs[0].stage(1).task_id_gen(), 6);
    assert_eq!(active_jobs[1].stage(1).task_id_gen(), 1);
    let mut left: Vec<(String, u32)> = ring
        .unwrap()
        .node_list()
        .iter()
        .map(|node| (node.id.clone(), node.available_slots))
        .collect();
    left.sort();
    assert_eq!(
        left,
        vec![
            ("executor_1".to_string(), 1),
            ("executor_2".to_string(), 3),
            ("executor_3".to_string(), 5)
        ]
    );
}

#[test]
fn consistent_hash_skips_a_stage_with_two_scans() {
    let mut active_jobs = mock_active_jobs(8);
    let mut table = mock_get_scan_files("job_b", 8);
    let double = {
        let mut scans = mock_scan_files(8);
        scans.push(mock_scan_files(8).remove(0));
        scans
    };
    table[1].files = Ok(double);
    let (bound_tasks, _) =
        bind_task_consistent_hash(mock_topology_nodes(), 31, 0, &mut active_jobs, &table, 7)
            .unwrap();
    assert_eq!(0, bound_tasks.len());
}

#[test]
fn consistent_hash_without_free_slots_makes_no_ring() {
    let mut active_jobs = mock_active_jobs(8);
    let nodes = vec![TopologyNode::new("localhost", 8081, "executor_1", 0, 0)];
    let (bound_tasks, ring) = bind_task_consistent_hash(
        nodes,
        31,
        0,
        &mut active_jobs,
        &mock_get_scan_files("job_b", 8),
        7,
    )
    .unwrap();
    assert_eq!(0, bound_tasks.len());
    assert!(ring.is_none());
}

#[test]
fn consistent_hash_without_points_binds_nothing() {
    let mut active_jobs = mock_active_jobs(8);
    let (bound_tasks, ring) = bind_task_consistent_hash(
        mock_topology_nodes(),
        0,
        3,
        &mut active_jobs,
        &mock_get_scan_files("job_b", 8),
        7,
    )
    .unwrap();
    assert_eq!(0, bound_tasks.len());
    assert!(ring.is_some());
    assert_eq!(active_jobs[1].stage(1).available_tasks(), 7);
}

#[test]
fn consistent_hash_fails_on_a_partition_without_files_and_rolls_back() {
    let mut active_jobs = mock_active_jobs(8);
    let mut table = mock_get_scan_files("job_b", 8);
    let mut scans = mock_scan_files(8);
    // partition 5 of the scan has no file; partitions before it may bind first
    scans[0][5] = vec![];
    table[1].files = Ok(scans);
    let result =
        bind_task_consistent_hash(mock_topology_nodes(), 31, 0, &mut active_jobs, &table, 7);
    match result {
        Err(BallistaError::InvalidState(_)) => {}
        other => panic!("unexpected result {:?}", other.map(|r| r.0)),
    }
    assert_eq!(active_jobs[1].stage(1).available_tasks(), 7);
    assert_eq!(active_jobs[1].stage(1).task_id_gen(), 1);
}

#[test]
fn consistent_hash_hands_on_the_error_of_the_extractor() {
    let mut active_jobs = mock_active_jobs(8);
    let mut table = mock_get_scan_files("job_b", 8);
    table[1].files = Err(BallistaError::Internal("no plan".to_string()));
    let result =
        bind_task_consistent_hash(mock_topology_nodes(), 31, 0, &mut active_jobs, &table, 7);
    match result {
        Err(BallistaError::Internal(message)) => assert_eq!(message, "no plan"),
        other => panic!("unexpected result {:?}", other.map(|r| r.0)),
    }
    assert_eq!(active_jobs[1].stage(1).available_tasks(), 7);
}

#[test]
fn round_robin_shares_differ_by_one_at_most() {
    // three executors with three slots each at least: after any number of
    // tasks up to nine the shares differ by one at most
    for pending in 1..=7usize {
        let mut active_jobs = vec![mock_graph("job_b", 8, pending)];
        let mut available_slots = mock_available_slots();
        let bound_tasks =
            bind_task_round_robin(&mut available_slots, &mut active_jobs, &vec![], 7);
        assert_eq!(pending, bound_tasks.len());
        let share = |id: &str| bound_tasks.iter().filter(|t| t.0 == id).count();
        let shares = [share("executor_1"), share("executor_2"), share("executor_3")];
        let most = *shares.iter().max().unwrap();
        let least = *shares.iter().min().unwrap();
        assert!(most - least <= 1, "shares {:?}", shares);
    }
}

#[test]
fn every_slot_taken_is_a_task_bound() {
    for round_robin in [false, true] {
        let mut active_jobs = mock_active_jobs(8);
        let mut available_slots = mock_available_slots();
        let bound_tasks = if round_robin {
            bind_task_round_robin(&mut available_slots, &mut active_jobs, &vec![], 7)
        } else {
            bind_task_bias(&mut available_slots, &mut active_jobs, &vec![], 7)
        };
        for (before, after) in mock_available_slots().iter().zip(available_slots.iter()) {
            let bound = bound_tasks
                .iter()
                .filter(|t| t.0 == before.executor_id)
                .count() as u32;
            assert_eq!(before.slots - after.slots, bound);
        }
    }
}

#[test]
fn ties_keep_the_order_of_the_snapshot() {
    let mut active_jobs = vec![mock_graph("job_b", 8, 3)];
    let mut available_slots = vec![
        AvailableTaskSlots {
            executor_id: "executor_1".to_string(),
            slots: 1,
        },
        AvailableTaskSlots {
            executor_id: "executor_2".to_string(),
            slots: 2,
        },
        AvailableTaskSlots {
            executor_id: "executor_3".to_string(),
            slots: 2,
        },
    ];
    let bound_tasks = bind_task_bias(&mut available_slots, &mut active_jobs, &vec![], 7);
    let executors: Vec<&str> = bound_tasks.iter().map(|t| t.0.as_str()).collect();
    assert_eq!(executors, vec!["executor_2", "executor_2", "executor_3"]);
}

#[test]
fn task_ids_go_on_from_the_generator_stage_by_stage() {
    let mut graph = ExecutionGraph::new(
        "job_c".to_string(),
        "session".to_string(),
        JobStatus::Running,
    );
    graph.add_stage(Stage::new(4, 1, 40, true, vec![2, 3])).unwrap();
    graph.add_stage(Stage::new(5, 0, 50, false, vec![0])).unwrap();
    graph.add_stage(Stage::new(6, 0, 60, true, vec![0, 0, 7])).unwrap();
    let mut active_jobs = vec![graph];
    let mut available_slots = mock_available_slots();
    let bound_tasks = bind_task_bias(&mut available_slots, &mut active_jobs, &vec![], 9);
    let seen: Vec<(usize, usize, usize, usize, usize, u64)> = bound_tasks
        .iter()
        .map(|t| {
            (
                t.1.partition.stage_id,
                t.1.partition.partition_id,
                t.1.task_id,
                t.1.task_attempt,
                t.1.stage_attempt_num,
                t.1.plan,
            )
        })
        .collect();
    assert_eq!(
        seen,
        vec![
            (4, 0, 0, 2, 1, 40),
            (4, 1, 1, 3, 1, 40),
            (6, 0, 0, 0, 0, 60),
            (6, 1, 1, 0, 0, 60),
            (6, 2, 2, 7, 0, 60)
        ]
    );
    assert_eq!(active_jobs[0].stage(1).available_tasks(), 1);
}

#[test]
fn binding_the_same_jobs_on_the_same_ring_gives_the_same_tasks() {
    let mut seen: Vec<Vec<(String, usize, usize, bool)>> = Vec::new();
    for _ in 0..3 {
        let mut active_jobs = mock_active_jobs(8);
        let (bound_tasks, _) = bind_task_consistent_hash(
            mock_topology_nodes(),
            31,
            1,
            &mut active_jobs,
            &mock_get_scan_files("job_b", 8),
            7,
        )
        .unwrap();
        seen.push(
            bound_tasks
                .into_iter()
                .map(|t| (t.0, t.1.partition.partition_id, t.1.task_id, t.1.data_cache))
                .collect(),
        );
    }
    assert_eq!(seen[0].len(), 7);
    assert_eq!(seen[0], seen[1]);
    assert_eq!(seen[1], seen[2]);
}

#[test]
fn a_partition_without_files_is_named_in_the_error() {
    let mut active_jobs = mock_active_jobs(8);
    let mut table = mock_get_scan_files("job_b", 8);
    table[1].files = Ok(vec![vec![]]);
    let error =
        bind_task_consistent_hash(mock_topology_nodes(), 31, 0, &mut active_jobs, &table, 7)
            .map(|r| r.0)
            .unwrap_err();
    assert_eq!(error.message(), "a partition has no file to place it by");
}
