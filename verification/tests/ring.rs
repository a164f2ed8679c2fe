use ballista_core::consistent_hash::node::Node;
use ballista_core::consistent_hash::ConsistentHash;
use ballista_scheduler::ring::{HashRing, TopologyNode};

fn nodes(slots: [u32; 3]) -> Vec<TopologyNode> {
    vec![
        TopologyNode::new("localhost", 8081, "executor_1", 0, slots[0]),
        TopologyNode::new("localhost", 8082, "executor_2", 0, slots[1]),
        TopologyNode::new("localhost", 8083, "executor_3", 0, slots[2]),
    ]
}

#[test]
fn a_node_is_named_by_host_and_port() {
    let node = TopologyNode::new("node-7.cluster", 50051, "executor_7", 1234, 4);
    assert_eq!(node.name, "node-7.cluster:50051");
    assert_eq!(node.id, "executor_7");
    assert_eq!(node.last_seen_ts, 1234);
    assert_eq!(node.available_slots, 4);
    assert_eq!(Node::name(&node), "node-7.cluster:50051");
    assert_eq!(TopologyNode::new("h", 0, "e", 0, 0).name, "h:0");
    assert_eq!(TopologyNode::new("h", 65535, "e", 0, 0).name, "h:65535");
}

#[test]
fn a_node_is_valid_while_it_has_a_slot() {
    assert!(TopologyNode::new("h", 1, "e", 0, 1).is_valid());
    assert!(!TopologyNode::new("h", 1, "e", 0, 0).is_valid());
}

#[test]
fn an_empty_ring_hits_nothing() {
    let mut ring = HashRing::new(vec![], 31);
    assert_eq!(ring.take_slot(b"file--0", 0), None);
    assert_eq!(ring.take_slot(b"file--0", 9), None);
    assert!(ring.node_list().is_empty());
}

#[test]
fn a_ring_without_points_hits_nothing() {
    let mut ring = HashRing::new(nodes([1, 3, 5]), 0);
    assert_eq!(ring.num_replicas(), 0);
    assert_eq!(ring.take_slot(b"file--0", 0), None);
    assert_eq!(ring.take_slot(b"file--0", 100), None);
    assert_eq!(ring.node_list().len(), 3);
}

#[test]
fn a_single_node_is_hit_while_it_is_valid() {
    let mut ring = HashRing::new(vec![TopologyNode::new("h", 1, "only", 0, 2)], 31);
    assert_eq!(ring.take_slot(b"a", 0), Some("only".to_string()));
    assert_eq!(ring.take_slot(b"b", 0), Some("only".to_string()));
    assert_eq!(ring.take_slot(b"c", 0), None);
    assert_eq!(ring.take_slot(b"c", 50), None);
    assert_eq!(ring.node_list()[0].available_slots, 0);
}

#[test]
fn taking_a_slot_hits_the_node_that_the_ring_of_the_crate_hits() {
    let reference = ConsistentHash::new(nodes([9, 9, 9]).into_iter().map(|n| (n, 31)).collect());
    let mut hit = [false; 3];
    for i in 0..40 {
        let key = format!("file--{i}");
        let expected = reference.get(key.as_bytes()).unwrap().id.clone();
        let mut ring = HashRing::new(nodes([9, 9, 9]), 31);
        assert_eq!(ring.take_slot(key.as_bytes(), 0), Some(expected.clone()));
        let left: Vec<u32> = ring
            .node_list()
            .iter()
            .filter(|n| n.id == expected)
            .map(|n| n.available_slots)
            .collect();
        assert_eq!(left, vec![8]);
        hit[expected.as_bytes()[expected.len() - 1] as usize - '1' as usize] = true;
    }
    // the keys do not all fall on one node
    assert_eq!(hit, [true, true, true]);
}

#[test]
fn a_node_without_slots_is_passed_within_the_tolerance_only() {
    // find a key whose first node is executor_1
    let reference = ConsistentHash::new(nodes([1, 1, 1]).into_iter().map(|n| (n, 31)).collect());
    let key = (0..1000)
        .map(|i| format!("file--{i}"))
        .find(|key| reference.get(key.as_bytes()).unwrap().id == "executor_1")
        .unwrap();
    let mut ring = HashRing::new(nodes([0, 1, 1]), 31);
    assert_eq!(ring.take_slot(key.as_bytes(), 0), None);
    let taken = ring.take_slot(key.as_bytes(), 93);
    assert!(taken == Some("executor_2".to_string()) || taken == Some("executor_3".to_string()));
    let other = ring.take_slot(key.as_bytes(), 93);
    assert!(other.is_some());
    assert_ne!(other, taken);
    assert_eq!(ring.take_slot(key.as_bytes(), 93), None);
}

#[test]
fn the_later_of_two_nodes_with_one_name_stays() {
    let ring = HashRing::new(
        vec![
            TopologyNode::new("h", 1, "first", 0, 1),
            TopologyNode::new("h", 1, "second", 0, 2),
        ],
        31,
    );
    let list = ring.node_list();
    assert_eq!(list.len(), 1);
    assert_eq!(list[0].id, "second");
}

#[test]
fn a_copy_of_a_node_is_the_node() {
    let node = TopologyNode::new("h", 1, "e", 3, 2);
    let copy = node.duplicate();
    assert_eq!(copy.id, node.id);
    assert_eq!(copy.name, node.name);
    assert_eq!(copy.last_seen_ts, 3);
    assert_eq!(copy.available_slots, 2);
}
