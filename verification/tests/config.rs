use std::str::FromStr;

use ballista_scheduler::config::{
    ClusterStorage, TaskDistributionPolicy, DEFAULT_NUM_REPLICAS, DEFAULT_TOLERANCE,
};

#[test]
fn a_backend_is_read_in_any_case() {
    assert_eq!(ClusterStorage::parse("etcd"), Ok(ClusterStorage::Etcd));
    assert_eq!(ClusterStorage::parse("Memory"), Ok(ClusterStorage::Memory));
    assert_eq!(ClusterStorage::parse("SLED"), Ok(ClusterStorage::Sled));
    assert_eq!(ClusterStorage::from_str("mEmOrY"), Ok(ClusterStorage::Memory));
    assert_eq!("sled".parse::<ClusterStorage>(), Ok(ClusterStorage::Sled));
}

#[test]
fn another_text_is_refused_with_its_words() {
    assert_eq!(
        ClusterStorage::parse("redis"),
        Err("Invalid variant: redis".to_string())
    );
    assert_eq!(ClusterStorage::parse(""), Err("Invalid variant: ".to_string()));
    assert_eq!(
        ClusterStorage::parse("etcd "),
        Err("Invalid variant: etcd ".to_string())
    );
    assert_eq!(
        ClusterStorage::parse("sléd"),
        Err("Invalid variant: sléd".to_string())
    );
    assert_eq!(
        ClusterStorage::from_str("memor"),
        Err("Invalid variant: memor".to_string())
    );
}

#[test]
fn the_setting_is_described() {
    assert_eq!(
        ClusterStorage::describe_type(),
        "The cluster storage backend for the scheduler"
    );
}

#[test]
fn consistent_hash_has_defaults() {
    assert_eq!(DEFAULT_NUM_REPLICAS, 31);
    assert_eq!(DEFAULT_TOLERANCE, 0);
    assert_eq!(
        TaskDistributionPolicy::consistent_hash(),
        TaskDistributionPolicy::ConsistentHash {
            num_replicas: 31,
            tolerance: 0
        }
    );
    assert_ne!(TaskDistributionPolicy::Bias, TaskDistributionPolicy::RoundRobin);
}
