use ballista_scheduler::error::BallistaError;
use ballista_scheduler::keys::{decode_slots, encode_slots, store_key, Keyspace};

#[test]
fn keys_name_the_namespace_the_kind_and_the_id() {
    assert_eq!(
        store_key("ballista", Keyspace::Executors, "executor_1"),
        "ballista/executors/executor_1"
    );
    assert_eq!(
        store_key("ballista", Keyspace::Heartbeats, "executor_1"),
        "ballista/heartbeats/executor_1"
    );
    assert_eq!(store_key("ns", Keyspace::Slots, "e"), "ns/slots/e");
    assert_eq!(store_key("ns", Keyspace::Jobs, "job_a"), "ns/jobs/job_a");
    assert_eq!(store_key("", Keyspace::Sessions, ""), "/sessions/");
}

#[test]
fn a_slot_count_is_four_bytes_with_the_highest_first() {
    assert_eq!(encode_slots(0), vec![0, 0, 0, 0]);
    assert_eq!(encode_slots(7), vec![0, 0, 0, 7]);
    assert_eq!(encode_slots(0x0102_0304), vec![1, 2, 3, 4]);
    assert_eq!(encode_slots(u32::MAX), vec![255, 255, 255, 255]);
}

#[test]
fn what_was_written_is_read() {
    for slots in [0u32, 1, 255, 256, 65_535, 65_536, 16_777_216, 4_000_000_000, u32::MAX] {
        assert_eq!(decode_slots(&encode_slots(slots)).unwrap(), slots);
    }
    assert_eq!(decode_slots(&vec![0, 0, 1, 0]).unwrap(), 256);
}

#[test]
fn bytes_of_another_length_are_refused() {
    for bytes in [vec![], vec![1], vec![1, 2, 3], vec![1, 2, 3, 4, 5]] {
        match decode_slots(&bytes) {
            Err(BallistaError::Serialization(message)) => {
                assert_eq!(message, "a slot count has four bytes")
            }
            other => panic!("unexpected result {:?}", other),
        }
    }
}
