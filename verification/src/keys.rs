use vstd::prelude::*;
use vstd::string::StringExecFns;
use crate::error::BallistaError;

verus! {

/// What a key of the replicated store names.
#[derive(Debug, Clone, Copy, PartialEq, Eq, Structural)]
pub enum Keyspace {
    Executors,
    Heartbeats,
    Slots,
    Jobs,
    Sessions,
}

/// The part of a key that says what the key names.
pub open spec fn keyspace_name(space: Keyspace) -> Seq<char> {
    match space {
        Keyspace::Executors => "executors"@,
        Keyspace::Heartbeats => "heartbeats"@,
        Keyspace::Slots => "slots"@,
        Keyspace::Jobs => "jobs"@,
        Keyspace::Sessions => "sessions"@,
    }
}

/// The key of an entry: the namespace of the scheduler, what the entry is,
/// and the id of the executor, job or session, with a slash between them.
pub open spec fn key_of(namespace: Seq<char>, space: Keyspace, id: Seq<char>) -> Seq<char> {
    namespace + "/"@ + keyspace_name(space) + "/"@ + id
}

/// The key under which the store holds an entry.
pub fn store_key(namespace: &str, space: Keyspace, id: &str) -> (key: String)
    ensures
        key@ == key_of(namespace@, space, id@),
{
    let name = match space {
        Keyspace::Executors => "executors",
        Keyspace::Heartbeats => "heartbeats",
        Keyspace::Slots => "slots",
        Keyspace::Jobs => "jobs",
        Keyspace::Sessions => "sessions",
    };
    String::from_str(namespace).concat("/").concat(name).concat("/").concat(id)
}

/// A slot count as the four bytes that the store holds, the highest first.
pub open spec fn slot_bytes(slots: u32) -> Seq<u8> {
    seq![
        (slots / 0x100_0000) as u8,
        (slots / 0x1_0000 % 0x100) as u8,
        (slots / 0x100 % 0x100) as u8,
        (slots % 0x100) as u8,
    ]
}

/// The bytes that the store holds for a slot count.
pub fn encode_slots(slots: u32) -> (bytes: Vec<u8>)
    ensures
        bytes@ == slot_bytes(slots),
{
    let mut bytes: Vec<u8> = Vec::new();
    bytes.push((slots / 0x100_0000) as u8);
    bytes.push((slots / 0x1_0000 % 0x100) as u8);
    bytes.push((slots / 0x100 % 0x100) as u8);
    bytes.push((slots % 0x100) as u8);
    assert(bytes@ =~= slot_bytes(slots));
    bytes
}

/// The slot count that four bytes stand for. Bytes of another length are no
/// slot count.
pub fn decode_slots(bytes: &Vec<u8>) -> (result: Result<u32, BallistaError>)
    ensures
        match result {
            Ok(slots) => bytes@ == slot_bytes(slots),
            Err(e) => e is Serialization && e.text() == "a slot count has four bytes"@ && bytes@.len()
                != 4,
        },
{
    if bytes.len() != 4 {
        return Err(BallistaError::Serialization("a slot count has four bytes".to_string()));
    }
    let a = bytes[0] as u32;
    let b = bytes[1] as u32;
    let c = bytes[2] as u32;
    let d = bytes[3] as u32;
    let slots: u32 = a * 0x100_0000 + b * 0x1_0000 + c * 0x100 + d;
    proof {
        lemma_slot_digits(a, b, c, d);
    }
    assert(bytes@ =~= slot_bytes(slots));
    Ok(slots)
}

/// The four bytes of a number are its digits to the base 256.
proof fn lemma_slot_digits(a: u32, b: u32, c: u32, d: u32)
    requires
        a < 0x100,
        b < 0x100,
        c < 0x100,
        d < 0x100,
    ensures
        ({
            let n = a * 0x100_0000 + b * 0x1_0000 + c * 0x100 + d;
            &&& n / 0x100_0000 == a
            &&& n / 0x1_0000 % 0x100 == b
            &&& n / 0x100 % 0x100 == c
            &&& n % 0x100 == d
        }),
{
    assert(a < 0x100 && b < 0x100 && c < 0x100 && d < 0x100 ==> {
        let n = (a * 0x100_0000 + b * 0x1_0000 + c * 0x100 + d) as u32;
        &&& n / 0x100_0000 == a
        &&& n / 0x1_0000 % 0x100 == b
        &&& n / 0x100 % 0x100 == c
        &&& n % 0x100 == d
    }) by (bit_vector);
}

/// What was written for a slot count is read as that slot count, and as no
/// other.
pub proof fn law_slot_bytes_round_trip(slots: u32, other: u32)
    ensures
        slot_bytes(slots).len() == 4,
        slot_bytes(slots) == slot_bytes(other) ==> slots == other,
{
    if slot_bytes(slots) == slot_bytes(other) {
        assert(slot_bytes(slots)[0] == slot_bytes(other)[0]);
        assert(slot_bytes(slots)[1] == slot_bytes(other)[1]);
        assert(slot_bytes(slots)[2] == slot_bytes(other)[2]);
        assert(slot_bytes(slots)[3] == slot_bytes(other)[3]);
        lemma_slot_digits_differ(slots, other);
    }
}

/// Two numbers with the same digits to the base 256 are one number.
proof fn lemma_slot_digits_differ(a: u32, b: u32)
    requires
        (a / 0x100_0000) as u8 == (b / 0x100_0000) as u8,
        (a / 0x1_0000 % 0x100) as u8 == (b / 0x1_0000 % 0x100) as u8,
        (a / 0x100 % 0x100) as u8 == (b / 0x100 % 0x100) as u8,
        (a % 0x100) as u8 == (b % 0x100) as u8,
    ensures
        a == b,
{
    assert(a / 0x100_0000 < 0x100 && a / 0x1_0000 % 0x100 < 0x100 && a / 0x100 % 0x100 < 0x100 && a
        % 0x100 < 0x100) by (bit_vector);
    assert(b / 0x100_0000 < 0x100 && b / 0x1_0000 % 0x100 < 0x100 && b / 0x100 % 0x100 < 0x100 && b
        % 0x100 < 0x100) by (bit_vector);
    assert(a / 0x100_0000 == b / 0x100_0000 && a / 0x1_0000 % 0x100 == b / 0x1_0000 % 0x100 && a
        / 0x100 % 0x100 == b / 0x100 % 0x100 && a % 0x100 == b % 0x100 ==> a == b) by (bit_vector);
}

} // verus!
