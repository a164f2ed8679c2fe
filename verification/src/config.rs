use vstd::prelude::*;
use vstd::string::StrSliceExecFns;
use vstd::string::StringExecFns;

verus! {

/// The backend that holds the cluster's state.
#[derive(Debug, Clone, Copy, PartialEq, Eq, Structural)]
pub enum ClusterStorage {
    Etcd,
    Memory,
    Sled,
}

/// A character with an upper-case ASCII letter turned into its lower-case
/// letter.
pub open spec fn ascii_lower(c: char) -> char {
    if 'A' <= c && c <= 'Z' {
        ((c as u8) + 32) as char
    } else {
        c
    }
}

/// Whether a text is a name, but for the case of its ASCII letters. The name
/// is in lower case.
pub open spec fn names(text: Seq<char>, name: Seq<char>) -> bool {
    &&& text.len() == name.len()
    &&& forall|i: int| 0 <= i < text.len() ==> ascii_lower(#[trigger] text[i]) == name[i]
}

/// The backend that a text names.
pub open spec fn storage_named(text: Seq<char>) -> Option<ClusterStorage> {
    if names(text, "etcd"@) {
        Some(ClusterStorage::Etcd)
    } else if names(text, "memory"@) {
        Some(ClusterStorage::Memory)
    } else if names(text, "sled"@) {
        Some(ClusterStorage::Sled)
    } else {
        None
    }
}

/// A character with an upper-case ASCII letter turned into lower case.
fn lower(c: char) -> (folded: char)
    ensures
        folded == ascii_lower(c),
{
    if 'A' <= c && c <= 'Z' {
        ((c as u8) + 32) as char
    } else {
        c
    }
}

/// Whether a text is a name, but for the case of its ASCII letters.
fn is_named(text: &str, name: &str) -> (b: bool)
    ensures
        b == names(text@, name@),
{
    let n = text.unicode_len();
    if n != name.unicode_len() {
        return false;
    }
    let mut i: usize = 0;
    while i < n
        invariant
            i <= n,
            n == text@.len(),
            n == name@.len(),
            forall|k: int| 0 <= k < i ==> ascii_lower(#[trigger] text@[k]) == name@[k],
        decreases n - i,
    {
        if lower(text.get_char(i)) != name.get_char(i) {
            return false;
        }
        i = i + 1;
    }
    true
}

impl ClusterStorage {
    /// Reads the name of a backend: `etcd`, `memory` or `sled`, in any case.
    /// Another text is refused with a message that repeats it.
    pub fn parse(text: &str) -> (result: Result<ClusterStorage, String>)
        ensures
            match result {
                Ok(storage) => storage_named(text@) == Some(storage),
                Err(message) => storage_named(text@) is None && message@ == "Invalid variant: "@
                    + text@,
            },
    {
        if is_named(text, "etcd") {
            Ok(ClusterStorage::Etcd)
        } else if is_named(text, "memory") {
            Ok(ClusterStorage::Memory)
        } else if is_named(text, "sled") {
            Ok(ClusterStorage::Sled)
        } else {
            Err(String::from_str("Invalid variant: ").concat(text))
        }
    }

    /// What the setting is, for a help text.
    pub fn describe_type() -> (text: String)
        ensures
            text@ == "The cluster storage backend for the scheduler"@,
    {
        String::from_str("The cluster storage backend for the scheduler")
    }
}

impl std::str::FromStr for ClusterStorage {
    type Err = String;

    fn from_str(s: &str) -> (result: Result<ClusterStorage, String>)
        ensures
            match result {
                Ok(storage) => storage_named(s@) == Some(storage),
                Err(message) => storage_named(s@) is None && message@ == "Invalid variant: "@ + s@,
            },
    {
        ClusterStorage::parse(s)
    }
}

/// The number of ring points for each node where the configuration gives
/// none.
pub const DEFAULT_NUM_REPLICAS: usize = 31;

/// The tolerance of the consistent-hash policy where the configuration gives
/// none.
pub const DEFAULT_TOLERANCE: usize = 0;

/// How a round places tasks on executors.
#[derive(Debug, Clone, Copy, PartialEq, Eq, Structural)]
pub enum TaskDistributionPolicy {
    /// Fill the executor with the most free slots first.
    Bias,
    /// Give each executor one task in turn.
    RoundRobin,
    /// Place a task by the hash of the first file that it reads.
    ConsistentHash { num_replicas: usize, tolerance: usize },
}

impl TaskDistributionPolicy {
    /// The consistent-hash policy with the default number of points and the
    /// default tolerance.
    pub fn consistent_hash() -> (policy: TaskDistributionPolicy)
        ensures
            policy == (TaskDistributionPolicy::ConsistentHash {
                num_replicas: DEFAULT_NUM_REPLICAS,
                tolerance: DEFAULT_TOLERANCE,
            }),
    {
        TaskDistributionPolicy::ConsistentHash {
            num_replicas: DEFAULT_NUM_REPLICAS,
            tolerance: DEFAULT_TOLERANCE,
        }
    }
}

} // verus!
