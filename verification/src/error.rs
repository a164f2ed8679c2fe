use vstd::prelude::*;

verus! {

/// The ways in which an operation of the scheduler can fail. Each kind carries
/// a message for the operator.
#[derive(Debug)]
pub enum BallistaError {
    /// An executor, job or session that was asked for is not known.
    NotFound(String),
    /// Something with that identity is already there.
    AlreadyExists(String),
    /// The state does not allow the operation: a job that is not running,
    /// partition files that are absent.
    InvalidState(String),
    /// The storage backend failed.
    Storage(String),
    /// A value could not be encoded or decoded.
    Serialization(String),
    /// A transaction or compare-and-swap lost against another writer.
    Concurrency(String),
    /// Anything else.
    Internal(String),
}

impl BallistaError {
    /// The words of the message that the error carries.
    pub open spec fn text(self) -> Seq<char> {
        match self {
            BallistaError::NotFound(m) => m@,
            BallistaError::AlreadyExists(m) => m@,
            BallistaError::InvalidState(m) => m@,
            BallistaError::Storage(m) => m@,
            BallistaError::Serialization(m) => m@,
            BallistaError::Concurrency(m) => m@,
            BallistaError::Internal(m) => m@,
        }
    }

    /// A copy of the error that is equal to it.
    pub fn duplicate(&self) -> (copy: BallistaError)
        ensures
            copy == *self,
    {
        match self {
            BallistaError::NotFound(m) => BallistaError::NotFound(m.clone()),
            BallistaError::AlreadyExists(m) => BallistaError::AlreadyExists(m.clone()),
            BallistaError::InvalidState(m) => BallistaError::InvalidState(m.clone()),
            BallistaError::Storage(m) => BallistaError::Storage(m.clone()),
            BallistaError::Serialization(m) => BallistaError::Serialization(m.clone()),
            BallistaError::Concurrency(m) => BallistaError::Concurrency(m.clone()),
            BallistaError::Internal(m) => BallistaError::Internal(m.clone()),
        }
    }

    /// The message that the error carries.
    pub fn message(&self) -> (m: &String)
        ensures
            *m == match *self {
                BallistaError::NotFound(s) => s,
                BallistaError::AlreadyExists(s) => s,
                BallistaError::InvalidState(s) => s,
                BallistaError::Storage(s) => s,
                BallistaError::Serialization(s) => s,
                BallistaError::Concurrency(s) => s,
                BallistaError::Internal(s) => s,
            },
    {
        match self {
            BallistaError::NotFound(m) => m,
            BallistaError::AlreadyExists(m) => m,
            BallistaError::InvalidState(m) => m,
            BallistaError::Storage(m) => m,
            BallistaError::Serialization(m) => m,
            BallistaError::Concurrency(m) => m,
            BallistaError::Internal(m) => m,
        }
    }
}

} // verus!
