use vstd::prelude::*;

verus! {

/// The typed failures that the engine reports to its callers.
#[derive(Debug)]
pub enum DbError {
    /// No buffer could be freed for a pin request.
    BufferAbort(String),
    /// A read, write or append of storage failed.
    Io(String),
    /// An operation was invoked on a transaction that is no longer active.
    TransactionAbort(String),
    /// A lock could not be obtained.
    Deadlock,
    BadIndex(String),
    Schema(String),
    /// A log record could not be encoded or decoded.
    Serialization(String),
}

/// The result type used throughout the engine.
pub type DbResult<T> = Result<T, DbError>;

} // verus!
