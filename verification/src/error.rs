//! Error taxonomy surfaced across the library boundary.

use vstd::prelude::*;

verus! {

/// Every failure the store can report.
#[derive(Debug, Clone)]
pub enum MongoLiteError {
    /// The underlying filesystem failed (reported by the embedding).
    Io(String),
    /// Encoding a value or record failed.
    Serialization(String),
    /// Parsing persisted bytes or a user-supplied payload failed.
    Deserialization(String),
    /// No collection with the given name exists.
    CollectionNotFound(String),
    /// A collection with the given name already exists.
    CollectionExists(String),
    /// No document matched.
    DocumentNotFound,
    /// Malformed predicate or unknown operator.
    InvalidQuery(String),
    /// An on-disk invariant is violated (bad magic, metadata overflow, bad node tag).
    Corruption(String),
    /// Duplicate key under a unique index, oversized node, bad hint, duplicate index.
    IndexError(String),
    /// Pipeline authoring error.
    AggregationError(String),
    /// Attempted operation on a non-active transaction.
    TransactionCommitted,
    /// Missing transaction, or user-triggered abort.
    TransactionAborted(String),
    /// CRC mismatch or unrecognized frame type in the write-ahead log.
    WALCorruption,
    /// Anything else.
    Unknown(String),
}

} // verus!
