//! An embeddable, single-process document store: append-only data file with a
//! reserved metadata region, a CRC-checked write-ahead log, B+ tree indexes,
//! and a transaction manager with a two-phase commit over index snapshots.
//!
//! The library works on in-memory images of the data file, the WAL and the
//! index files; reading and writing the real files is left to the embedding.

pub mod aggregation;
pub mod btree;
pub mod collection;
pub mod compact;
pub mod database;
pub mod error;
pub mod find_options;
pub mod index;
pub mod key;
pub mod planner;
pub mod query;
pub mod storage;
pub mod transaction;
pub mod value;
pub mod wal;

use vstd::prelude::*;

verus! {

/// Number of bytes reserved for the fixed header at the start of the data file.
pub const HEADER_SIZE: u64 = 256;

/// Number of bytes reserved for serialized collection metadata after the header.
pub const RESERVED_METADATA_SIZE: u64 = 262144;

/// Fixed offset at which document records begin; independent of metadata growth.
pub const DATA_START_OFFSET: u64 = 262400;

} // verus!
