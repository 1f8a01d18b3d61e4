//! An experimental multi-version-concurrency-control (MVCC) storage layer.
//!
//! The crate compares two strategies for keeping several versions of one
//! logical key: a "native multi-version key" layout, where the engine keeps
//! versions of a key under the key itself (`user_timestamp`), and an
//! "explicit version suffix" layout, where every version is a physical key of
//! its own (`tikv`). Both implement the same two-phase
//! (prewrite/commit/rollback) protocol over an in-memory lock table and an
//! ordered key-value engine, and both are specified against one abstract
//! model of locks and committed history (`model`).
//!
//! The store is single-process and keeps outstanding intents in memory only:
//! crash recovery of in-flight intents and garbage collection of old versions
//! are out of scope.

use vstd::prelude::*;

pub mod engine;
pub mod keyorder;
pub mod memstore;
pub mod model;
pub mod storage;
pub mod tikv;
pub mod ts_codec;
pub mod user_timestamp;

verus! {

/// A logical key: an opaque byte string, ordered lexicographically.
pub type Key = Vec<u8>;

/// A value: an opaque byte string.
pub type Value = Vec<u8>;

/// The outcomes an operation can fail with. Conflicts are expected,
/// recoverable-by-caller results; nothing is retried internally.
#[derive(Clone, Copy, Debug, PartialEq, Eq, Structural)]
pub enum Error {
    /// An outstanding intent blocks the requested operation.
    KeyLocked,
    /// The write is older than an existing committed version.
    KeyVersionConflict,
    /// Commit or rollback found no matching intent and no matching history.
    TxnResolvedElsewhere,
    /// The backend cannot perform the requested operation.
    Unsupported,
}

} // verus!
