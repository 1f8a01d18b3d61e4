//! The storage contract and the factory that selects a backend.

use crate::model::{
    get_result_view, scan_result_view, spec_commit, spec_get, spec_prewrite, spec_rollback,
    spec_scan_ok, MvccModel,
};
use crate::{Error, Key, Value};
use vstd::prelude::*;

verus! {

/// Which storage backend to construct.
pub enum StorageType {
    /// The native multi-version-key model: the engine keeps versions under
    /// the logical key itself.
    UserTimestampStorage,
    /// The explicit-version-suffix model: every version is a physical key
    /// of its own.
    TiKVStorage,
    /// A reserved backend name with no implementation here.
    Unistore,
    /// No backend selected.
    Unknown,
}

/// The MVCC operation set. Every implementation carries an abstract
/// `model()` — a lock table and a committed history — and each operation
/// is exactly the corresponding transition of `crate::model` on it.
pub trait MvccStorage: Sized {
    /// The backend's internal well-formedness.
    spec fn inv(&self) -> bool;

    /// The abstract state this backend represents.
    spec fn model(&self) -> MvccModel;

    /// Whether this backend implements bounded versioned range scans.
    spec fn scan_supported(&self) -> bool;

    /// Installs a write intent for `key` if the key is free of intents and
    /// of committed versions as new as `start_ts`.
    fn prewrite(&mut self, key: &Key, value: &Value, start_ts: u64) -> (r: Result<(), Error>)
        requires
            old(self).inv(),
        ensures
            final(self).inv(),
            final(self).scan_supported() == old(self).scan_supported(),
            final(self).model() == spec_prewrite(old(self).model(), key@, value@, start_ts).0,
            r == spec_prewrite(old(self).model(), key@, value@, start_ts).1,
    ;

    /// Turns the intent with matching `start_ts` into a committed version
    /// at `commit_ts` and releases it; committing an already committed
    /// transaction again is idempotent success.
    fn commit(&mut self, key: &Key, start_ts: u64, commit_ts: u64) -> (r: Result<(), Error>)
        requires
            old(self).inv(),
        ensures
            final(self).inv(),
            final(self).scan_supported() == old(self).scan_supported(),
            final(self).model() == spec_commit(old(self).model(), key@, start_ts, commit_ts).0,
            r == spec_commit(old(self).model(), key@, start_ts, commit_ts).1,
    ;

    /// Discards the intent with matching `start_ts` without persisting
    /// anything; rolling back an already rolled back transaction is
    /// idempotent success, rolling back a committed one an error.
    fn rollback(&mut self, key: &Key, start_ts: u64) -> (r: Result<(), Error>)
        requires
            old(self).inv(),
        ensures
            final(self).inv(),
            final(self).scan_supported() == old(self).scan_supported(),
            final(self).model() == spec_rollback(old(self).model(), key@, start_ts).0,
            r == spec_rollback(old(self).model(), key@, start_ts).1,
    ;

    /// Snapshot read of `key` at `ts`: fails on a blocking intent, and
    /// otherwise returns the newest committed value visible at `ts`.
    fn get(&self, key: &Key, ts: u64) -> (r: Result<Option<Value>, Error>)
        requires
            self.inv(),
        ensures
            get_result_view(r) == spec_get(self.model(), key@, ts),
    ;

    /// Snapshot read of every key in `[start, end)` at `ts`, newest visible
    /// value per key in key order; a backend may declare the operation
    /// unsupported.
    fn scan(&self, start: &Key, end: &Key, ts: u64) -> (r: Result<Vec<Value>, Error>)
        requires
            self.inv(),
        ensures
            spec_scan_ok(self.model(), start@, end@, ts, scan_result_view(r), self.scan_supported()),
    ;
}

/// A storage of either backend, selected at construction time.
pub enum AnyStorage {
    /// The native multi-version-key backend.
    UserTimestamp(crate::user_timestamp::Storage),
    /// The explicit-version-suffix backend.
    TiKV(crate::tikv::Storage),
}

impl MvccStorage for AnyStorage {
    closed spec fn inv(&self) -> bool {
        match self {
            AnyStorage::UserTimestamp(s) => s.inv(),
            AnyStorage::TiKV(s) => s.inv(),
        }
    }

    closed spec fn model(&self) -> MvccModel {
        match self {
            AnyStorage::UserTimestamp(s) => s.model(),
            AnyStorage::TiKV(s) => s.model(),
        }
    }

    closed spec fn scan_supported(&self) -> bool {
        match self {
            AnyStorage::UserTimestamp(s) => s.scan_supported(),
            AnyStorage::TiKV(s) => s.scan_supported(),
        }
    }

    fn prewrite(&mut self, key: &Key, value: &Value, start_ts: u64) -> (r: Result<(), Error>) {
        match self {
            AnyStorage::UserTimestamp(s) => s.prewrite(key, value, start_ts),
            AnyStorage::TiKV(s) => s.prewrite(key, value, start_ts),
        }
    }

    fn commit(&mut self, key: &Key, start_ts: u64, commit_ts: u64) -> (r: Result<(), Error>) {
        match self {
            AnyStorage::UserTimestamp(s) => s.commit(key, start_ts, commit_ts),
            AnyStorage::TiKV(s) => s.commit(key, start_ts, commit_ts),
        }
    }

    fn rollback(&mut self, key: &Key, start_ts: u64) -> (r: Result<(), Error>) {
        match self {
            AnyStorage::UserTimestamp(s) => s.rollback(key, start_ts),
            AnyStorage::TiKV(s) => s.rollback(key, start_ts),
        }
    }

    fn get(&self, key: &Key, ts: u64) -> (r: Result<Option<Value>, Error>) {
        match self {
            AnyStorage::UserTimestamp(s) => s.get(key, ts),
            AnyStorage::TiKV(s) => s.get(key, ts),
        }
    }

    fn scan(&self, start: &Key, end: &Key, ts: u64) -> (r: Result<Vec<Value>, Error>) {
        match self {
            AnyStorage::UserTimestamp(s) => s.scan(start, end, ts),
            AnyStorage::TiKV(s) => s.scan(start, end, ts),
        }
    }
}

/// Builds an empty storage of the requested backend; the reserved and
/// unselected backend names cannot be constructed.
pub fn create_storage(storage_type: StorageType) -> (r: Result<AnyStorage, Error>)
    ensures
        match storage_type {
            StorageType::UserTimestampStorage => r is Ok && r->Ok_0.inv() && r->Ok_0.model()
                == MvccModel::empty() && r->Ok_0.scan_supported(),
            StorageType::TiKVStorage => r is Ok && r->Ok_0.inv() && r->Ok_0.model()
                == MvccModel::empty() && !r->Ok_0.scan_supported(),
            _ => r == Err::<AnyStorage, Error>(Error::Unsupported),
        },
{
    match storage_type {
        StorageType::UserTimestampStorage => Ok(
            AnyStorage::UserTimestamp(crate::user_timestamp::Storage::new()),
        ),
        StorageType::TiKVStorage => Ok(AnyStorage::TiKV(crate::tikv::Storage::new())),
        _ => Err(Error::Unsupported),
    }
}

/// Builds an empty storage with default engine configuration; only the
/// native multi-version-key backend is offered here.
pub fn create_default_storage(storage_type: StorageType) -> (r: Result<AnyStorage, Error>)
    ensures
        match storage_type {
            StorageType::UserTimestampStorage => r is Ok && r->Ok_0.inv() && r->Ok_0.model()
                == MvccModel::empty() && r->Ok_0.scan_supported(),
            _ => r == Err::<AnyStorage, Error>(Error::Unsupported),
        },
{
    match storage_type {
        StorageType::UserTimestampStorage => Ok(
            AnyStorage::UserTimestamp(crate::user_timestamp::Storage::new()),
        ),
        _ => Err(Error::Unsupported),
    }
}

} // verus!
