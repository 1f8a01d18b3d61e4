//! The MVCC protocol exercised through both storage backends.

use mvccstore::storage::{create_default_storage, create_storage, AnyStorage, MvccStorage, StorageType};
use mvccstore::Error;

fn prewrite(storage: &mut AnyStorage, key: &str, value: &str, ts: u64) -> Result<(), Error> {
    let k = key.as_bytes().to_vec();
    let v = value.as_bytes().to_vec();
    storage.prewrite(&k, &v, ts)
}

fn commit(storage: &mut AnyStorage, key: &str, start_ts: u64, commit_ts: u64) -> Result<(), Error> {
    let k = key.as_bytes().to_vec();
    storage.commit(&k, start_ts, commit_ts)
}

fn rollback(storage: &mut AnyStorage, key: &str, start_ts: u64) -> Result<(), Error> {
    let k = key.as_bytes().to_vec();
    storage.rollback(&k, start_ts)
}

fn read(storage: &AnyStorage, key: &str, ts: u64) -> Result<Option<Vec<u8>>, Error> {
    let k = key.as_bytes().to_vec();
    storage.get(&k, ts)
}

fn inner_test_mvcc_prewrite(storage_type: StorageType) {
    let mut storage = create_storage(storage_type).unwrap();
    prewrite(&mut storage, "abcd", "v1", 1).unwrap();
    let e = prewrite(&mut storage, "abcd", "v2", 1).err().unwrap();
    assert_eq!(e, Error::KeyLocked);
    commit(&mut storage, "abcd", 1, 2).unwrap();
    let _value = read(&storage, "abcd", 3).unwrap();
    let e = prewrite(&mut storage, "abcd", "v2", 1).err().unwrap();
    assert_eq!(e, Error::KeyVersionConflict);
}

fn inner_test_mvcc_read(storage_type: StorageType) {
    let mut storage = create_storage(storage_type).unwrap();
    prewrite(&mut storage, "abcd", "v1", 1).unwrap();
    let e = read(&storage, "abcd", 1).err().unwrap();
    assert_eq!(e, Error::KeyLocked);
    let ret = read(&storage, "abcd", 0).unwrap();
    assert!(ret.is_none());
    commit(&mut storage, "abcd", 1, 2).unwrap();
    let ret = read(&storage, "abcd", 1).unwrap();
    assert!(ret.is_none());
    prewrite(&mut storage, "abcd", "v2", 3).unwrap();
    let ret = read(&storage, "abcd", 2).unwrap();
    assert!(ret.is_some());
    let value = ret.unwrap();
    assert_eq!(value.as_slice(), "v1".as_bytes());
    commit(&mut storage, "abcd", 3, 3).unwrap();
    let ret = read(&storage, "abcd", 2).unwrap().unwrap();
    assert_eq!(ret.as_slice(), "v1".as_bytes());
    let ret = read(&storage, "abcd", u64::MAX).unwrap().unwrap();
    assert_eq!(ret.as_slice(), "v2".as_bytes());
}

#[test]
fn test_tikv_storage() {
    println!("====prewrite start");
    inner_test_mvcc_prewrite(StorageType::TiKVStorage);
    println!("====test read start");
    inner_test_mvcc_read(StorageType::TiKVStorage);
}

#[test]
fn test_user_timestamp_storage() {
    println!("====prewrite start");
    inner_test_mvcc_prewrite(StorageType::UserTimestampStorage);
    println!("====test read start");
    inner_test_mvcc_read(StorageType::UserTimestampStorage);
}

fn inner_test_prewrite_commit_then_visible(storage_type: StorageType) {
    let mut storage = create_storage(storage_type).unwrap();
    let ts: u64 = 7;
    prewrite(&mut storage, "k", "payload", ts).unwrap();
    commit(&mut storage, "k", ts, ts + 1).unwrap();
    let ret = read(&storage, "k", ts + 1).unwrap().unwrap();
    assert_eq!(ret.as_slice(), "payload".as_bytes());
}

#[test]
fn test_prewrite_commit_then_visible() {
    inner_test_prewrite_commit_then_visible(StorageType::TiKVStorage);
    inner_test_prewrite_commit_then_visible(StorageType::UserTimestampStorage);
}

fn inner_test_no_time_travel(storage_type: StorageType) {
    let mut storage = create_storage(storage_type).unwrap();
    prewrite(&mut storage, "k", "v", 5).unwrap();
    commit(&mut storage, "k", 5, 9).unwrap();
    assert!(read(&storage, "k", 4).unwrap().is_none());
    assert!(read(&storage, "k", 0).unwrap().is_none());
}

#[test]
fn test_no_time_travel_before_first_write() {
    inner_test_no_time_travel(StorageType::TiKVStorage);
    inner_test_no_time_travel(StorageType::UserTimestampStorage);
}

fn inner_test_scenario(storage_type: StorageType) {
    let mut storage = create_storage(storage_type).unwrap();
    prewrite(&mut storage, "abcd", "v1", 1).unwrap();
    commit(&mut storage, "abcd", 1, 2).unwrap();
    assert_eq!(read(&storage, "abcd", 3).unwrap().unwrap().as_slice(), "v1".as_bytes());
    prewrite(&mut storage, "abcd", "v2", 3).unwrap();
    assert_eq!(read(&storage, "abcd", 2).unwrap().unwrap().as_slice(), "v1".as_bytes());
    commit(&mut storage, "abcd", 3, 3).unwrap();
    assert_eq!(read(&storage, "abcd", 3).unwrap().unwrap().as_slice(), "v2".as_bytes());
}

#[test]
fn test_two_version_scenario() {
    inner_test_scenario(StorageType::TiKVStorage);
    inner_test_scenario(StorageType::UserTimestampStorage);
}

fn inner_test_rollback(storage_type: StorageType) {
    let mut storage = create_storage(storage_type).unwrap();
    prewrite(&mut storage, "k", "v", 1).unwrap();
    rollback(&mut storage, "k", 1).unwrap();
    assert!(read(&storage, "k", u64::MAX).unwrap().is_none());
    // rolling back again is idempotent success
    rollback(&mut storage, "k", 1).unwrap();
    // the key is free again
    prewrite(&mut storage, "k", "w", 2).unwrap();
}

#[test]
fn test_rollback_releases_without_version() {
    inner_test_rollback(StorageType::TiKVStorage);
    inner_test_rollback(StorageType::UserTimestampStorage);
}

fn inner_test_resolution(storage_type: StorageType) {
    let mut storage = create_storage(storage_type).unwrap();
    prewrite(&mut storage, "k", "v", 4).unwrap();
    // commit with a foreign start timestamp leaves the intent alone
    let e = commit(&mut storage, "k", 9, 10).err().unwrap();
    assert_eq!(e, Error::TxnResolvedElsewhere);
    let e = rollback(&mut storage, "k", 9).err().unwrap();
    assert_eq!(e, Error::TxnResolvedElsewhere);
    commit(&mut storage, "k", 4, 6).unwrap();
    // committing the same transaction again is idempotent success
    commit(&mut storage, "k", 4, 6).unwrap();
    // rolling back a committed transaction is an error
    let e = rollback(&mut storage, "k", 4).err().unwrap();
    assert_eq!(e, Error::TxnResolvedElsewhere);
    // committing a transaction that never prewrote fails
    let e = commit(&mut storage, "k", 1, 2).err().unwrap();
    assert_eq!(e, Error::TxnResolvedElsewhere);
}

#[test]
fn test_commit_rollback_resolution() {
    inner_test_resolution(StorageType::TiKVStorage);
    inner_test_resolution(StorageType::UserTimestampStorage);
}

#[test]
fn test_get_ignores_newer_intent() {
    for storage_type in [StorageType::TiKVStorage, StorageType::UserTimestampStorage] {
        let mut storage = create_storage(storage_type).unwrap();
        prewrite(&mut storage, "k", "v", 10).unwrap();
        // an intent with start_ts > ts is ignored by the read
        assert!(read(&storage, "k", 9).unwrap().is_none());
        // an intent with start_ts <= ts blocks the read
        assert_eq!(read(&storage, "k", 10).err().unwrap(), Error::KeyLocked);
        assert_eq!(read(&storage, "k", 11).err().unwrap(), Error::KeyLocked);
    }
}

#[test]
fn test_factory_rejects_other_backends() {
    assert_eq!(create_storage(StorageType::Unistore).err().unwrap(), Error::Unsupported);
    assert_eq!(create_storage(StorageType::Unknown).err().unwrap(), Error::Unsupported);
    assert!(create_default_storage(StorageType::UserTimestampStorage).is_ok());
    assert_eq!(
        create_default_storage(StorageType::TiKVStorage).err().unwrap(),
        Error::Unsupported
    );
}
