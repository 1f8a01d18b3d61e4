//! Range scans: supported on the native multi-version-key backend,
//! declared unsupported on the explicit-suffix backend.

use mvccstore::storage::{create_storage, AnyStorage, MvccStorage, StorageType};
use mvccstore::Error;

fn put(storage: &mut AnyStorage, key: &str, value: &str, start_ts: u64, commit_ts: u64) {
    let k = key.as_bytes().to_vec();
    let v = value.as_bytes().to_vec();
    storage.prewrite(&k, &v, start_ts).unwrap();
    storage.commit(&k, start_ts, commit_ts).unwrap();
}

fn scan(storage: &AnyStorage, start: &str, end: &str, ts: u64) -> Result<Vec<Vec<u8>>, Error> {
    storage.scan(&start.as_bytes().to_vec(), &end.as_bytes().to_vec(), ts)
}

#[test]
fn test_scan_unsupported_on_tikv() {
    let storage = create_storage(StorageType::TiKVStorage).unwrap();
    assert_eq!(scan(&storage, "a", "z", 10).err().unwrap(), Error::Unsupported);
}

#[test]
fn test_scan_returns_newest_visible_per_key_in_order() {
    let mut storage = create_storage(StorageType::UserTimestampStorage).unwrap();
    put(&mut storage, "b", "b1", 1, 2);
    put(&mut storage, "a", "a1", 3, 4);
    put(&mut storage, "c", "c1", 5, 6);
    put(&mut storage, "b", "b2", 7, 8);
    // all three keys visible, newest version of "b" wins, in key order
    let vs = scan(&storage, "a", "d", 10).unwrap();
    assert_eq!(vs, vec![b"a1".to_vec(), b"b2".to_vec(), b"c1".to_vec()]);
    // at an earlier snapshot, "b" shows its older version and "c" is absent
    let vs = scan(&storage, "a", "d", 4).unwrap();
    assert_eq!(vs, vec![b"a1".to_vec(), b"b1".to_vec()]);
    // the end bound is exclusive
    let vs = scan(&storage, "a", "c", 10).unwrap();
    assert_eq!(vs, vec![b"a1".to_vec(), b"b2".to_vec()]);
    // a range with no visible key is empty
    let vs = scan(&storage, "x", "z", 10).unwrap();
    assert!(vs.is_empty());
}

#[test]
fn test_scan_blocked_by_intent_in_range() {
    let mut storage = create_storage(StorageType::UserTimestampStorage).unwrap();
    put(&mut storage, "a", "a1", 1, 2);
    storage.prewrite(&b"b".to_vec(), &b"b1".to_vec(), 5).unwrap();
    // the outstanding intent on "b" blocks a scan at or after its start
    assert_eq!(scan(&storage, "a", "c", 5).err().unwrap(), Error::KeyLocked);
    // a scan below the intent's start timestamp ignores it
    let vs = scan(&storage, "a", "c", 4).unwrap();
    assert_eq!(vs, vec![b"a1".to_vec()]);
    // a scan that excludes the locked key is not blocked
    let vs = scan(&storage, "a", "b", 10).unwrap();
    assert_eq!(vs, vec![b"a1".to_vec()]);
}
