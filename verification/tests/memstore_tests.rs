//! The lock table on its own.

use mvccstore::memstore::MemStore;

#[test]
fn test_memstore_insert_get_remove() {
    let mut m = MemStore::new();
    let k = b"alpha".to_vec();
    assert!(!m.contains_key(&k));
    assert!(m.get(&k).is_none());
    assert!(m.insert(k.clone(), b"v".to_vec(), 1).is_none());
    assert!(m.contains_key(&k));
    let (ts, v) = m.get(&k).unwrap();
    assert_eq!(ts, 1);
    assert_eq!(v, b"v".to_vec());
    // inserting again replaces and returns the previous intent
    let prev = m.insert(k.clone(), b"w".to_vec(), 2).unwrap();
    assert_eq!(prev, (1, b"v".to_vec()));
    let (ts, v) = m.get(&k).unwrap();
    assert_eq!(ts, 2);
    assert_eq!(v, b"w".to_vec());
    let removed = m.remove(&k).unwrap();
    assert_eq!(removed, (2, b"w".to_vec()));
    assert!(!m.contains_key(&k));
    assert!(m.remove(&k).is_none());
}

#[test]
fn test_memstore_range_conflict() {
    let mut m = MemStore::new();
    m.insert(b"b".to_vec(), b"v".to_vec(), 5);
    // key "b" is in ["a", "c") and its intent started at 5
    assert!(m.range_conflict(&b"a".to_vec(), &b"c".to_vec(), 5));
    assert!(m.range_conflict(&b"a".to_vec(), &b"c".to_vec(), u64::MAX));
    // a reader below the intent's start timestamp is not blocked
    assert!(!m.range_conflict(&b"a".to_vec(), &b"c".to_vec(), 4));
    // ranges that miss the key are not blocked
    assert!(!m.range_conflict(&b"c".to_vec(), &b"d".to_vec(), 5));
    assert!(!m.range_conflict(&b"a".to_vec(), &b"b".to_vec(), 5));
    // the range start is inclusive
    assert!(m.range_conflict(&b"b".to_vec(), &b"c".to_vec(), 5));
}
