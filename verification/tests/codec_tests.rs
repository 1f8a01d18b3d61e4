//! Round trips of the timestamp codec and of both physical layouts.

use mvccstore::tikv;
use mvccstore::ts_codec::{bytes_to_u64, u64_to_bytes};
use mvccstore::user_timestamp;
use rand::Rng;

#[test]
fn test_u64_to_bytes_is_big_endian() {
    assert_eq!(u64_to_bytes(0), vec![0u8; 8]);
    assert_eq!(u64_to_bytes(2), vec![0, 0, 0, 0, 0, 0, 0, 2]);
    assert_eq!(u64_to_bytes(0x0102030405060708), vec![1, 2, 3, 4, 5, 6, 7, 8]);
    assert_eq!(u64_to_bytes(u64::MAX), vec![0xff; 8]);
}

#[test]
fn test_bytes_to_u64_round_trip() {
    for x in [0u64, 1, 255, 256, 0xdead_beef, u64::MAX - 1, u64::MAX] {
        assert_eq!(bytes_to_u64(&u64_to_bytes(x)), x);
    }
    let mut rng = rand::thread_rng();
    for _ in 0..200 {
        let x: u64 = rng.gen();
        assert_eq!(bytes_to_u64(&u64_to_bytes(x)), x);
    }
}

#[test]
fn test_tikv_codec_exact_layout() {
    let key = b"abcd".to_vec();
    let value = b"v1".to_vec();
    let pk = tikv::encode_ts_to_key(2, &key);
    assert_eq!(pk, b"abcd\x00\x00\x00\x00\x00\x00\x00\x02".to_vec());
    let pv = tikv::encode_ts_to_value(1, &value);
    assert_eq!(pv, b"v1\x00\x00\x00\x00\x00\x00\x00\x01".to_vec());
    assert_eq!(tikv::decode_ts_from_key(&pk), 2);
    assert_eq!(tikv::decode_ts_from_value(&pv), 1);
    assert_eq!(tikv::decode_data_from_value(&pv), value);
}

fn random_bytes(rng: &mut impl Rng, max_len: usize) -> Vec<u8> {
    let len = rng.gen_range(0..=max_len);
    let mut v = vec![0u8; len];
    rng.fill(v.as_mut_slice());
    v
}

#[test]
fn test_tikv_codec_random_round_trip() {
    let mut rng = rand::thread_rng();
    for _ in 0..200 {
        let key = random_bytes(&mut rng, 24);
        let value = random_bytes(&mut rng, 64);
        let start_ts: u64 = rng.gen();
        let commit_ts: u64 = rng.gen();
        let pk = tikv::encode_ts_to_key(commit_ts, &key);
        let pv = tikv::encode_ts_to_value(start_ts, &value);
        assert_eq!(pk[..key.len()], key[..]);
        assert_eq!(tikv::decode_ts_from_key(&pk), commit_ts);
        assert_eq!(tikv::decode_data_from_value(&pv), value);
        assert_eq!(tikv::decode_ts_from_value(&pv), start_ts);
    }
}

#[test]
fn test_user_timestamp_codec_random_round_trip() {
    let mut rng = rand::thread_rng();
    for _ in 0..200 {
        let key = random_bytes(&mut rng, 24);
        let value = random_bytes(&mut rng, 64);
        let start_ts: u64 = rng.gen();
        let commit_ts: u64 = rng.gen();
        let mut pv = value.clone();
        user_timestamp::encode_ts_to_value(start_ts, &mut pv);
        user_timestamp::encode_ts_to_value(commit_ts, &mut pv);
        // the logical key is stored unchanged under this model
        let pk = key.clone();
        assert_eq!(pk, key);
        assert_eq!(user_timestamp::decode_start_ts_from_value(&pv), start_ts);
        assert_eq!(user_timestamp::decode_commit_ts_from_value(&pv), commit_ts);
        assert_eq!(pv[..pv.len() - 16], value[..]);
    }
}

#[test]
fn test_user_timestamp_codec_empty_value() {
    let mut pv: Vec<u8> = Vec::new();
    user_timestamp::encode_ts_to_value(3, &mut pv);
    user_timestamp::encode_ts_to_value(4, &mut pv);
    assert_eq!(pv.len(), 16);
    assert_eq!(user_timestamp::decode_start_ts_from_value(&pv), 3);
    assert_eq!(user_timestamp::decode_commit_ts_from_value(&pv), 4);
}

#[test]
fn test_tikv_codec_empty_key_and_value() {
    let key: Vec<u8> = Vec::new();
    let value: Vec<u8> = Vec::new();
    let pk = tikv::encode_ts_to_key(9, &key);
    let pv = tikv::encode_ts_to_value(8, &value);
    assert_eq!(pk.len(), 8);
    assert_eq!(pv.len(), 8);
    assert_eq!(tikv::decode_ts_from_key(&pk), 9);
    assert_eq!(tikv::decode_ts_from_value(&pv), 8);
    assert!(tikv::decode_data_from_value(&pv).is_empty());
}
