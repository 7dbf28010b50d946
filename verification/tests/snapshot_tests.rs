use kvstore::error::SnapshotError;
use kvstore::snapshot::{load_snapshot, save_snapshot};
use kvstore::store::KVStore;

#[test]
fn payload_of_one_pair_is_laid_out_byte_for_byte() {
    let mut store = KVStore::new();
    store.set("x".to_string(), "1".to_string());
    let bytes = save_snapshot(&store).unwrap();
    let expected: Vec<u8> = vec![
        1, 0, 0, 0, 0, 0, 0, 0, // one pair
        1, 0, 0, 0, 0, 0, 0, 0, b'x', // key
        1, 0, 0, 0, 0, 0, 0, 0, b'1', // value
    ];
    assert_eq!(bytes, expected);
}

#[test]
fn payload_of_the_empty_map_is_eight_zero_bytes() {
    let store = KVStore::new();
    assert_eq!(save_snapshot(&store).unwrap(), vec![0u8; 8]);
}

#[test]
fn payload_does_not_depend_on_the_order_of_insertion() {
    let mut a = KVStore::new();
    a.set("k1".to_string(), "v1".to_string());
    a.set("k2".to_string(), "v2".to_string());
    a.set("k0".to_string(), "v0".to_string());
    let mut b = KVStore::new();
    b.set("k0".to_string(), "old".to_string());
    b.set("k2".to_string(), "v2".to_string());
    b.set("gone".to_string(), "x".to_string());
    b.set("k1".to_string(), "v1".to_string());
    b.set("k0".to_string(), "v0".to_string());
    b.delete("gone");
    assert_eq!(save_snapshot(&a).unwrap(), save_snapshot(&b).unwrap());
}

#[test]
fn decode_of_encode_gives_the_map_back() {
    let mut store = KVStore::new();
    store.set("alpha".to_string(), "1".to_string());
    store.set("béta".to_string(), "zwei".to_string());
    store.set(String::new(), "empty key".to_string());
    let bytes = store.serialize().unwrap();
    let back = load_snapshot(&bytes).unwrap();
    assert_eq!(back.len(), 3);
    assert_eq!(back.get("alpha"), Some("1".to_string()));
    assert_eq!(back.get("béta"), Some("zwei".to_string()));
    assert_eq!(back.get(""), Some("empty key".to_string()));
    assert_eq!(back.serialize().unwrap(), bytes);
}

#[test]
fn every_map_has_its_payload() {
    let empty = KVStore::new();
    assert!(empty.serialize().is_ok());
    assert!(save_snapshot(&empty).is_ok());
    let mut blanks = KVStore::new();
    blanks.set(String::new(), String::new());
    blanks.set("k".to_string(), String::new());
    assert!(blanks.serialize().is_ok());
    let mut big = KVStore::new();
    for n in 0..500 {
        big.set(format!("key-{}", n), "v".repeat(n));
    }
    let bytes = big.serialize().unwrap();
    assert_eq!(load_snapshot(&bytes).unwrap().len(), 500);
}

#[test]
fn two_histories_of_the_same_content_give_the_same_bytes() {
    let mut a = KVStore::new();
    a.set("a".to_string(), "1".to_string());
    a.set("b".to_string(), "2".to_string());
    let mut b = KVStore::new();
    b.set("b".to_string(), "2".to_string());
    b.set("c".to_string(), "3".to_string());
    b.set("a".to_string(), "0".to_string());
    b.set("a".to_string(), "1".to_string());
    b.delete("c");
    assert_eq!(a.serialize().unwrap(), b.serialize().unwrap());
}

#[test]
fn truncated_payload_is_refused() {
    let mut store = KVStore::new();
    store.set("x".to_string(), "1".to_string());
    let bytes = save_snapshot(&store).unwrap();
    let cut = &bytes[..bytes.len() - 1];
    assert_eq!(load_snapshot(cut).err(), Some(SnapshotError::Decode));
    assert_eq!(load_snapshot(&[]).err(), Some(SnapshotError::Decode));
}

#[test]
fn payload_with_invalid_utf8_is_refused() {
    let bytes: Vec<u8> = vec![
        1, 0, 0, 0, 0, 0, 0, 0, //
        1, 0, 0, 0, 0, 0, 0, 0, 0xff, //
        0, 0, 0, 0, 0, 0, 0, 0,
    ];
    assert_eq!(load_snapshot(&bytes).err(), Some(SnapshotError::Decode));
}

#[test]
fn bytes_after_the_payload_are_ignored() {
    let mut bytes = vec![0u8; 8];
    bytes.extend_from_slice(b"trailing");
    let store = load_snapshot(&bytes).unwrap();
    assert_eq!(store.len(), 0);
}

#[test]
fn later_pair_wins_when_a_payload_repeats_a_key() {
    let bytes: Vec<u8> = vec![
        2, 0, 0, 0, 0, 0, 0, 0, //
        1, 0, 0, 0, 0, 0, 0, 0, b'k', 1, 0, 0, 0, 0, 0, 0, 0, b'1', //
        1, 0, 0, 0, 0, 0, 0, 0, b'k', 1, 0, 0, 0, 0, 0, 0, 0, b'2',
    ];
    let store = load_snapshot(&bytes).unwrap();
    assert_eq!(store.len(), 1);
    assert_eq!(store.get("k"), Some("2".to_string()));
}

#[test]
fn failed_deserialize_leaves_the_map_untouched() {
    let mut store = KVStore::new();
    store.set("keep".to_string(), "me".to_string());
    assert_eq!(store.deserialize(&[1, 2, 3]), Err(SnapshotError::Decode));
    assert_eq!(store.get("keep"), Some("me".to_string()));
    assert_eq!(store.len(), 1);
}

#[test]
fn deserialize_replaces_the_whole_content() {
    let mut source = KVStore::new();
    source.set("new".to_string(), "1".to_string());
    let bytes = source.serialize().unwrap();
    let mut store = KVStore::new();
    store.set("old".to_string(), "0".to_string());
    assert_eq!(store.deserialize(&bytes), Ok(()));
    assert_eq!(store.get("old"), None);
    assert_eq!(store.get("new"), Some("1".to_string()));
}

#[test]
fn payload_is_what_bincode_writes_for_a_map_in_key_order() {
    let mut store = KVStore::new();
    let mut reference = std::collections::BTreeMap::new();
    for (k, v) in [("pear", "3"), ("apple", "1"), ("fig", "2"), ("äpfel", "ü")] {
        store.set(k.to_string(), v.to_string());
        reference.insert(k.to_string(), v.to_string());
    }
    assert_eq!(save_snapshot(&store).unwrap(), bincode::serialize(&reference).unwrap());
}

#[test]
fn payload_written_from_a_hash_map_is_read_back() {
    let mut reference = std::collections::HashMap::new();
    reference.insert("one".to_string(), "1".to_string());
    reference.insert("two".to_string(), "2".to_string());
    reference.insert("three".to_string(), "3".to_string());
    let bytes = bincode::serialize(&reference).unwrap();
    let store = load_snapshot(&bytes).unwrap();
    assert_eq!(store.len(), 3);
    assert_eq!(store.get("one"), Some("1".to_string()));
    assert_eq!(store.get("two"), Some("2".to_string()));
    assert_eq!(store.get("three"), Some("3".to_string()));
}
