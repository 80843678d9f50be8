use std::collections::HashMap;

use memory_db::prelude::{DataStore, DataStoreKey, DataStoreValue};

fn key(text: &str) -> DataStoreKey {
    DataStoreKey::from(text)
}

fn value(bytes: &[u8]) -> DataStoreValue {
    DataStoreValue::from(bytes)
}

fn sorted_entries(store: &DataStore) -> Vec<(String, Vec<u8>)> {
    let mut all: Vec<(String, Vec<u8>)> =
        store.entries().into_iter().map(|(k, v)| (k.0, v.0)).collect();
    all.sort();
    all
}

#[test]
fn store_holds_what_was_put() {
    let mut store = DataStore::new();
    store.insert(key("a"), DataStoreValue::from(vec![1u8]));
    assert_eq!(store.get(&key("a")), Some(value(&[1])));
    assert_eq!(store.get(&key("b")), None);
}

#[test]
fn new_store_is_empty() {
    let store = DataStore::new();
    assert_eq!(store.get(&key("")), None);
    assert!(store.entries().is_empty());
    let by_default = DataStore::default();
    assert!(by_default.entries().is_empty());
}

#[test]
fn insert_replaces_the_value() {
    let mut store = DataStore::new();
    store.insert(key("a"), value(b"one"));
    store.insert(key("a"), value(b"two"));
    assert_eq!(store.get(&key("a")), Some(value(b"two")));
    assert_eq!(store.entries().len(), 1);
}

#[test]
fn remove_takes_only_its_key() {
    let mut store = DataStore::new();
    store.insert(key("a"), value(b"1"));
    store.insert(key("b"), value(b"2"));
    store.remove(&key("a"));
    store.remove(&key("missing"));
    assert_eq!(store.get(&key("a")), None);
    assert_eq!(
        sorted_entries(&store),
        vec![("b".to_string(), b"2".to_vec())]
    );
}

#[test]
fn keys_and_values_are_compared_by_content() {
    assert_eq!(key("same"), DataStoreKey("same".to_string()));
    assert_ne!(key("same"), key("other"));
    assert_eq!(value(b"xy"), DataStoreValue::from(vec![b'x', b'y']));
    assert_eq!(value(b"xy").0, vec![b'x', b'y']);
}

#[test]
fn empty_store_is_eight_zero_bytes() {
    assert_eq!(DataStore::new().to_bytes(), vec![0u8; 8]);
}

#[test]
fn one_entry_has_exact_bytes() {
    let mut store = DataStore::new();
    store.insert(key("b"), value(b"2"));
    let expected: Vec<u8> = vec![
        1, 0, 0, 0, 0, 0, 0, 0, // one entry
        1, 0, 0, 0, 0, 0, 0, 0, b'b', // the key
        1, 0, 0, 0, 0, 0, 0, 0, b'2', // the value
    ];
    assert_eq!(store.to_bytes(), expected);
}

#[test]
fn snapshot_bytes_are_those_of_a_serialized_map() {
    let mut store = DataStore::new();
    store.insert(key("héllo"), value(&[0, 255, 7]));
    let mut map: HashMap<String, Vec<u8>> = HashMap::new();
    map.insert("héllo".to_string(), vec![0, 255, 7]);
    assert_eq!(store.to_bytes(), bincode::serialize(&map).unwrap());
}

#[test]
fn store_reads_a_serialized_map() {
    let mut map: HashMap<String, Vec<u8>> = HashMap::new();
    map.insert("a".to_string(), b"1".to_vec());
    map.insert("bb".to_string(), Vec::new());
    map.insert("".to_string(), vec![9; 300]);
    let store = DataStore::from_bytes(&bincode::serialize(&map).unwrap()).unwrap();
    let mut expected: Vec<(String, Vec<u8>)> = map.into_iter().collect();
    expected.sort();
    assert_eq!(sorted_entries(&store), expected);
}

#[test]
fn store_round_trips_through_its_bytes() {
    let mut store = DataStore::new();
    for i in 0..50u8 {
        store.insert(key(&format!("key-{i}")), value(&[i, i, i]));
    }
    store.remove(&key("key-7"));
    let again = DataStore::from_bytes(&store.to_bytes()).unwrap();
    assert_eq!(sorted_entries(&again), sorted_entries(&store));
    assert_eq!(again.entries().len(), 49);
    let map: HashMap<String, Vec<u8>> = bincode::deserialize(&store.to_bytes()).unwrap();
    assert_eq!(map.len(), 49);
    assert_eq!(map.get("key-3"), Some(&vec![3u8, 3, 3]));
}

#[test]
fn later_pair_wins_in_a_snapshot() {
    let mut bytes = vec![2u8, 0, 0, 0, 0, 0, 0, 0];
    for v in [b'1', b'2'] {
        bytes.extend([1, 0, 0, 0, 0, 0, 0, 0, b'k']);
        bytes.extend([1, 0, 0, 0, 0, 0, 0, 0, v]);
    }
    let store = DataStore::from_bytes(&bytes).unwrap();
    assert_eq!(sorted_entries(&store), vec![("k".to_string(), b"2".to_vec())]);
}

#[test]
fn bytes_after_the_snapshot_are_ignored() {
    let mut bytes = DataStore::new().to_bytes();
    bytes.extend([1, 2, 3]);
    assert!(DataStore::from_bytes(&bytes).unwrap().entries().is_empty());
}

#[test]
fn corrupt_snapshots_are_rejected() {
    // No room for the count.
    assert!(DataStore::from_bytes(&[]).is_err());
    assert!(DataStore::from_bytes(&[1, 0, 0]).is_err());
    // One entry announced, none there.
    assert!(DataStore::from_bytes(&[1, 0, 0, 0, 0, 0, 0, 0]).is_err());
    // A key that is longer than what follows.
    assert!(DataStore::from_bytes(&[1, 0, 0, 0, 0, 0, 0, 0, 5, 0, 0, 0, 0, 0, 0, 0, b'a']).is_err());
    // A key without its value.
    assert!(DataStore::from_bytes(&[1, 0, 0, 0, 0, 0, 0, 0, 1, 0, 0, 0, 0, 0, 0, 0, b'a']).is_err());
    // A key that is not UTF-8.
    let mut bad = vec![1u8, 0, 0, 0, 0, 0, 0, 0];
    bad.extend([1, 0, 0, 0, 0, 0, 0, 0, 0xff]);
    bad.extend([0, 0, 0, 0, 0, 0, 0, 0]);
    assert!(DataStore::from_bytes(&bad).is_err());
    // A truncated snapshot of a real store.
    let mut store = DataStore::new();
    store.insert(key("a"), value(b"1"));
    let whole = store.to_bytes();
    assert!(DataStore::from_bytes(&whole[..whole.len() - 1]).is_err());
    // A count that promises more than the machine could hold.
    assert!(DataStore::from_bytes(&[255; 8]).is_err());
}
