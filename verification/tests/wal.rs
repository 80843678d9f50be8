use memory_db::log::{DataChangeLog, DataChangeQuery};
use memory_db::prelude::{DataStore, DataStoreKey, DataStoreValue};
use memory_db::public_api::dataquery::{DataQuery, DeleteQuery, PutQuery, ReadQuery};
use memory_db::state::node_state::State;
use memory_db::state::utils::{read_appended_structs, MalformedLog};

fn put(key: &str, value: &[u8]) -> DataQuery {
    DataQuery::Put(PutQuery { key: key.to_string(), value: value.to_vec() })
}

fn read(key: &str) -> DataQuery {
    DataQuery::Read(ReadQuery { key: key.to_string() })
}

fn delete(key: &str) -> DataQuery {
    DataQuery::Delete(DeleteQuery { key: key.to_string() })
}

fn put_change(key: &str, value: &[u8]) -> DataChangeQuery {
    DataChangeQuery::Put(PutQuery { key: key.to_string(), value: value.to_vec() })
}

fn delete_change(key: &str) -> DataChangeQuery {
    DataChangeQuery::Delete(DeleteQuery { key: key.to_string() })
}

fn sorted_entries(store: &DataStore) -> Vec<(String, Vec<u8>)> {
    let mut all: Vec<(String, Vec<u8>)> =
        store.entries().into_iter().map(|(k, v)| (k.0, v.0)).collect();
    all.sort();
    all
}

#[test]
fn delete_record_has_exact_bytes() {
    let record = DataChangeLog::new(delete_change("a"), 5);
    let expected: Vec<u8> = vec![
        1, 0, 0, 0, // a delete
        1, 0, 0, 0, 0, 0, 0, 0, b'a', // the key
        5, 0, 0, 0, 0, 0, 0, 0, // the date
    ];
    assert_eq!(record.to_bytes(), expected);
}

#[test]
fn put_record_has_exact_bytes() {
    let record = DataChangeLog::new(put_change("k", b"vw"), -2);
    let expected: Vec<u8> = vec![
        0, 0, 0, 0, // a put
        1, 0, 0, 0, 0, 0, 0, 0, b'k', // the key
        2, 0, 0, 0, 0, 0, 0, 0, b'v', b'w', // the value
        254, 255, 255, 255, 255, 255, 255, 255, // the date
    ];
    assert_eq!(record.to_bytes(), expected);
}

#[test]
fn record_bytes_are_those_of_a_serialized_record() {
    // An enum is serialized as the number of its variant, then the variant's fields.
    let record = DataChangeLog::new(put_change("kéy", &[1, 2, 3]), 1_700_000_000);
    let same = bincode::serialize(&(0u32, "kéy".to_string(), vec![1u8, 2, 3], 1_700_000_000i64));
    assert_eq!(record.to_bytes(), same.unwrap());
    let record = DataChangeLog::new(delete_change("kéy"), i64::MIN);
    let same = bincode::serialize(&(1u32, "kéy".to_string(), i64::MIN));
    assert_eq!(record.to_bytes(), same.unwrap());
}

#[test]
fn change_has_exact_bytes() {
    assert_eq!(
        put_change("k", b"v").to_bytes(),
        vec![0, 0, 0, 0, 1, 0, 0, 0, 0, 0, 0, 0, b'k', 1, 0, 0, 0, 0, 0, 0, 0, b'v']
    );
    assert_eq!(delete_change("").to_bytes(), vec![1, 0, 0, 0, 0, 0, 0, 0, 0, 0, 0, 0]);
}

#[test]
fn change_round_trips_with_its_width() {
    for change in [put_change("a", b"1"), delete_change("b"), put_change("", b"")] {
        let mut bytes = change.to_bytes();
        let width = bytes.len();
        bytes.extend([9, 9]);
        assert_eq!(DataChangeQuery::from_bytes(&bytes), Some((change, width)));
    }
}

#[test]
fn record_round_trips_with_its_width() {
    let record = DataChangeLog::new(put_change("a", b"123"), 77);
    let mut bytes = record.to_bytes();
    let width = bytes.len();
    bytes.extend([1, 2, 3]);
    let (again, read) = DataChangeLog::from_bytes(&bytes).unwrap();
    assert_eq!(read, width);
    assert_eq!(again.date(), 77);
    assert_eq!(again.query, put_change("a", b"123"));
    assert_eq!(again, record);
}

#[test]
fn bad_records_are_not_read() {
    assert_eq!(DataChangeLog::from_bytes(&[]), None);
    assert_eq!(DataChangeLog::from_bytes(&[0, 0, 0]), None);
    // A kind that does not exist.
    let mut unknown = DataChangeLog::new(delete_change("a"), 1).to_bytes();
    unknown[0] = 2;
    assert_eq!(DataChangeLog::from_bytes(&unknown), None);
    // A record without its date.
    let whole = DataChangeLog::new(delete_change("a"), 1).to_bytes();
    assert_eq!(DataChangeLog::from_bytes(&whole[..whole.len() - 1]), None);
    assert_eq!(DataChangeQuery::from_bytes(&whole[..12]), None);
    // A key that is not UTF-8.
    let mut bad_key = whole.clone();
    bad_key[12] = 0xff;
    assert_eq!(DataChangeLog::from_bytes(&bad_key), None);
}

#[test]
fn reads_leave_no_record() {
    assert_eq!(read("a").change_logs_at(3), None);
    assert_eq!(read("a").as_datachangelogs(), None);
}

#[test]
fn mutations_leave_one_record() {
    let logs = put("a", b"1").change_logs_at(3).unwrap();
    assert_eq!(logs, vec![DataChangeLog::new(put_change("a", b"1"), 3)]);
    let logs = delete("a").change_logs_at(-1).unwrap();
    assert_eq!(logs, vec![DataChangeLog::new(delete_change("a"), -1)]);
}

#[test]
fn records_are_dated_by_the_clock() {
    let logs = put("a", b"1").as_datachangelogs().unwrap();
    assert_eq!(logs.len(), 1);
    assert_eq!(logs[0].query, put_change("a", b"1"));
    // Later than the start of 2020, and not in a far future.
    assert!(logs[0].date() > 1_577_836_800);
    assert!(logs[0].date() < 32_503_680_000);
}

#[test]
fn change_becomes_the_same_query() {
    assert_eq!(DataQuery::from(put_change("a", b"1")), put("a", b"1"));
    assert_eq!(DataQuery::from(delete_change("a")), delete("a"));
}

#[test]
fn empty_log_holds_no_record() {
    assert_eq!(read_appended_structs(&[]), Ok(Vec::new()));
}

#[test]
fn log_is_read_record_by_record() {
    let records = vec![
        DataChangeLog::new(put_change("a", b"1"), 1),
        DataChangeLog::new(delete_change("a"), 2),
        DataChangeLog::new(put_change("b", &[0; 40]), 3),
    ];
    let mut bytes = Vec::new();
    for record in &records {
        bytes.extend(record.to_bytes());
    }
    assert_eq!(read_appended_structs(&bytes), Ok(records));
}

#[test]
fn log_with_bad_bytes_is_malformed() {
    let mut bytes = DataChangeLog::new(put_change("a", b"1"), 1).to_bytes();
    bytes.push(0);
    assert_eq!(read_appended_structs(&bytes), Err(MalformedLog));
    assert_eq!(read_appended_structs(&[7, 7, 7, 7, 7]), Err(MalformedLog));
}

#[test]
fn handle_query_answers_and_logs() {
    let mut state = State::default();
    let outcome = state.handle_query_at(put("a", b"1"), 9);
    assert_eq!(outcome.response, b"OK\n".to_vec());
    assert_eq!(outcome.wal, DataChangeLog::new(put_change("a", b"1"), 9).to_bytes());
    let outcome = state.handle_query_at(read("a"), 10);
    assert_eq!(outcome.response, b"1\n".to_vec());
    assert_eq!(outcome.wal, Vec::<u8>::new());
    let outcome = state.handle_query_at(delete("a"), 11);
    assert_eq!(outcome.response, b"OK\n".to_vec());
    assert_eq!(outcome.wal, DataChangeLog::new(delete_change("a"), 11).to_bytes());
    assert!(state.store.entries().is_empty());
}

#[test]
fn handle_query_logs_with_the_date_of_the_clock() {
    let mut state = State::default();
    let outcome = state.handle_query(put("a", b"1"));
    let (record, width) = DataChangeLog::from_bytes(&outcome.wal).unwrap();
    assert_eq!(width, outcome.wal.len());
    assert_eq!(record.query, put_change("a", b"1"));
    assert!(record.date() > 1_577_836_800);
    assert_eq!(state.handle_query(read("a")).wal, Vec::<u8>::new());
}

#[test]
fn replay_runs_the_records_in_order() {
    let mut wal = Vec::new();
    wal.extend(DataChangeLog::new(put_change("a", b"1"), 1).to_bytes());
    wal.extend(DataChangeLog::new(put_change("a", b"2"), 2).to_bytes());
    wal.extend(DataChangeLog::new(put_change("b", b"3"), 3).to_bytes());
    let mut state = State::default();
    assert_eq!(state.replay_wal(&wal), Ok(3));
    assert_eq!(
        sorted_entries(&state.store),
        vec![("a".to_string(), b"2".to_vec()), ("b".to_string(), b"3".to_vec())]
    );
}

#[test]
fn replay_of_a_malformed_log_changes_nothing() {
    let mut wal = DataChangeLog::new(put_change("a", b"1"), 1).to_bytes();
    wal.extend([1, 2, 3]);
    let mut state = State::default();
    state.store.insert(DataStoreKey::from("kept"), DataStoreValue::from(b"x".to_vec()));
    assert_eq!(state.replay_wal(&wal), Err(MalformedLog));
    assert_eq!(sorted_entries(&state.store), vec![("kept".to_string(), b"x".to_vec())]);
}

#[test]
fn replaying_twice_is_replaying_once() {
    let mut wal = Vec::new();
    let queries = vec![
        put("a", b"1"),
        put("b", b"2"),
        delete("a"),
        put("c", b"3"),
        delete("missing"),
        put("b", b"4"),
    ];
    let mut live = State::default();
    for (i, query) in queries.into_iter().enumerate() {
        wal.extend(live.handle_query_at(query, i as i64).wal);
    }
    let mut once = State::default();
    assert_eq!(once.replay_wal(&wal), Ok(6));
    let mut twice = State::default();
    assert_eq!(twice.replay_wal(&wal), Ok(6));
    assert_eq!(twice.replay_wal(&wal), Ok(6));
    assert_eq!(sorted_entries(&once.store), sorted_entries(&twice.store));
    assert_eq!(
        sorted_entries(&once.store),
        vec![("b".to_string(), b"4".to_vec()), ("c".to_string(), b"3".to_vec())]
    );
}

#[test]
fn restart_gives_the_store_that_the_operations_gave() {
    // The node runs three operations and logs them.
    let mut live = State::default();
    let mut wal = Vec::new();
    wal.extend(live.handle_query(put("a", b"1")).wal);
    wal.extend(live.handle_query(put("b", b"2")).wal);
    wal.extend(live.handle_query(delete("a")).wal);
    assert_eq!(sorted_entries(&live.store), vec![("b".to_string(), b"2".to_vec())]);
    // It restarts: there is no snapshot yet, and the log is replayed.
    let mut restarted = State::default();
    let load = restarted.init(&Vec::new(), &wal).unwrap();
    assert_eq!(load.loaded, None);
    assert!(load.discarded.is_empty());
    assert_eq!(sorted_entries(&restarted.store), vec![("b".to_string(), b"2".to_vec())]);
}

#[test]
fn dates_round_trip_over_their_whole_range() {
    for date in [i64::MIN, -1, 0, 1, 0x0102_0304_0506_0708, i64::MAX] {
        let record = DataChangeLog::new(delete_change("k"), date);
        let (again, _) = DataChangeLog::from_bytes(&record.to_bytes()).unwrap();
        assert_eq!(again.date(), date);
    }
    let bytes = DataChangeLog::new(delete_change(""), 0x0102_0304_0506_0708).to_bytes();
    assert_eq!(bytes[12..], [8, 7, 6, 5, 4, 3, 2, 1]);
}

#[test]
fn long_keys_and_values_round_trip() {
    let key = "k".repeat(70_000);
    let value = vec![0xabu8; 300_000];
    let record = DataChangeLog::new(put_change(&key, &value), 1);
    let bytes = record.to_bytes();
    assert_eq!(bytes[4..12], [0x70, 0x11, 0x01, 0, 0, 0, 0, 0]);
    let (again, width) = DataChangeLog::from_bytes(&bytes).unwrap();
    assert_eq!(width, bytes.len());
    assert_eq!(again, record);
}
