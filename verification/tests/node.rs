use memory_db::log::{DataChangeLog, DataChangeQuery};
use memory_db::prelude::{DataStore, DataStoreKey, DataStoreValue};
use memory_db::public_api::dataquery::{DataQuery, DeleteQuery, PutQuery, ReadQuery};
use memory_db::storage::node::{Action, DriverError, DriverState, Message, RaftNode, Ready};
use memory_db::storage::{
    ConfState, DatabaseStorage, HardState, LogEntry, Snapshot, SnapshotMetadata, StorageError,
};

fn put_change(key: &str, value: &[u8]) -> DataChangeQuery {
    DataChangeQuery::Put(PutQuery { key: key.to_string(), value: value.to_vec() })
}

fn delete_change(key: &str) -> DataChangeQuery {
    DataChangeQuery::Delete(DeleteQuery { key: key.to_string() })
}

fn proposal(index: u64, change: &DataChangeQuery) -> LogEntry {
    LogEntry { index, term: 1, data: change.to_bytes() }
}

fn empty_entry(index: u64) -> LogEntry {
    LogEntry { index, term: 1, data: Vec::new() }
}

fn message(to: u64, payload: &[u8]) -> Message {
    Message { to, payload: payload.to_vec() }
}

fn nothing() -> Ready {
    Ready {
        messages: Vec::new(),
        snapshot: None,
        committed_entries: Vec::new(),
        entries: Vec::new(),
        hs: None,
        persisted_messages: Vec::new(),
    }
}

fn ready_node() -> RaftNode {
    let mut node = RaftNode::new(DatabaseStorage::default());
    assert!(node.tick(true));
    node
}

fn sorted_entries(store: &DataStore) -> Vec<(String, Vec<u8>)> {
    let mut all: Vec<(String, Vec<u8>)> =
        store.entries().into_iter().map(|(k, v)| (k.0, v.0)).collect();
    all.sort();
    all
}

fn snapshot(index: u64, pairs: &[(&str, &[u8])]) -> Snapshot {
    let mut store = DataStore::new();
    for (k, v) in pairs {
        store.insert(DataStoreKey::from(*k), DataStoreValue::from(*v));
    }
    Snapshot {
        metadata: SnapshotMetadata { index, term: 1, conf_state: ConfState::new() },
        data: store.to_bytes(),
    }
}

#[test]
fn new_node_is_idle() {
    let node = RaftNode::new(DatabaseStorage::default());
    assert_eq!(node.driver_state(), DriverState::Idle);
    assert_eq!(node.applied_index(), 0);
    assert_eq!(node.storage().last_index(), Ok(0));
}

#[test]
fn tick_without_a_batch_stays_idle() {
    let mut node = RaftNode::new(DatabaseStorage::default());
    assert!(!node.tick(false));
    assert_eq!(node.driver_state(), DriverState::Idle);
}

#[test]
fn states_follow_one_another() {
    let mut node = RaftNode::new(DatabaseStorage::default());
    assert!(node.tick(true));
    assert_eq!(node.driver_state(), DriverState::HasReady);
    // A batch is pending: a second one is not fetched.
    assert!(!node.tick(true));
    assert_eq!(node.driver_state(), DriverState::HasReady);
    // Advancing without a handled batch changes nothing.
    node.advance();
    assert_eq!(node.driver_state(), DriverState::HasReady);
    assert_eq!(node.handle_ready_at(nothing(), 0), Ok(vec![Action::Advance(0)]));
    assert_eq!(node.driver_state(), DriverState::Advancing);
    assert!(!node.tick(true));
    assert_eq!(node.driver_state(), DriverState::Advancing);
    node.advance();
    assert_eq!(node.driver_state(), DriverState::Idle);
}

#[test]
fn batch_without_a_tick_is_not_handled() {
    let mut node = RaftNode::new(DatabaseStorage::default());
    let mut ready = nothing();
    ready.entries = vec![empty_entry(1)];
    assert_eq!(node.handle_ready_at(ready, 0), Err(DriverError::NotReady));
    assert_eq!(node.storage().last_index(), Ok(0));
    assert_eq!(node.driver_state(), DriverState::Idle);
}

#[test]
fn actions_come_in_the_order_of_the_steps() {
    let mut node = ready_node();
    let ready = Ready {
        messages: vec![message(2, b"vote"), message(3, b"vote")],
        snapshot: Some(snapshot(4, &[("a", b"old"), ("gone", b"x")])),
        committed_entries: vec![
            empty_entry(5),
            proposal(6, &put_change("a", b"new")),
            proposal(7, &delete_change("gone")),
        ],
        entries: vec![empty_entry(5), empty_entry(6), empty_entry(7), empty_entry(8)],
        hs: Some(HardState { term: 1, vote: 2, commit: 7 }),
        persisted_messages: vec![message(2, b"ack")],
    };
    let actions = node.handle_ready_at(ready, 42).unwrap();
    assert_eq!(
        actions,
        vec![
            Action::Send(message(2, b"vote")),
            Action::Send(message(3, b"vote")),
            Action::AppendLog(DataChangeLog::new(put_change("a", b"new"), 42).to_bytes()),
            Action::AppendLog(DataChangeLog::new(delete_change("gone"), 42).to_bytes()),
            Action::Send(message(2, b"ack")),
            Action::Advance(7),
        ]
    );
    assert_eq!(node.driver_state(), DriverState::Advancing);
    assert_eq!(node.applied_index(), 7);
    let storage = node.storage();
    assert_eq!(sorted_entries(storage.store()), vec![("a".to_string(), b"new".to_vec())]);
    assert_eq!(storage.first_index(), Ok(5));
    assert_eq!(storage.last_index(), Ok(8));
    assert_eq!(storage.rl().snapshot_metadata().index, 4);
    assert_eq!(storage.rl().hard_state(), HardState { term: 1, vote: 2, commit: 7 });
}

#[test]
fn empty_committed_entries_are_skipped_but_counted() {
    let mut node = ready_node();
    let mut ready = nothing();
    ready.committed_entries = vec![empty_entry(1), empty_entry(2)];
    assert_eq!(node.handle_ready_at(ready, 0), Ok(vec![Action::Advance(2)]));
    assert_eq!(node.applied_index(), 2);
    assert!(node.storage().store().entries().is_empty());
}

#[test]
fn applied_index_never_goes_back() {
    let mut node = ready_node();
    let mut ready = nothing();
    ready.committed_entries = vec![empty_entry(9)];
    node.handle_ready_at(ready, 0).unwrap();
    node.advance();
    node.tick(true);
    let mut ready = nothing();
    ready.committed_entries = vec![empty_entry(3)];
    assert_eq!(node.handle_ready_at(ready, 0), Ok(vec![Action::Advance(9)]));
    node.advance();
    node.tick(true);
    assert_eq!(node.handle_ready_at(nothing(), 0), Ok(vec![Action::Advance(9)]));
}

#[test]
fn committed_entry_without_a_change_stops_the_node() {
    let mut node = ready_node();
    let ready = Ready {
        messages: vec![message(2, b"m")],
        snapshot: Some(snapshot(4, &[("a", b"1")])),
        committed_entries: vec![
            proposal(5, &put_change("b", b"2")),
            LogEntry { index: 6, term: 1, data: vec![9, 9, 9, 9, 9] },
            LogEntry { index: 7, term: 1, data: vec![1] },
        ],
        entries: vec![empty_entry(5)],
        hs: Some(HardState { term: 1, vote: 2, commit: 5 }),
        persisted_messages: Vec::new(),
    };
    assert_eq!(node.handle_ready_at(ready, 0), Err(DriverError::BadEntry(6)));
    // Nothing of the batch was done.
    assert_eq!(node.driver_state(), DriverState::HasReady);
    assert_eq!(node.applied_index(), 0);
    assert!(node.storage().store().entries().is_empty());
    assert_eq!(node.storage().first_index(), Ok(1));
    assert_eq!(node.storage().last_index(), Ok(0));
    assert_eq!(node.storage().rl().hard_state(), HardState { term: 0, vote: 0, commit: 0 });
}

#[test]
fn rejected_snapshot_stops_the_node() {
    let mut node = ready_node();
    let mut ready = nothing();
    ready.snapshot = Some(snapshot(6, &[]));
    node.handle_ready_at(ready, 0).unwrap();
    node.advance();
    node.tick(true);
    let mut ready = nothing();
    ready.snapshot = Some(snapshot(5, &[("a", b"1")]));
    ready.committed_entries = vec![proposal(7, &put_change("b", b"2"))];
    assert_eq!(
        node.handle_ready_at(ready, 0),
        Err(DriverError::Storage(StorageError::SnapshotOutOfDate))
    );
    let mut ready = nothing();
    ready.snapshot = Some(Snapshot {
        metadata: SnapshotMetadata { index: 7, term: 1, conf_state: ConfState::new() },
        data: vec![1],
    });
    assert_eq!(
        node.handle_ready_at(ready, 0),
        Err(DriverError::Storage(StorageError::InvalidSnapshot))
    );
    assert!(node.storage().store().entries().is_empty());
    assert_eq!(node.storage().rl().snapshot_metadata().index, 6);
}

#[test]
fn entries_with_a_gap_stop_the_node() {
    let mut node = ready_node();
    let mut ready = nothing();
    ready.snapshot = Some(snapshot(4, &[("a", b"1")]));
    ready.committed_entries = vec![proposal(5, &put_change("b", b"2"))];
    // After the snapshot the log ends at 4: the next entry is 5.
    ready.entries = vec![empty_entry(6)];
    assert_eq!(
        node.handle_ready_at(ready, 0),
        Err(DriverError::Storage(StorageError::LogGap))
    );
    assert!(node.storage().store().entries().is_empty());
    assert_eq!(node.storage().rl().snapshot_metadata().index, 0);
}

#[test]
fn entries_follow_the_batchs_snapshot() {
    let mut node = ready_node();
    let mut ready = nothing();
    ready.snapshot = Some(snapshot(4, &[]));
    ready.entries = vec![empty_entry(5), empty_entry(6)];
    assert_eq!(node.handle_ready_at(ready, 0), Ok(vec![Action::Advance(0)]));
    assert_eq!(node.storage().first_index(), Ok(5));
    assert_eq!(node.storage().last_index(), Ok(6));
}

#[test]
fn hard_state_beyond_the_log_stops_the_node() {
    let mut node = ready_node();
    let mut ready = nothing();
    ready.entries = vec![empty_entry(1), empty_entry(2)];
    ready.hs = Some(HardState { term: 1, vote: 1, commit: 3 });
    assert_eq!(
        node.handle_ready_at(ready, 0),
        Err(DriverError::Storage(StorageError::CommitBeyondLog))
    );
    assert_eq!(node.storage().last_index(), Ok(0));
    let mut ready = nothing();
    ready.entries = vec![empty_entry(1), empty_entry(2)];
    ready.hs = Some(HardState { term: 1, vote: 1, commit: 2 });
    assert_eq!(node.handle_ready_at(ready, 0), Ok(vec![Action::Advance(0)]));
    assert_eq!(node.storage().rl().hard_state().commit, 2);
}

#[test]
fn handle_ready_dates_the_records_by_the_clock() {
    let mut node = ready_node();
    let mut ready = nothing();
    ready.committed_entries = vec![proposal(1, &put_change("a", b"1"))];
    let actions = node.handle_ready(ready).unwrap();
    assert_eq!(actions.len(), 2);
    match &actions[0] {
        Action::AppendLog(bytes) => {
            let (record, width) = DataChangeLog::from_bytes(bytes).unwrap();
            assert_eq!(width, bytes.len());
            assert_eq!(record.query, put_change("a", b"1"));
            assert!(record.date() > 1_577_836_800);
        }
        other => panic!("expected a record for the log, got {other:?}"),
    }
    assert_eq!(actions[1], Action::Advance(1));
    assert_eq!(sorted_entries(node.storage().store()), vec![("a".to_string(), b"1".to_vec())]);
}

#[test]
fn records_of_a_batch_replay_to_the_same_store() {
    let mut node = ready_node();
    let mut ready = nothing();
    ready.committed_entries = vec![
        proposal(1, &put_change("a", b"1")),
        proposal(2, &put_change("b", b"2")),
        proposal(3, &delete_change("a")),
    ];
    let mut wal = Vec::new();
    for action in node.handle_ready_at(ready, 5).unwrap() {
        if let Action::AppendLog(bytes) = action {
            wal.extend(bytes);
        }
    }
    let mut restarted = memory_db::state::node_state::State::default();
    assert_eq!(restarted.replay_wal(&wal), Ok(3));
    assert_eq!(sorted_entries(&restarted.store), vec![("b".to_string(), b"2".to_vec())]);
    assert_eq!(sorted_entries(node.storage().store()), vec![("b".to_string(), b"2".to_vec())]);
}

#[test]
fn proposal_is_applied_when_its_entry_is_committed() {
    let query = DataQuery::Put(PutQuery { key: "a".to_string(), value: b"1".to_vec() });
    let data = query.proposal().unwrap();
    assert_eq!(data, put_change("a", b"1").to_bytes());
    assert_eq!(DataQuery::Read(ReadQuery { key: "a".to_string() }).proposal(), None);
    let mut node = ready_node();
    let mut ready = nothing();
    ready.committed_entries = vec![LogEntry { index: 1, term: 1, data }];
    let actions = node.handle_ready_at(ready, 3).unwrap();
    assert_eq!(
        actions,
        vec![
            Action::AppendLog(DataChangeLog::new(put_change("a", b"1"), 3).to_bytes()),
            Action::Advance(1),
        ]
    );
    assert_eq!(sorted_entries(node.storage().store()), vec![("a".to_string(), b"1".to_vec())]);
}
