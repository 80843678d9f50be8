use memory_db::prelude::{DataStore, DataStoreKey, DataStoreValue};
use memory_db::storage::{
    ConfState, DatabaseStorage, HardState, LogEntry, MyStorageCore, Snapshot, SnapshotMetadata,
    StorageError,
};

fn entry(index: u64, term: u64) -> LogEntry {
    LogEntry { index, term, data: vec![index as u8] }
}

fn entries(from: u64, to: u64, term: u64) -> Vec<LogEntry> {
    (from..to).map(|i| entry(i, term)).collect()
}

fn meta(index: u64, term: u64) -> SnapshotMetadata {
    SnapshotMetadata { index, term, conf_state: ConfState::new() }
}

fn store_of(pairs: &[(&str, &[u8])]) -> DataStore {
    let mut store = DataStore::new();
    for (k, v) in pairs {
        store.insert(DataStoreKey::from(*k), DataStoreValue::from(*v));
    }
    store
}

fn snapshot(index: u64, term: u64, pairs: &[(&str, &[u8])]) -> Snapshot {
    Snapshot { metadata: meta(index, term), data: store_of(pairs).to_bytes() }
}

fn sorted_entries(store: &DataStore) -> Vec<(String, Vec<u8>)> {
    let mut all: Vec<(String, Vec<u8>)> =
        store.entries().into_iter().map(|(k, v)| (k.0, v.0)).collect();
    all.sort();
    all
}

#[test]
fn fresh_storage_has_an_empty_log() {
    let storage = DatabaseStorage::default();
    assert_eq!(storage.first_index(), Ok(1));
    assert_eq!(storage.last_index(), Ok(0));
    assert_eq!(storage.last_entry_index(), None);
    assert_eq!(storage.term(0), Err(StorageError::Unavailable));
    assert_eq!(storage.term(1), Err(StorageError::Unavailable));
    let initial = storage.initial_state().unwrap();
    assert_eq!(initial.hard_state, HardState { term: 0, vote: 0, commit: 0 });
    assert_eq!(initial.conf_state, ConfState::new());
    assert!(storage.store().entries().is_empty());
}

#[test]
fn empty_log_ends_one_before_it_starts() {
    let mut storage = DatabaseStorage::default();
    storage.apply_snapshot(snapshot(41, 3, &[])).unwrap();
    assert_eq!(storage.first_index(), Ok(42));
    assert_eq!(storage.last_index(), Ok(41));
    assert_eq!(storage.last_entry_index(), None);
}

#[test]
fn append_extends_the_log() {
    let mut storage = DatabaseStorage::default();
    assert_eq!(storage.wl().append(&entries(1, 4, 1)), Ok(()));
    assert_eq!(storage.wl().append(&entries(4, 6, 2)), Ok(()));
    assert_eq!(storage.wl().append(&[]), Ok(()));
    assert_eq!(storage.first_index(), Ok(1));
    assert_eq!(storage.last_index(), Ok(5));
    assert_eq!(storage.last_entry_index(), Some(5));
    assert_eq!(storage.rl().first_index(), 1);
    assert_eq!(storage.rl().last_index(), 5);
    assert_eq!(storage.term(3), Ok(1));
    assert_eq!(storage.term(4), Ok(2));
}

#[test]
fn append_with_a_gap_is_rejected() {
    let mut storage = DatabaseStorage::default();
    storage.wl().append(&entries(1, 3, 1)).unwrap();
    // An index is skipped.
    assert_eq!(storage.wl().append(&entries(4, 5, 1)), Err(StorageError::LogGap));
    // An index comes again.
    assert_eq!(storage.wl().append(&entries(2, 4, 1)), Err(StorageError::LogGap));
    // The entries skip an index among themselves.
    assert_eq!(storage.wl().append(&[entry(3, 1), entry(5, 1)]), Err(StorageError::LogGap));
    // The entries go back.
    assert_eq!(storage.wl().append(&[entry(3, 1), entry(3, 1)]), Err(StorageError::LogGap));
    assert_eq!(storage.last_index(), Ok(2));
    assert_eq!(storage.wl().append(&entries(3, 4, 1)), Ok(()));
    assert_eq!(storage.last_index(), Ok(3));
}

#[test]
fn first_entry_must_follow_the_snapshot() {
    let mut storage = DatabaseStorage::default();
    assert_eq!(storage.wl().append(&entries(0, 1, 1)), Err(StorageError::LogGap));
    assert_eq!(storage.wl().append(&entries(2, 3, 1)), Err(StorageError::LogGap));
    assert_eq!(MyStorageCore::follow(0, &entries(1, 3, 1)), true);
    assert_eq!(MyStorageCore::follow(u64::MAX, &entries(0, 1, 1)), false);
    assert_eq!(MyStorageCore::follow(u64::MAX, &[]), true);
    assert_eq!(MyStorageCore::follow(u64::MAX - 1, &[entry(u64::MAX, 1)]), true);
}

#[test]
fn term_outside_the_log_is_unavailable() {
    let mut storage = DatabaseStorage::default();
    storage.apply_snapshot(snapshot(10, 2, &[])).unwrap();
    storage.wl().append(&entries(11, 14, 3)).unwrap();
    assert_eq!(storage.term(0), Err(StorageError::Unavailable));
    assert_eq!(storage.term(10), Err(StorageError::Unavailable));
    assert_eq!(storage.term(11), Ok(3));
    assert_eq!(storage.term(13), Ok(3));
    assert_eq!(storage.term(14), Err(StorageError::Unavailable));
    assert_eq!(storage.term(u64::MAX), Err(StorageError::Unavailable));
    assert_eq!(storage.rl().term(12), Ok(3));
}

#[test]
fn entries_gives_the_range() {
    let mut storage = DatabaseStorage::default();
    storage.wl().append(&entries(1, 6, 1)).unwrap();
    assert_eq!(storage.entries(2, 4, None), Ok(entries(2, 4, 1)));
    assert_eq!(storage.entries(1, 6, None), Ok(entries(1, 6, 1)));
    assert_eq!(storage.entries(3, 3, None), Ok(Vec::new()));
    assert_eq!(storage.entries(6, 6, None), Ok(Vec::new()));
}

#[test]
fn entries_stops_at_the_limit() {
    let mut storage = DatabaseStorage::default();
    storage.wl().append(&entries(1, 6, 1)).unwrap();
    assert_eq!(storage.entries(1, 6, Some(2)), Ok(entries(1, 3, 1)));
    assert_eq!(storage.entries(2, 6, Some(0)), Ok(Vec::new()));
    assert_eq!(storage.entries(2, 4, Some(2)), Ok(entries(2, 4, 1)));
    assert_eq!(storage.entries(2, 4, Some(u64::MAX)), Ok(entries(2, 4, 1)));
}

#[test]
fn entries_outside_the_log_are_unavailable() {
    let mut storage = DatabaseStorage::default();
    storage.apply_snapshot(snapshot(5, 1, &[])).unwrap();
    storage.wl().append(&entries(6, 9, 1)).unwrap();
    // The range reaches below the first retained index.
    assert_eq!(storage.entries(5, 7, None), Err(StorageError::Unavailable));
    assert_eq!(storage.entries(0, 1, None), Err(StorageError::Unavailable));
    // The range reaches behind the last entry.
    assert_eq!(storage.entries(6, 10, None), Err(StorageError::Unavailable));
    assert_eq!(storage.entries(6, u64::MAX, None), Err(StorageError::Unavailable));
    // The range ends before it starts.
    assert_eq!(storage.entries(8, 7, None), Err(StorageError::Unavailable));
    assert_eq!(storage.entries(6, 9, None), Ok(entries(6, 9, 1)));
}

#[test]
fn hard_state_is_overwritten() {
    let mut storage = DatabaseStorage::default();
    storage.wl().append(&entries(1, 4, 1)).unwrap();
    let hs = HardState { term: 2, vote: 7, commit: 3 };
    assert_eq!(storage.wl().set_hardstate(hs), Ok(()));
    assert_eq!(storage.initial_state().unwrap().hard_state, hs);
    assert_eq!(storage.rl().hard_state(), hs);
}

#[test]
fn hard_state_cannot_commit_beyond_the_log() {
    let mut storage = DatabaseStorage::default();
    storage.wl().append(&entries(1, 4, 1)).unwrap();
    let hs = HardState { term: 2, vote: 7, commit: 4 };
    assert_eq!(storage.wl().set_hardstate(hs), Err(StorageError::CommitBeyondLog));
    assert_eq!(storage.rl().hard_state(), HardState { term: 0, vote: 0, commit: 0 });
}

#[test]
fn snapshot_is_unavailable_until_one_reaches_the_index() {
    let mut storage = DatabaseStorage::new(store_of(&[("a", b"1")]));
    assert_eq!(storage.snapshot(1, 0), Err(StorageError::SnapshotTemporarilyUnavailable));
    let made = storage.snapshot(0, 0).unwrap();
    assert_eq!(made.metadata, meta(0, 0));
    assert_eq!(made.data, store_of(&[("a", b"1")]).to_bytes());
    storage.apply_snapshot(snapshot(8, 2, &[("b", b"2")])).unwrap();
    assert_eq!(storage.snapshot(9, 0), Err(StorageError::SnapshotTemporarilyUnavailable));
    let made = storage.snapshot(8, 3).unwrap();
    assert_eq!(made.metadata, meta(8, 2));
    assert_eq!(made.data, store_of(&[("b", b"2")]).to_bytes());
    assert_eq!(storage.snapshot(3, 0).unwrap().metadata.index, 8);
}

#[test]
fn applied_snapshot_replaces_the_store() {
    let mut storage = DatabaseStorage::new(store_of(&[("old", b"x")]));
    assert_eq!(storage.apply_snapshot(snapshot(4, 1, &[("a", b"1"), ("b", b"2")])), Ok(()));
    assert_eq!(
        sorted_entries(storage.store()),
        vec![("a".to_string(), b"1".to_vec()), ("b".to_string(), b"2".to_vec())]
    );
    assert_eq!(storage.rl().snapshot_metadata(), meta(4, 1));
}

#[test]
fn applied_snapshot_compacts_the_log_from_the_front() {
    let mut storage = DatabaseStorage::default();
    storage.wl().append(&entries(1, 8, 1)).unwrap();
    storage.apply_snapshot(snapshot(3, 1, &[])).unwrap();
    assert_eq!(storage.first_index(), Ok(4));
    assert_eq!(storage.last_index(), Ok(7));
    assert_eq!(storage.term(3), Err(StorageError::Unavailable));
    assert_eq!(storage.entries(4, 8, None), Ok(entries(4, 8, 1)));
    // A snapshot that covers the whole log empties it.
    storage.apply_snapshot(snapshot(20, 2, &[])).unwrap();
    assert_eq!(storage.first_index(), Ok(21));
    assert_eq!(storage.last_index(), Ok(20));
    assert_eq!(storage.wl().append(&entries(21, 22, 2)), Ok(()));
}

#[test]
fn snapshot_index_never_goes_back() {
    let mut storage = DatabaseStorage::default();
    let mut seen = Vec::new();
    for index in [3u64, 3, 9, 5, 0, 12, 11] {
        let res = storage.apply_snapshot(snapshot(index, 1, &[("k", &[index as u8])]));
        assert_eq!(res.is_ok(), seen.last().map_or(true, |last| index >= *last));
        if res.is_err() {
            assert_eq!(res, Err(StorageError::SnapshotOutOfDate));
        }
        seen.push(storage.rl().snapshot_metadata().index);
    }
    assert_eq!(seen, vec![3, 3, 9, 9, 9, 12, 12]);
    assert_eq!(sorted_entries(storage.store()), vec![("k".to_string(), vec![12u8])]);
}

#[test]
fn snapshot_with_bad_data_is_rejected() {
    let mut storage = DatabaseStorage::new(store_of(&[("kept", b"x")]));
    let bad = Snapshot { metadata: meta(5, 1), data: vec![1, 2, 3] };
    assert_eq!(storage.apply_snapshot(bad), Err(StorageError::InvalidSnapshot));
    let last = Snapshot { metadata: meta(u64::MAX, 1), data: DataStore::new().to_bytes() };
    assert_eq!(storage.apply_snapshot(last), Err(StorageError::InvalidSnapshot));
    assert_eq!(storage.rl().snapshot_metadata(), meta(0, 0));
    assert_eq!(sorted_entries(storage.store()), vec![("kept".to_string(), b"x".to_vec())]);
}

#[test]
fn check_snapshot_reads_without_applying() {
    let storage = DatabaseStorage::default();
    let store = storage.check_snapshot(&snapshot(2, 1, &[("a", b"1")])).unwrap();
    assert_eq!(sorted_entries(&store), vec![("a".to_string(), b"1".to_vec())]);
    assert!(storage.store().entries().is_empty());
    assert_eq!(storage.first_index(), Ok(1));
}

#[test]
fn store_can_be_changed_through_the_storage() {
    let mut storage = DatabaseStorage::default();
    storage.store_mut().insert(DataStoreKey::from("a"), DataStoreValue::from(b"1".to_vec()));
    assert_eq!(sorted_entries(storage.store()), vec![("a".to_string(), b"1".to_vec())]);
}

#[test]
fn storage_clones_are_equal() {
    let e = entry(3, 4);
    assert_eq!(e.clone(), e);
    let s = snapshot(3, 4, &[("a", b"1")]);
    assert_eq!(s.clone(), s);
    let conf = ConfState {
        voters: vec![1, 2],
        learners: vec![3],
        voters_outgoing: vec![4],
        learners_next: vec![5],
        auto_leave: true,
    };
    assert_eq!(conf.clone(), conf);
    let core = MyStorageCore::default();
    assert_eq!(core.first_index(), 1);
}
