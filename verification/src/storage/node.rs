//! A Raft node's handling of what the consensus algorithm hands out.
//!
//! The algorithm itself runs outside. On every tick it is asked whether a
//! batch of output is ready; the node takes the batch, changes the storage
//! and the store as the batch asks, and hands back what is to be done
//! outside, in the order in which it is to be done: messages to send,
//! records to append to the write-ahead log, and at last the word to the
//! algorithm that the batch is done with.

use vstd::prelude::*;
use crate::log::{DataChangeLog, DataChangeQuery, RecordModel, change_bytes, now_timestamp, read_change, record_bytes, replay, lemma_read_change_of_bytes};
use crate::prelude::{Contents, DataStore, read_snapshot};
use crate::public_api::dataquery::{DataQuery, HandleQuery, QueryModel};
use crate::storage::{CoreModel, DatabaseStorage, EntryModel, HardState, LogEntry, MyStorageCore, Snapshot, StorageError, apply_error, entries_view, lemma_appended, lemma_compacted};

verus! {

/// A message to a peer.
#[derive(Debug, PartialEq, Eq)]
pub struct Message {
    pub to: u64,
    pub payload: Vec<u8>,
}

impl View for Message {
    type V = (u64, Seq<u8>);

    open spec fn view(&self) -> (u64, Seq<u8>) {
        (self.to, self.payload@)
    }
}

impl Clone for Message {
    fn clone(&self) -> (res: Self)
        ensures
            res@ == self@,
    {
        Message { to: self.to, payload: self.payload.clone() }
    }
}

/// A batch of the algorithm's output.
#[derive(Debug, PartialEq, Eq)]
pub struct Ready {
    /// Messages that can be sent at once.
    pub messages: Vec<Message>,
    /// A snapshot that was received, if one was.
    pub snapshot: Option<Snapshot>,
    /// Entries that are committed and are to be applied to the store.
    pub committed_entries: Vec<LogEntry>,
    /// Entries that are new and are to be appended to the log.
    pub entries: Vec<LogEntry>,
    /// The hard state, if it changed.
    pub hs: Option<HardState>,
    /// Messages that can be sent once everything else is durable.
    pub persisted_messages: Vec<Message>,
}

/// Where the node stands with the algorithm's output.
#[derive(Debug, Clone, Copy, PartialEq, Eq, Structural)]
pub enum DriverState {
    /// Nothing is pending.
    Idle,
    /// The algorithm has a batch ready that was not handled yet.
    HasReady,
    /// A batch was handled; what it asked for outside is being done.
    Advancing,
}

/// Something to do outside.
#[derive(Debug, PartialEq, Eq)]
pub enum Action {
    /// Send the message to its peer. A message that cannot be sent is
    /// passed over.
    Send(Message),
    /// Append the bytes to the write-ahead log.
    AppendLog(Vec<u8>),
    /// Tell the algorithm that the batch is done with, and that entries are
    /// applied up to this index.
    Advance(u64),
}

/// Something to do outside, as mathematics.
pub enum ActionModel {
    Send(u64, Seq<u8>),
    AppendLog(Seq<u8>),
    Advance(u64),
}

impl View for Action {
    type V = ActionModel;

    open spec fn view(&self) -> ActionModel {
        match self {
            Action::Send(m) => ActionModel::Send(m.to, m.payload@),
            Action::AppendLog(bytes) => ActionModel::AppendLog(bytes@),
            Action::Advance(index) => ActionModel::Advance(*index),
        }
    }
}

/// Why a batch was not handled. The node must stop on any of these but the
/// first.
#[derive(Debug, Clone, Copy, PartialEq, Eq, Structural)]
pub enum DriverError {
    /// No batch is pending.
    NotReady,
    /// The committed entry at this index holds no change of the store.
    BadEntry(u64),
    /// The storage rejected the batch's snapshot, entries or hard state.
    Storage(StorageError),
}

/// The actions of a list, as mathematics.
pub open spec fn actions_view(actions: Seq<Action>) -> Seq<ActionModel> {
    actions.map_values(|a: Action| a@)
}

/// The messages of a list, as mathematics.
pub open spec fn messages_view(messages: Seq<Message>) -> Seq<(u64, Seq<u8>)> {
    messages.map_values(|m: Message| m@)
}

/// Whether a committed entry can be applied: it is empty, as the entry that
/// a new leader appends is, or it holds a change.
pub open spec fn entry_ok(e: EntryModel) -> bool {
    e.data.len() == 0 || read_change(e.data) is Some
}

/// The index of the first committed entry that cannot be applied.
pub open spec fn first_bad_entry(committed: Seq<EntryModel>) -> Option<u64>
    decreases committed.len(),
{
    if committed.len() == 0 {
        None
    } else {
        match first_bad_entry(committed.drop_last()) {
            Some(index) => Some(index),
            None => if entry_ok(committed.last()) {
                None
            } else {
                Some(committed.last().index)
            },
        }
    }
}

/// The changes that the committed entries hold, in the order of the entries.
/// An empty entry holds none.
pub open spec fn committed_queries(committed: Seq<EntryModel>) -> Seq<QueryModel>
    decreases committed.len(),
{
    if committed.len() == 0 {
        Seq::empty()
    } else {
        let before = committed_queries(committed.drop_last());
        let last = committed.last();
        if last.data.len() > 0 && read_change(last.data) is Some {
            before.push(read_change(last.data).unwrap().0)
        } else {
            before
        }
    }
}

/// The highest index among `applied` and the indices of the committed
/// entries.
pub open spec fn highest_applied(applied: u64, committed: Seq<EntryModel>) -> u64
    decreases committed.len(),
{
    if committed.len() == 0 {
        applied
    } else {
        let before = highest_applied(applied, committed.drop_last());
        if committed.last().index > before {
            committed.last().index
        } else {
            before
        }
    }
}

/// One action for each message: to send it.
pub open spec fn send_actions(messages: Seq<(u64, Seq<u8>)>) -> Seq<ActionModel> {
    messages.map_values(|m: (u64, Seq<u8>)| ActionModel::Send(m.0, m.1))
}

/// One action for each change: to append its record, dated `date`, to the
/// write-ahead log.
pub open spec fn log_actions(queries: Seq<QueryModel>, date: i64) -> Seq<ActionModel> {
    queries.map_values(
        |q: QueryModel| ActionModel::AppendLog(record_bytes(RecordModel { query: q, date })),
    )
}

/// The core after the batch's snapshot was applied.
pub open spec fn snapshot_core(core: CoreModel, snapshot: Option<Snapshot>) -> CoreModel {
    match snapshot {
        Some(s) => core.compacted(s.metadata@),
        None => core,
    }
}

/// What the store holds after the batch's snapshot was applied.
pub open spec fn snapshot_held(held: Contents, snapshot: Option<Snapshot>) -> Contents {
    match snapshot {
        Some(s) => read_snapshot(s.data@).unwrap(),
        None => held,
    }
}

/// Why the batch cannot be handled, if it cannot: a committed entry that
/// holds no change; a snapshot that the storage rejects; new entries that
/// do not continue the log as it is after the snapshot; a hard state that
/// commits more than the log then holds.
pub open spec fn ready_error(core: CoreModel, ready: Ready) -> Option<DriverError> {
    let committed = entries_view(ready.committed_entries@);
    let entries = entries_view(ready.entries@);
    let after = snapshot_core(core, ready.snapshot);
    if first_bad_entry(committed) is Some {
        Some(DriverError::BadEntry(first_bad_entry(committed).unwrap()))
    } else if ready.snapshot is Some && apply_error(
        core,
        ready.snapshot.unwrap().metadata@,
        ready.snapshot.unwrap().data@,
    ) is Some {
        Some(
            DriverError::Storage(
                apply_error(
                    core,
                    ready.snapshot.unwrap().metadata@,
                    ready.snapshot.unwrap().data@,
                ).unwrap(),
            ),
        )
    } else if !after.continued_by(entries) {
        Some(DriverError::Storage(StorageError::LogGap))
    } else if ready.hs is Some && ready.hs.unwrap().commit > after.appended(entries).last_index() {
        Some(DriverError::Storage(StorageError::CommitBeyondLog))
    } else {
        None
    }
}

/// The core after the batch: the snapshot applied, then the new entries
/// appended, then the hard state put in place.
pub open spec fn ready_core(core: CoreModel, ready: Ready) -> CoreModel {
    let appended = snapshot_core(core, ready.snapshot).appended(entries_view(ready.entries@));
    match ready.hs {
        Some(hs) => CoreModel { hard_state: hs, ..appended },
        None => appended,
    }
}

/// What the store holds after the batch: the snapshot applied, then the
/// changes of the committed entries run in their order.
pub open spec fn ready_held(held: Contents, ready: Ready) -> Contents {
    replay(
        committed_queries(entries_view(ready.committed_entries@)),
        snapshot_held(held, ready.snapshot),
    )
}

/// What the batch asks for outside, in order: the messages are sent; the
/// record of each change is appended to the write-ahead log; the messages
/// that waited for that are sent; the algorithm is told.
pub open spec fn ready_actions(ready: Ready, date: i64, applied: u64) -> Seq<ActionModel> {
    send_actions(messages_view(ready.messages@)) + log_actions(
        committed_queries(entries_view(ready.committed_entries@)),
        date,
    ) + send_actions(messages_view(ready.persisted_messages@)) + seq![
        ActionModel::Advance(applied),
    ]
}

/// A Raft node: its storage, where it stands with the algorithm's output,
/// and the index up to which entries are applied.
pub struct RaftNode {
    storage: DatabaseStorage,
    state: DriverState,
    applied: u64,
}

impl RaftNode {
    /// The storage's core, as mathematics.
    pub closed spec fn model(&self) -> CoreModel {
        self.storage.model()
    }

    /// What the store holds.
    pub closed spec fn held(&self) -> Contents {
        self.storage.held()
    }

    /// Where the node stands.
    pub closed spec fn state(&self) -> DriverState {
        self.state
    }

    /// The index up to which entries are applied.
    pub closed spec fn applied(&self) -> u64 {
        self.applied
    }

    /// The storage is well-formed.
    pub open spec fn wf(&self) -> bool {
        self.model().wf()
    }

    /// A node over `storage`, with nothing pending and nothing applied.
    pub fn new(storage: DatabaseStorage) -> (node: Self)
        requires
            storage.wf(),
        ensures
            node.wf(),
            node.model() == storage.model(),
            node.held() == storage.held(),
            node.state() == DriverState::Idle,
            node.applied() == 0,
    {
        RaftNode { storage, state: DriverState::Idle, applied: 0 }
    }

    /// The storage, to read it.
    pub fn storage(&self) -> (storage: &DatabaseStorage)
        ensures
            storage.model() == self.model(),
            storage.held() == self.held(),
    {
        &self.storage
    }

    /// Where the node stands.
    pub fn driver_state(&self) -> (state: DriverState)
        ensures
            state == self.state(),
    {
        self.state
    }

    /// The index up to which entries are applied.
    pub fn applied_index(&self) -> (index: u64)
        ensures
            index == self.applied(),
    {
        self.applied
    }

    /// A tick: the algorithm was asked to move its clock and said whether a
    /// batch is ready. A node with nothing pending takes note of a batch
    /// that is; a node that is busy with a batch stays so. Returns whether
    /// the batch is to be fetched and handled now.
    pub fn tick(&mut self, has_ready: bool) -> (fetch: bool)
        ensures
            fetch == (old(self).state() == DriverState::Idle && has_ready),
            final(self).state() == if fetch {
                DriverState::HasReady
            } else {
                old(self).state()
            },
            final(self).model() == old(self).model(),
            final(self).held() == old(self).held(),
            final(self).applied() == old(self).applied(),
    {
        match self.state {
            DriverState::Idle => {
                if has_ready {
                    self.state = DriverState::HasReady;
                    true
                } else {
                    false
                }
            },
            _ => false,
        }
    }

    /// The batch's work outside is done and the algorithm was told: the
    /// node has nothing pending again.
    pub fn advance(&mut self)
        ensures
            final(self).state() == if old(self).state() == DriverState::Advancing {
                DriverState::Idle
            } else {
                old(self).state()
            },
            final(self).model() == old(self).model(),
            final(self).held() == old(self).held(),
            final(self).applied() == old(self).applied(),
    {
        match self.state {
            DriverState::Advancing => {
                self.state = DriverState::Idle;
            },
            _ => {},
        }
    }
}

/// The changes of a list, as mathematics.
pub open spec fn changes_view(changes: Seq<DataChangeQuery>) -> Seq<QueryModel> {
    changes.map_values(|c: DataChangeQuery| c@)
}

/// A committed entry that holds the proposal of a query is applied as that
/// query, after the entries before it.
pub proof fn lemma_committed_proposal(committed: Seq<EntryModel>, entry: EntryModel, q: QueryModel)
    requires
        q.is_mutation(),
        q.fits(),
        entry.data == change_bytes(q),
    ensures
        first_bad_entry(committed.push(entry)) == first_bad_entry(committed),
        committed_queries(committed.push(entry)) == committed_queries(committed).push(q),
{
    lemma_read_change_of_bytes(q, Seq::empty());
    assert(change_bytes(q) + Seq::<u8>::empty() =~= change_bytes(q));
    assert(committed.push(entry).drop_last() =~= committed);
}

/// The highest index is never below the index that it started from.
pub proof fn lemma_highest_applied(applied: u64, committed: Seq<EntryModel>)
    ensures
        highest_applied(applied, committed) >= applied,
        forall|i: int|
            0 <= i < committed.len() ==> highest_applied(applied, committed)
                >= (#[trigger] committed[i]).index,
    decreases committed.len(),
{
    if committed.len() > 0 {
        lemma_highest_applied(applied, committed.drop_last());
        assert forall|i: int| 0 <= i < committed.len() implies highest_applied(applied, committed)
            >= (#[trigger] committed[i]).index by {
            if i < committed.len() - 1 {
                assert(committed.drop_last()[i] == committed[i]);
            }
        }
    }
}

/// Reads the changes that the committed entries hold and finds the highest
/// index among `applied` and theirs, or the index of the first entry that
/// holds no change.
fn decode_committed(committed: &Vec<LogEntry>, applied: u64) -> (res: Result<
    (Vec<DataChangeQuery>, u64),
    u64,
>)
    ensures
        match res {
            Ok((changes, top)) => {
                &&& first_bad_entry(entries_view(committed@)) is None
                &&& changes_view(changes@) == committed_queries(entries_view(committed@))
                &&& top == highest_applied(applied, entries_view(committed@))
            },
            Err(index) => first_bad_entry(entries_view(committed@)) == Some(index),
        },
{
    let ghost all = entries_view(committed@);
    let mut changes: Vec<DataChangeQuery> = Vec::new();
    let mut top = applied;
    let mut i: usize = 0;
    proof {
        assert(changes_view(changes@) =~= committed_queries(all.take(0)));
    }
    while i < committed.len()
        invariant
            i <= committed.len(),
            all == entries_view(committed@),
            first_bad_entry(all.take(i as int)) is None,
            changes_view(changes@) == committed_queries(all.take(i as int)),
            top == highest_applied(applied, all.take(i as int)),
        decreases committed.len() - i,
    {
        let entry = &committed[i];
        proof {
            assert(all.take(i + 1).drop_last() =~= all.take(i as int));
            assert(all.take(i + 1).last() == entry@);
        }
        if entry.index > top {
            top = entry.index;
        }
        if entry.data.len() > 0 {
            match DataChangeQuery::from_bytes(entry.data.as_slice()) {
                Some((change, _)) => {
                    let ghost before = changes_view(changes@);
                    changes.push(change);
                    proof {
                        assert(changes_view(changes@) =~= before.push(change@));
                    }
                },
                None => {
                    proof {
                        lemma_first_bad_prefix(all, i + 1);
                    }
                    return Err(entry.index);
                },
            }
        }
        i += 1;
    }
    proof {
        assert(all.take(committed.len() as int) =~= all);
    }
    Ok((changes, top))
}

/// An entry that is the first bad one of the start of a list is the first
/// bad one of the list.
proof fn lemma_first_bad_prefix(committed: Seq<EntryModel>, upto: int)
    requires
        0 <= upto <= committed.len(),
        first_bad_entry(committed.take(upto)) is Some,
    ensures
        first_bad_entry(committed) == first_bad_entry(committed.take(upto)),
    decreases committed.len(),
{
    if upto == committed.len() {
        assert(committed.take(upto) =~= committed);
    } else {
        assert(committed.drop_last().take(upto) =~= committed.take(upto));
        lemma_first_bad_prefix(committed.drop_last(), upto);
    }
}

/// Adds to `actions` one to send each message.
fn send_all(actions: &mut Vec<Action>, messages: &Vec<Message>)
    ensures
        actions_view(final(actions)@) == actions_view(old(actions)@) + send_actions(
            messages_view(messages@),
        ),
{
    let ghost before = actions_view(actions@);
    let ghost sends = send_actions(messages_view(messages@));
    let mut i: usize = 0;
    proof {
        assert(actions_view(actions@) =~= before + sends.take(0));
    }
    while i < messages.len()
        invariant
            i <= messages.len(),
            sends == send_actions(messages_view(messages@)),
            actions_view(actions@) == before + sends.take(i as int),
        decreases messages.len() - i,
    {
        let ghost so_far = actions_view(actions@);
        let message = messages[i].clone();
        actions.push(Action::Send(message));
        i += 1;
        proof {
            assert(actions_view(actions@) =~= so_far.push(sends[i - 1]));
            assert(sends.take(i as int) =~= sends.take(i - 1).push(sends[i - 1]));
            assert(actions_view(actions@) =~= before + sends.take(i as int));
        }
    }
    proof {
        assert(sends.take(messages.len() as int) =~= sends);
    }
}

/// Runs the changes on the store in their order, and adds to `actions` one
/// to append the record of each, dated `date`, to the write-ahead log.
fn apply_changes(
    store: &mut DataStore,
    changes: &Vec<DataChangeQuery>,
    date: i64,
    actions: &mut Vec<Action>,
)
    ensures
        final(store)@ == replay(changes_view(changes@), old(store)@),
        actions_view(final(actions)@) == actions_view(old(actions)@) + log_actions(
            changes_view(changes@),
            date,
        ),
{
    let ghost before = actions_view(actions@);
    let ghost queries = changes_view(changes@);
    let ghost logs = log_actions(queries, date);
    let mut i: usize = 0;
    proof {
        assert(actions_view(actions@) =~= before + logs.take(0));
    }
    while i < changes.len()
        invariant
            i <= changes.len(),
            queries == changes_view(changes@),
            logs == log_actions(queries, date),
            store@ == replay(queries.take(i as int), old(store)@),
            actions_view(actions@) == before + logs.take(i as int),
        decreases changes.len() - i,
    {
        let ghost so_far = actions_view(actions@);
        let record = DataChangeLog::new(changes[i].clone(), date);
        let bytes = record.to_bytes();
        actions.push(Action::AppendLog(bytes));
        let query = DataQuery::from(changes[i].clone());
        proof {
            assert(queries.take(i + 1).drop_last() =~= queries.take(i as int));
            assert(queries.take(i + 1).last() == query@);
        }
        query.exec(store);
        i += 1;
        proof {
            assert(actions_view(actions@) =~= so_far.push(logs[i - 1]));
            assert(logs.take(i as int) =~= logs.take(i - 1).push(logs[i - 1]));
            assert(actions_view(actions@) =~= before + logs.take(i as int));
        }
    }
    proof {
        assert(queries.take(changes.len() as int) =~= queries);
        assert(logs.take(changes.len() as int) =~= logs);
    }
}

impl RaftNode {
    /// Handles a batch at the second `date`. The batch is checked first and
    /// rejected as a whole where it cannot be handled; nothing has changed
    /// then, and the node must stop. Else the snapshot is applied, the
    /// changes of the committed entries are run on the store, the new
    /// entries are appended and the hard state is put in place, in this
    /// order, and the node waits for `advance`. The actions returned are to
    /// be done outside in their order.
    pub fn handle_ready_at(&mut self, ready: Ready, date: i64) -> (res: Result<
        Vec<Action>,
        DriverError,
    >)
        requires
            old(self).wf(),
        ensures
            final(self).wf(),
            final(self).model().snapshot.index >= old(self).model().snapshot.index,
            final(self).applied() >= old(self).applied(),
            match res {
                Ok(actions) => {
                    &&& old(self).state() == DriverState::HasReady
                    &&& ready_error(old(self).model(), ready) is None
                    &&& final(self).state() == DriverState::Advancing
                    &&& final(self).model() == ready_core(old(self).model(), ready)
                    &&& final(self).held() == ready_held(old(self).held(), ready)
                    &&& final(self).applied() == highest_applied(
                        old(self).applied(),
                        entries_view(ready.committed_entries@),
                    )
                    &&& actions_view(actions@) == ready_actions(ready, date, final(self).applied())
                },
                Err(e) => {
                    &&& e == if old(self).state() == DriverState::HasReady {
                        ready_error(old(self).model(), ready).unwrap()
                    } else {
                        DriverError::NotReady
                    }
                    &&& old(self).state() == DriverState::HasReady ==> ready_error(
                        old(self).model(),
                        ready,
                    ) is Some
                    &&& final(self).state() == old(self).state()
                    &&& final(self).model() == old(self).model()
                    &&& final(self).held() == old(self).held()
                    &&& final(self).applied() == old(self).applied()
                },
            },
    {
        if self.state != DriverState::HasReady {
            return Err(DriverError::NotReady);
        }
        let Ready { messages, snapshot, committed_entries, entries, hs, persisted_messages } =
            ready;
        let ghost core = self.model();
        let ghost after = snapshot_core(core, snapshot);
        let ghost added = entries_view(entries@);

        let (changes, top) = match decode_committed(&committed_entries, self.applied) {
            Ok(decoded) => decoded,
            Err(index) => { return Err(DriverError::BadEntry(index)); },
        };
        proof {
            lemma_highest_applied(self.applied, entries_view(committed_entries@));
        }
        let mut last = self.storage.rl().last_index();
        let mut incoming: Option<DataStore> = None;
        if let Some(s) = &snapshot {
            match self.storage.check_snapshot(s) {
                Ok(store) => {
                    incoming = Some(store);
                },
                Err(e) => { return Err(DriverError::Storage(e)); },
            }
            proof {
                lemma_compacted(core, s.metadata@);
            }
            if s.metadata.index > last {
                last = s.metadata.index;
            }
        }
        assert(last == after.last_index());
        assert(after.wf());
        if !MyStorageCore::follow(last, entries.as_slice()) {
            return Err(DriverError::Storage(StorageError::LogGap));
        }
        proof {
            lemma_appended(after, added);
        }
        if let Some(state) = hs {
            let reach = if entries.len() > 0 {
                entries[entries.len() - 1].index
            } else {
                last
            };
            proof {
                if entries.len() > 0 {
                    assert(added[entries.len() - 1].index == last + entries.len());
                }
            }
            if state.commit > reach {
                return Err(DriverError::Storage(StorageError::CommitBeyondLog));
            }
        }
        let mut actions: Vec<Action> = Vec::new();
        send_all(&mut actions, &messages);
        if let Some(s) = snapshot {
            match incoming {
                Some(store) => {
                    self.storage.install_snapshot(s.metadata, store);
                },
                None => {},
            }
        }
        apply_changes(self.storage.store_mut(), &changes, date, &mut actions);
        // The batch was checked: the storage takes what is left of it.
        let appended = self.storage.wl().append(entries.as_slice());
        assert(appended is Ok);
        if let Some(state) = hs {
            let put = self.storage.wl().set_hardstate(state);
            assert(put is Ok);
        }
        send_all(&mut actions, &persisted_messages);
        actions.push(Action::Advance(top));
        self.applied = top;
        self.state = DriverState::Advancing;
        proof {
            assert(actions_view(actions@) =~= ready_actions(ready, date, top));
        }
        Ok(actions)
    }

    /// Handles a batch now: as `handle_ready_at`, with the records for the
    /// write-ahead log dated by the clock.
    pub fn handle_ready(&mut self, ready: Ready) -> (res: Result<Vec<Action>, DriverError>)
        requires
            old(self).wf(),
        ensures
            final(self).wf(),
            final(self).model().snapshot.index >= old(self).model().snapshot.index,
            final(self).applied() >= old(self).applied(),
            match res {
                Ok(actions) => {
                    &&& old(self).state() == DriverState::HasReady
                    &&& ready_error(old(self).model(), ready) is None
                    &&& final(self).state() == DriverState::Advancing
                    &&& final(self).model() == ready_core(old(self).model(), ready)
                    &&& final(self).held() == ready_held(old(self).held(), ready)
                    &&& final(self).applied() == highest_applied(
                        old(self).applied(),
                        entries_view(ready.committed_entries@),
                    )
                    &&& exists|date: i64|
                        actions_view(actions@) == #[trigger] ready_actions(
                            ready,
                            date,
                            final(self).applied(),
                        )
                },
                Err(e) => {
                    &&& e == if old(self).state() == DriverState::HasReady {
                        ready_error(old(self).model(), ready).unwrap()
                    } else {
                        DriverError::NotReady
                    }
                    &&& old(self).state() == DriverState::HasReady ==> ready_error(
                        old(self).model(),
                        ready,
                    ) is Some
                    &&& final(self).state() == old(self).state()
                    &&& final(self).model() == old(self).model()
                    &&& final(self).held() == old(self).held()
                    &&& final(self).applied() == old(self).applied()
                },
            },
    {
        let date = now_timestamp();
        self.handle_ready_at(ready, date)
    }
}

} // verus!
