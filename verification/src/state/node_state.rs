//! The state of a node and the steps that keep it durable: loading the newest
//! snapshot that can be read, replaying the log, logging each change, and
//! the cycle that writes a snapshot, empties the log and removes old
//! snapshots.

use vstd::prelude::*;
use crate::log::{RecordModel, now_timestamp, read_records, record_bytes, record_fits, record_queries, records_bytes, replay, lemma_read_records_of_bytes};
use crate::prelude::{Contents, DataStore, Pair, read_snapshot};
use crate::public_api::dataquery::{DataQuery, HandleQuery, QueryModel};
use crate::public_api::protocol::{Request, RequestModel};
use crate::state::SNAPSHOT_KEEP_AMOUNT;
use crate::state::utils::{MalformedLog, names_view, old_snapshots, places_view, read_appended_structs, records_view, snapshot_file_name, snapshot_name, snapshot_order, stale_snapshots, stamp_order, ordered_by_stamp, place_ok};

verus! {

/// A snapshot file: its name and what it holds.
#[derive(Debug, PartialEq, Eq)]
pub struct SnapshotFile {
    pub name: String,
    pub data: Vec<u8>,
}

impl View for SnapshotFile {
    type V = Pair;

    open spec fn view(&self) -> Pair {
        (self.name@, self.data@)
    }
}

/// What loading the snapshots did: the file that was loaded, if one could
/// be read, and the newer files that could not and are to be deleted.
#[derive(Debug, PartialEq, Eq)]
pub struct SnapshotLoad {
    pub loaded: Option<String>,
    pub discarded: Vec<String>,
}

/// The files of a list, as mathematics.
pub open spec fn files_view(files: Seq<SnapshotFile>) -> Seq<Pair> {
    files.map_values(|f: SnapshotFile| f@)
}

/// The names of the files.
pub open spec fn file_names(files: Seq<Pair>) -> Seq<Seq<char>> {
    files.map_values(|f: Pair| f.0)
}

/// Among the files at the places of `order`, the place in `order` of the
/// last one that holds a snapshot, or -1 where none does.
pub open spec fn newest_valid(files: Seq<Pair>, order: Seq<int>) -> int
    decreases order.len(),
{
    if order.len() == 0 {
        -1
    } else if read_snapshot(files[order.last()].1) is Some {
        order.len() - 1
    } else {
        newest_valid(files, order.drop_last())
    }
}

/// The names at the places of `order` above `from`, the last one first.
pub open spec fn names_above(names: Seq<Seq<char>>, order: Seq<int>, from: int) -> Seq<Seq<char>> {
    Seq::new((order.len() - 1 - from) as nat, |j: int| names[order[order.len() - 1 - j]])
}

/// The place in the order of the names of the file that is loaded, or -1
/// where none is.
pub open spec fn loaded_place(files: Seq<Pair>) -> int {
    newest_valid(files, stamp_order(file_names(files)))
}

/// The name of the file that is loaded, if one is.
pub open spec fn loaded_name(files: Seq<Pair>) -> Option<Seq<char>> {
    if loaded_place(files) >= 0 {
        Some(file_names(files)[stamp_order(file_names(files))[loaded_place(files)]])
    } else {
        None
    }
}

/// The names of the files that are newer than the one loaded and hold no
/// snapshot, the newest first.
pub open spec fn discarded_names(files: Seq<Pair>) -> Seq<Seq<char>> {
    names_above(file_names(files), stamp_order(file_names(files)), loaded_place(files))
}

/// What the store holds after the snapshots were loaded into a store that
/// held `before`: what the loaded file holds; nothing, where files were
/// tried and none could be read; and `before` where there was no file to
/// try.
pub open spec fn installed(files: Seq<Pair>, before: Contents) -> Contents {
    if loaded_place(files) >= 0 {
        read_snapshot(files[stamp_order(file_names(files))[loaded_place(files)]].1).unwrap()
    } else if stamp_order(file_names(files)).len() > 0 {
        Contents::empty()
    } else {
        before
    }
}

/// What `load` says is what loading `files` does.
pub open spec fn load_of(load: SnapshotLoad, files: Seq<Pair>) -> bool {
    &&& names_view(load.discarded@) == discarded_names(files)
    &&& match load.loaded {
        Some(name) => loaded_name(files) == Some(name@),
        None => loaded_name(files) is None,
    }
}

/// The place that `newest_valid` gives holds a snapshot, and no place after
/// it does.
pub proof fn lemma_newest_valid(files: Seq<Pair>, order: Seq<int>)
    ensures
        -1 <= newest_valid(files, order) < order.len(),
        newest_valid(files, order) >= 0 ==> read_snapshot(
            files[order[newest_valid(files, order)]].1,
        ) is Some,
        forall|j: int|
            newest_valid(files, order) < j < order.len() ==> read_snapshot(
                files[#[trigger] order[j]].1,
            ) is None,
    decreases order.len(),
{
    if order.len() > 0 && read_snapshot(files[order.last()].1) is None {
        let shorter = order.drop_last();
        lemma_newest_valid(files, shorter);
        let p = newest_valid(files, shorter);
        assert(p >= 0 ==> shorter[p] == order[p]);
        assert forall|j: int| p < j < order.len() implies read_snapshot(
            files[#[trigger] order[j]].1,
        ) is None by {
            if j < shorter.len() {
                assert(shorter[j] == order[j]);
            }
        }
    }
}

/// The state of a node: the store.
pub struct State {
    pub store: DataStore,
}

impl Default for State {
    fn default() -> (state: Self)
        ensures
            state.store@ == Contents::empty(),
    {
        State { store: DataStore::new() }
    }
}

impl State {
    /// Loads the newest snapshot that can be read. The files are tried from
    /// the newest moment in their names to the oldest; one that holds no
    /// snapshot is listed for deletion and the next is tried. Files whose
    /// names start with no moment are left alone. Where files were tried and
    /// none could be read, the store is left empty.
    pub fn install_snapshots(&mut self, files: &Vec<SnapshotFile>) -> (load: SnapshotLoad)
        ensures
            load_of(load, files_view(files@)),
            final(self).store@ == installed(files_view(files@), old(self).store@),
    {
        let ghost all = files_view(files@);
        let ghost all_names = file_names(all);
        let mut names: Vec<String> = Vec::new();
        let mut i: usize = 0;
        while i < files.len()
            invariant
                i <= files.len(),
                all == files_view(files@),
                all_names == file_names(all),
                names_view(names@) == all_names.take(i as int),
            decreases files.len() - i,
        {
            let ghost before = names_view(names@);
            let name = files[i].name.clone();
            names.push(name);
            i += 1;
            proof {
                assert(all_names[i - 1] == files@[i - 1].name@);
                assert(names_view(names@) =~= before.push(all_names[i - 1]));
                assert(all_names.take(i as int) =~= all_names.take(i - 1).push(all_names[i - 1]));
            }
        }
        proof {
            assert(all_names.take(files.len() as int) =~= all_names);
        }
        let order = snapshot_order(&names);
        let ghost places = places_view(order@);
        let mut discarded: Vec<String> = Vec::new();
        let mut k: usize = order.len();
        proof {
            assert(places.take(k as int) =~= places);
            assert(names_view(discarded@) =~= names_above(all_names, places, k - 1));
        }
        while k > 0
            invariant
                k <= order.len(),
                all == files_view(files@),
                all_names == file_names(all),
                names_view(names@) == all_names,
                places == places_view(order@),
                places == stamp_order(all_names),
                ordered_by_stamp(all_names, places, names@.len() as int),
                newest_valid(all, places) == newest_valid(all, places.take(k as int)),
                names_view(discarded@) == names_above(all_names, places, k - 1),
                self.store@ == old(self).store@,
            decreases k,
        {
            let at = order[k - 1];
            proof {
                assert(place_ok(all_names, places, names@.len() as int, k - 1));
                assert(places.take(k as int).last() == at);
                assert(places.take(k as int).drop_last() =~= places.take(k - 1));
                assert(all[at as int].1 == files@[at as int].data@);
            }
            match DataStore::from_bytes(files[at].data.as_slice()) {
                Ok(store) => {
                    proof {
                        lemma_newest_valid(all, places);
                    }
                    self.store = store;
                    let name = names[at].clone();
                    return SnapshotLoad { loaded: Some(name), discarded };
                },
                Err(_) => {
                    let ghost before = names_view(discarded@);
                    let name = names[at].clone();
                    discarded.push(name);
                    k -= 1;
                    proof {
                        assert(names_view(discarded@) =~= before.push(all_names[at as int]));
                        assert(names_view(discarded@) =~= names_above(all_names, places, k - 1));
                    }
                },
            }
        }
        proof {
            assert(places.take(0) =~= Seq::<int>::empty());
            lemma_newest_valid(all, places);
        }
        if order.len() > 0 {
            self.store = DataStore::new();
        }
        SnapshotLoad { loaded: None, discarded }
    }

    /// Replays the log into the store: every record's query is run, in the
    /// order of the records. Where some bytes are no record nothing is run,
    /// and the error says so. Returns the number of records replayed.
    pub fn replay_wal(&mut self, wal: &[u8]) -> (replayed: Result<usize, MalformedLog>)
        ensures
            match replayed {
                Ok(count) => {
                    &&& read_records(wal@) is Some
                    &&& count == read_records(wal@).unwrap().len()
                    &&& final(self).store@ == replay(
                        record_queries(read_records(wal@).unwrap()),
                        old(self).store@,
                    )
                },
                Err(_) => read_records(wal@) is None && final(self).store@ == old(self).store@,
            },
    {
        let data_mutate_logs = match read_appended_structs(wal) {
            Ok(logs) => logs,
            Err(e) => { return Err(e); },
        };
        let ghost queries = record_queries(records_view(data_mutate_logs@));
        let mut i: usize = 0;
        while i < data_mutate_logs.len()
            invariant
                i <= data_mutate_logs.len(),
                queries == record_queries(records_view(data_mutate_logs@)),
                self.store@ == replay(queries.take(i as int), old(self).store@),
            decreases data_mutate_logs.len() - i,
        {
            let item = DataQuery::from(data_mutate_logs[i].query.clone());
            proof {
                assert(queries.take(i + 1).drop_last() =~= queries.take(i as int));
                assert(queries.take(i + 1).last() == item@);
            }
            item.exec(&mut self.store);
            i += 1;
        }
        proof {
            assert(queries.take(data_mutate_logs.len() as int) =~= queries);
        }
        Ok(data_mutate_logs.len())
    }

    /// Starts a node from what is on disk: loads the newest snapshot that
    /// can be read, then replays the log over it. A log that cannot be read
    /// is an error, and nothing of it is replayed.
    pub fn init(&mut self, files: &Vec<SnapshotFile>, wal: &[u8]) -> (started: Result<
        SnapshotLoad,
        MalformedLog,
    >)
        ensures
            match started {
                Ok(load) => {
                    &&& load_of(load, files_view(files@))
                    &&& read_records(wal@) is Some
                    &&& final(self).store@ == replay(
                        record_queries(read_records(wal@).unwrap()),
                        installed(files_view(files@), old(self).store@),
                    )
                },
                Err(_) => {
                    &&& read_records(wal@) is None
                    &&& final(self).store@ == installed(files_view(files@), old(self).store@)
                },
            },
    {
        let load = self.install_snapshots(files);
        match self.replay_wal(wal) {
            Ok(_) => Ok(load),
            Err(e) => Err(e),
        }
    }
}

/// What a query leaves in the log when it is logged at the second `date`:
/// nothing for a read, its record for a put or a delete.
pub open spec fn logged_bytes(query: QueryModel, date: i64) -> Seq<u8> {
    if query.is_mutation() {
        record_bytes(RecordModel { query, date })
    } else {
        Seq::empty()
    }
}

/// What a query did: its answer, and the bytes to append to the log before
/// the answer is sent.
#[derive(Debug, PartialEq, Eq)]
pub struct QueryOutcome {
    pub response: Vec<u8>,
    pub wal: Vec<u8>,
}

impl State {
    /// Runs a query on the store at the second `date`. The outcome holds the
    /// answer and the query's record for the log; a read leaves no record.
    pub fn handle_query_at(&mut self, query: DataQuery, date: i64) -> (outcome: QueryOutcome)
        ensures
            outcome.response@ == query@.answer(old(self).store@),
            final(self).store@ == query@.effect(old(self).store@),
            outcome.wal@ == logged_bytes(query@, date),
    {
        let mut wal: Vec<u8> = Vec::new();
        if let Some(logs) = query.change_logs_at(date) {
            let mut bytes = logs[0].to_bytes();
            wal.append(&mut bytes);
        }
        let response = query.exec(&mut self.store);
        QueryOutcome { response, wal }
    }

    /// Runs a query on the store now. The outcome holds the answer and the
    /// query's record for the log, dated by the clock; a read leaves no
    /// record.
    pub fn handle_query(&mut self, query: DataQuery) -> (outcome: QueryOutcome)
        ensures
            outcome.response@ == query@.answer(old(self).store@),
            final(self).store@ == query@.effect(old(self).store@),
            exists|date: i64| outcome.wal@ == #[trigger] logged_bytes(query@, date),
    {
        let date = now_timestamp();
        self.handle_query_at(query, date)
    }
}

/// The answer to a ping: `Pong`.
pub open spec fn pong_answer() -> Seq<u8> {
    seq![80u8, 111, 110, 103]
}

impl RequestModel {
    /// What the request answers on a store that holds `before`.
    pub open spec fn answer(self, before: Contents) -> Seq<u8> {
        match self {
            RequestModel::DataQuery(q) => q.answer(before),
            RequestModel::Ping => pong_answer(),
        }
    }

    /// What the store holds after the request, where it held `before`.
    pub open spec fn effect(self, before: Contents) -> Contents {
        match self {
            RequestModel::DataQuery(q) => q.effect(before),
            RequestModel::Ping => before,
        }
    }

    /// What the request leaves in the log when it is logged at the second
    /// `date`.
    pub open spec fn logged(self, date: i64) -> Seq<u8> {
        match self {
            RequestModel::DataQuery(q) => logged_bytes(q, date),
            RequestModel::Ping => Seq::empty(),
        }
    }
}

impl State {
    /// Answers a request: a ping with `Pong`, a query by running it on the
    /// store now.
    pub fn handle_incoming(&mut self, incoming: Request) -> (outcome: QueryOutcome)
        ensures
            outcome.response@ == incoming@.answer(old(self).store@),
            final(self).store@ == incoming@.effect(old(self).store@),
            exists|date: i64| outcome.wal@ == #[trigger] incoming@.logged(date),
    {
        match incoming {
            Request::DataQuery(query) => {
                let outcome = self.handle_query(query);
                proof {
                    let date = choose|date: i64| outcome.wal@ == #[trigger] logged_bytes(query@, date);
                    assert(outcome.wal@ == incoming@.logged(date));
                }
                outcome
            },
            Request::Ping => {
                let response = vec![80u8, 111, 110, 103];
                let wal: Vec<u8> = Vec::new();
                proof {
                    assert(response@ =~= pong_answer());
                    assert(wal@ == incoming@.logged(0));
                }
                QueryOutcome { response, wal }
            },
        }
    }
}

/// The records that the queries leave in the log, each logged at the same
/// place of `dates`: one for every put or delete, none for a read.
pub open spec fn logged_records(queries: Seq<QueryModel>, dates: Seq<i64>) -> Seq<RecordModel>
    decreases queries.len(),
{
    if queries.len() == 0 {
        Seq::empty()
    } else {
        let before = logged_records(queries.drop_last(), dates);
        if queries.last().is_mutation() {
            before.push(RecordModel { query: queries.last(), date: dates[queries.len() - 1] })
        } else {
            before
        }
    }
}

/// The bytes that are in the log after the queries were run, each logged at
/// the same place of `dates`.
pub open spec fn logged_all(queries: Seq<QueryModel>, dates: Seq<i64>) -> Seq<u8>
    decreases queries.len(),
{
    if queries.len() == 0 {
        Seq::empty()
    } else {
        logged_all(queries.drop_last(), dates) + logged_bytes(
            queries.last(),
            dates[queries.len() - 1],
        )
    }
}

/// A node that ran some queries and logged them holds after a restart what
/// it held before: the log is read as the records of the queries that
/// changed the store, and their replay over what the store held at first
/// gives what running all the queries gave.
pub proof fn lemma_recovery(queries: Seq<QueryModel>, dates: Seq<i64>, before: Contents)
    requires
        forall|i: int| 0 <= i < queries.len() ==> (#[trigger] queries[i]).fits(),
    ensures
        read_records(logged_all(queries, dates)) == Some(logged_records(queries, dates)),
        replay(record_queries(logged_records(queries, dates)), before) == replay(queries, before),
{
    lemma_logged(queries, dates, before);
    let records = logged_records(queries, dates);
    lemma_read_records_of_bytes(records);
}

/// The log holds the bytes of the records of the queries that changed the
/// store; the records fit; and their queries replay to what the queries
/// gave.
proof fn lemma_logged(queries: Seq<QueryModel>, dates: Seq<i64>, before: Contents)
    requires
        forall|i: int| 0 <= i < queries.len() ==> (#[trigger] queries[i]).fits(),
    ensures
        logged_all(queries, dates) == records_bytes(logged_records(queries, dates)),
        forall|i: int|
            0 <= i < logged_records(queries, dates).len() ==> record_fits(
                #[trigger] logged_records(queries, dates)[i],
            ),
        replay(record_queries(logged_records(queries, dates)), before) == replay(queries, before),
    decreases queries.len(),
{
    if queries.len() > 0 {
        let shorter = queries.drop_last();
        assert forall|i: int| 0 <= i < shorter.len() implies (#[trigger] shorter[i]).fits() by {
            assert(shorter[i] == queries[i]);
        }
        lemma_logged(shorter, dates, before);
        let logged = logged_records(shorter, dates);
        if queries.last().is_mutation() {
            let r = RecordModel { query: queries.last(), date: dates[queries.len() - 1] };
            assert(queries.last() == queries[queries.len() - 1]);
            assert(logged.push(r).drop_last() =~= logged);
            assert(record_queries(logged.push(r)).drop_last() =~= record_queries(logged));
            assert(record_queries(logged.push(r)).last() == queries.last());
            assert forall|i: int| 0 <= i < logged.push(r).len() implies record_fits(
                #[trigger] logged.push(r)[i],
            ) by {
                if i < logged.len() {
                    assert(logged.push(r)[i] == logged[i]);
                }
            }
        } else {
            assert(logged_all(queries, dates) =~= logged_all(shorter, dates));
        }
    } else {
        assert(record_queries(logged_records(queries, dates)) =~= Seq::<QueryModel>::empty());
    }
}

/// Where a snapshot cycle stands.
#[derive(Debug, Clone, Copy, PartialEq, Eq, Structural)]
pub enum SnapshotPhase {
    /// Between two cycles.
    Idle,
    /// The snapshot file is being written.
    Writing,
    /// The snapshot is on disk and the log is being emptied.
    Truncating,
    /// The snapshot files are being listed, to remove the old ones.
    Pruning,
}

/// What happened outside since the last step of the cycle.
#[derive(Debug, PartialEq, Eq)]
pub enum SnapshotEvent {
    /// The time between two snapshots has passed.
    Tick,
    /// The snapshot file was written and flushed, or it was not.
    Written(bool),
    /// The log was emptied, or could not be opened.
    Truncated,
    /// The names of the files in the snapshot directory.
    Listed(Vec<String>),
}

/// What is to be done outside before the next step of the cycle.
#[derive(Debug, PartialEq, Eq)]
pub enum SnapshotAction {
    /// Nothing, until the next tick.
    Wait,
    /// Write the file and flush it, and say whether that went well.
    Write(SnapshotFile),
    /// Empty the log.
    TruncateLog,
    /// List the files of the snapshot directory.
    ListSnapshots,
    /// Delete these files; one that cannot be deleted is passed over.
    Remove(Vec<String>),
}

/// A step of the cycle, at the second `now` of a tick, on a store that holds
/// `held`: from `phase` and `event` to the phase `next` and the `action`.
///
/// A tick between cycles starts one: the store is written under the name of
/// the second, or the cycle is skipped where the second has no name. The
/// log is emptied only once the file is written, and a file that could not
/// be written ends the cycle. After the log the files are listed, and all
/// but the newest are removed. An event that the phase does not wait for
/// changes nothing.
pub open spec fn cycle_step(
    phase: SnapshotPhase,
    event: SnapshotEvent,
    held: Contents,
    now: i64,
    next: SnapshotPhase,
    action: SnapshotAction,
) -> bool {
    match (phase, event) {
        (SnapshotPhase::Idle, SnapshotEvent::Tick) => match snapshot_name(now) {
            Some(name) => {
                &&& next == SnapshotPhase::Writing
                &&& action matches SnapshotAction::Write(file)
                &&& file.name@ == name
                &&& read_snapshot(file.data@) == Some(held)
            },
            None => next == SnapshotPhase::Idle && action is Wait,
        },
        (SnapshotPhase::Writing, SnapshotEvent::Written(done)) => if done {
            next == SnapshotPhase::Truncating && action is TruncateLog
        } else {
            next == SnapshotPhase::Idle && action is Wait
        },
        (SnapshotPhase::Truncating, SnapshotEvent::Truncated) => {
            next == SnapshotPhase::Pruning && action is ListSnapshots
        },
        (SnapshotPhase::Pruning, SnapshotEvent::Listed(names)) => {
            &&& next == SnapshotPhase::Idle
            &&& action matches SnapshotAction::Remove(stale)
            &&& names_view(stale@) == stale_snapshots(
                names_view(names@),
                SNAPSHOT_KEEP_AMOUNT as int,
            )
        },
        _ => next == phase && action is Wait,
    }
}

/// The log is emptied only in answer to a snapshot file that was written.
pub proof fn lemma_truncation_follows_write(
    phase: SnapshotPhase,
    event: SnapshotEvent,
    held: Contents,
    now: i64,
    next: SnapshotPhase,
    action: SnapshotAction,
)
    requires
        cycle_step(phase, event, held, now, next, action),
        action is TruncateLog,
    ensures
        phase == SnapshotPhase::Writing,
        event == SnapshotEvent::Written(true),
{
}

/// A cycle in which the file is written: the store is written first, as
/// bytes that read back as what it holds; the log is emptied after that and
/// then holds no record; the files are listed next; and at last all but the
/// newest are removed, and the cycle is over.
pub proof fn lemma_successful_cycle(
    held: Contents,
    now: i64,
    listed: Vec<String>,
    phases: (SnapshotPhase, SnapshotPhase, SnapshotPhase, SnapshotPhase),
    actions: (SnapshotAction, SnapshotAction, SnapshotAction, SnapshotAction),
)
    requires
        snapshot_name(now) is Some,
        cycle_step(SnapshotPhase::Idle, SnapshotEvent::Tick, held, now, phases.0, actions.0),
        cycle_step(phases.0, SnapshotEvent::Written(true), held, now, phases.1, actions.1),
        cycle_step(phases.1, SnapshotEvent::Truncated, held, now, phases.2, actions.2),
        cycle_step(phases.2, SnapshotEvent::Listed(listed), held, now, phases.3, actions.3),
    ensures
        actions.0 matches SnapshotAction::Write(file) && read_snapshot(file.data@) == Some(held),
        actions.1 is TruncateLog,
        read_records(Seq::<u8>::empty()) == Some(Seq::<RecordModel>::empty()),
        actions.2 is ListSnapshots,
        actions.3 matches SnapshotAction::Remove(stale) && names_view(stale@) == stale_snapshots(
            names_view(listed@),
            SNAPSHOT_KEEP_AMOUNT as int,
        ),
        phases.3 == SnapshotPhase::Idle,
{
}

/// The cycle that writes the snapshots.
#[derive(Debug, PartialEq, Eq)]
pub struct SnapshotCycle {
    pub phase: SnapshotPhase,
}

impl SnapshotCycle {
    /// A cycle that waits for its first tick.
    pub fn new() -> (cycle: Self)
        ensures
            cycle.phase == SnapshotPhase::Idle,
    {
        SnapshotCycle { phase: SnapshotPhase::Idle }
    }

    /// A step of the cycle at the second `now`.
    pub fn step_at(&mut self, event: SnapshotEvent, store: &DataStore, now: i64) -> (action:
        SnapshotAction)
        ensures
            cycle_step(old(self).phase, event, store@, now, final(self).phase, action),
    {
        match (self.phase, event) {
            (SnapshotPhase::Idle, SnapshotEvent::Tick) => match snapshot_file_name(now) {
                Some(name) => {
                    let data = store.to_bytes();
                    self.phase = SnapshotPhase::Writing;
                    SnapshotAction::Write(SnapshotFile { name, data })
                },
                None => SnapshotAction::Wait,
            },
            (SnapshotPhase::Writing, SnapshotEvent::Written(done)) => {
                if done {
                    self.phase = SnapshotPhase::Truncating;
                    SnapshotAction::TruncateLog
                } else {
                    self.phase = SnapshotPhase::Idle;
                    SnapshotAction::Wait
                }
            },
            (SnapshotPhase::Truncating, SnapshotEvent::Truncated) => {
                self.phase = SnapshotPhase::Pruning;
                SnapshotAction::ListSnapshots
            },
            (SnapshotPhase::Pruning, SnapshotEvent::Listed(names)) => {
                self.phase = SnapshotPhase::Idle;
                SnapshotAction::Remove(old_snapshots(&names, SNAPSHOT_KEEP_AMOUNT))
            },
            _ => SnapshotAction::Wait,
        }
    }

    /// A step of the cycle; a tick is dated by the clock.
    pub fn step(&mut self, event: SnapshotEvent, store: &DataStore) -> (action: SnapshotAction)
        ensures
            exists|now: i64| #[trigger]
                cycle_step(old(self).phase, event, store@, now, final(self).phase, action),
    {
        let now = now_timestamp();
        self.step_at(event, store, now)
    }
}

} // verus!
