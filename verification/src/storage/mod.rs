//! The log storage that a Raft node reads and writes: the retained entries
//! of its log, its hard state, and the snapshot that stands for the entries
//! that were compacted away.

pub mod node;

use vstd::prelude::*;
use crate::prelude::{Contents, DataStore, read_snapshot};

verus! {

/// What a node must not forget: its term, its vote and its commit index.
#[derive(Debug, Clone, Copy, PartialEq, Eq, Structural)]
pub struct HardState {
    pub term: u64,
    pub vote: u64,
    pub commit: u64,
}

/// The members of the cluster.
#[derive(Debug, PartialEq, Eq)]
pub struct ConfState {
    pub voters: Vec<u64>,
    pub learners: Vec<u64>,
    pub voters_outgoing: Vec<u64>,
    pub learners_next: Vec<u64>,
    pub auto_leave: bool,
}

/// The members of the cluster, as mathematics.
pub struct ConfModel {
    pub voters: Seq<u64>,
    pub learners: Seq<u64>,
    pub voters_outgoing: Seq<u64>,
    pub learners_next: Seq<u64>,
    pub auto_leave: bool,
}

/// What a snapshot stands for: the index and term of the last entry that
/// it covers, and the members of the cluster at that entry.
#[derive(Debug, PartialEq, Eq)]
pub struct SnapshotMetadata {
    pub index: u64,
    pub term: u64,
    pub conf_state: ConfState,
}

/// What a snapshot stands for, as mathematics.
pub struct MetaModel {
    pub index: u64,
    pub term: u64,
    pub conf: ConfModel,
}

/// A snapshot: the whole store, and what it stands for.
#[derive(Debug, PartialEq, Eq)]
pub struct Snapshot {
    pub metadata: SnapshotMetadata,
    pub data: Vec<u8>,
}

/// An entry of the log.
#[derive(Debug, PartialEq, Eq)]
pub struct LogEntry {
    pub index: u64,
    pub term: u64,
    pub data: Vec<u8>,
}

/// An entry of the log, as mathematics.
pub struct EntryModel {
    pub index: u64,
    pub term: u64,
    pub data: Seq<u8>,
}

/// What a node starts from: its hard state and the members of the cluster.
#[derive(Debug, PartialEq, Eq)]
pub struct RaftState {
    pub hard_state: HardState,
    pub conf_state: ConfState,
}

/// Why the storage could not do what was asked.
#[derive(Debug, Clone, Copy, PartialEq, Eq, Structural)]
pub enum StorageError {
    /// The index or the range lies outside the retained entries.
    Unavailable,
    /// No snapshot covers the index yet; ask again later.
    SnapshotTemporarilyUnavailable,
    /// The snapshot is older than the one that the storage holds.
    SnapshotOutOfDate,
    /// The snapshot does not hold a store, or no entry could follow it.
    InvalidSnapshot,
    /// The entries do not continue the log without a gap.
    LogGap,
    /// The commit index lies behind the last entry.
    CommitBeyondLog,
}

impl View for ConfState {
    type V = ConfModel;

    open spec fn view(&self) -> ConfModel {
        ConfModel {
            voters: self.voters@,
            learners: self.learners@,
            voters_outgoing: self.voters_outgoing@,
            learners_next: self.learners_next@,
            auto_leave: self.auto_leave,
        }
    }
}

impl View for SnapshotMetadata {
    type V = MetaModel;

    open spec fn view(&self) -> MetaModel {
        MetaModel { index: self.index, term: self.term, conf: self.conf_state@ }
    }
}

impl View for LogEntry {
    type V = EntryModel;

    open spec fn view(&self) -> EntryModel {
        EntryModel { index: self.index, term: self.term, data: self.data@ }
    }
}

impl Clone for ConfState {
    fn clone(&self) -> (res: Self)
        ensures
            res@ == self@,
    {
        ConfState {
            voters: self.voters.clone(),
            learners: self.learners.clone(),
            voters_outgoing: self.voters_outgoing.clone(),
            learners_next: self.learners_next.clone(),
            auto_leave: self.auto_leave,
        }
    }
}

impl Clone for SnapshotMetadata {
    fn clone(&self) -> (res: Self)
        ensures
            res@ == self@,
    {
        SnapshotMetadata { index: self.index, term: self.term, conf_state: self.conf_state.clone() }
    }
}

impl Clone for LogEntry {
    fn clone(&self) -> (res: Self)
        ensures
            res@ == self@,
    {
        LogEntry { index: self.index, term: self.term, data: self.data.clone() }
    }
}

impl Clone for Snapshot {
    fn clone(&self) -> (res: Self)
        ensures
            res.metadata@ == self.metadata@,
            res.data@ == self.data@,
    {
        Snapshot { metadata: self.metadata.clone(), data: self.data.clone() }
    }
}

impl ConfState {
    /// A cluster without members.
    pub fn new() -> (conf: Self)
        ensures
            conf@ == ConfModel::empty(),
    {
        ConfState {
            voters: Vec::new(),
            learners: Vec::new(),
            voters_outgoing: Vec::new(),
            learners_next: Vec::new(),
            auto_leave: false,
        }
    }
}

impl ConfModel {
    /// A cluster without members.
    pub open spec fn empty() -> ConfModel {
        ConfModel {
            voters: Seq::empty(),
            learners: Seq::empty(),
            voters_outgoing: Seq::empty(),
            learners_next: Seq::empty(),
            auto_leave: false,
        }
    }
}

/// The entries of a list, as mathematics.
pub open spec fn entries_view(entries: Seq<LogEntry>) -> Seq<EntryModel> {
    entries.map_values(|e: LogEntry| e@)
}

/// The storage, as mathematics.
pub struct CoreModel {
    pub hard_state: HardState,
    pub conf: ConfModel,
    pub log: Seq<EntryModel>,
    pub snapshot: MetaModel,
}

/// The entries follow one another without a gap, the first one at `first`.
pub open spec fn contiguous_from(entries: Seq<EntryModel>, first: int) -> bool {
    forall|i: int| 0 <= i < entries.len() ==> (#[trigger] entries[i]).index == first + i
}

impl CoreModel {
    /// A storage that has seen nothing.
    pub open spec fn empty() -> CoreModel {
        CoreModel {
            hard_state: HardState { term: 0, vote: 0, commit: 0 },
            conf: ConfModel::empty(),
            log: Seq::empty(),
            snapshot: MetaModel { index: 0, term: 0, conf: ConfModel::empty() },
        }
    }

    /// The index of the first retained entry; one after the snapshot's.
    pub open spec fn first_index(self) -> int {
        self.snapshot.index + 1
    }

    /// The index of the last retained entry; the snapshot's where none is
    /// retained.
    pub open spec fn last_index(self) -> int {
        self.snapshot.index + self.log.len()
    }

    /// The retained entries follow the snapshot and one another without a
    /// gap, an entry can follow the snapshot, and nothing is committed that
    /// the log does not reach.
    pub open spec fn wf(self) -> bool {
        &&& contiguous_from(self.log, self.first_index())
        &&& self.snapshot.index < u64::MAX
        &&& self.last_index() <= u64::MAX
        &&& self.hard_state.commit <= self.last_index()
    }

    /// The term of the entry at `index`, if it is retained.
    pub open spec fn term(self, index: u64) -> Option<u64> {
        if self.first_index() <= index <= self.last_index() {
            Some(self.log[index - self.first_index()].term)
        } else {
            None
        }
    }

    /// The entries continue the log: the first follows the last retained
    /// entry, and each one follows the one before it.
    pub open spec fn continued_by(self, entries: Seq<EntryModel>) -> bool {
        contiguous_from(entries, self.last_index() + 1)
    }

    /// The storage after `entries` were appended.
    pub open spec fn appended(self, entries: Seq<EntryModel>) -> CoreModel {
        CoreModel { log: self.log + entries, ..self }
    }

    /// Whether a snapshot that stands for `meta` can take the place of the
    /// one held: it is no older, and an entry can follow it.
    pub open spec fn admits(self, meta: MetaModel) -> bool {
        self.snapshot.index <= meta.index < u64::MAX
    }

    /// The number of retained entries that a snapshot at `index` covers.
    pub open spec fn covered(self, index: u64) -> int {
        if index >= self.last_index() {
            self.log.len() as int
        } else {
            index - self.snapshot.index
        }
    }

    /// The storage after the snapshot was applied: it holds `meta`, and the
    /// entries that the snapshot covers are gone from the front of the log.
    pub open spec fn compacted(self, meta: MetaModel) -> CoreModel {
        CoreModel { log: self.log.skip(self.covered(meta.index)), snapshot: meta, ..self }
    }

    /// Whether `[low, high)` is a range of retained entries.
    pub open spec fn retains(self, low: u64, high: u64) -> bool {
        self.first_index() <= low <= high <= self.last_index() + 1
    }

    /// The entries of `[low, high)`, and of them the first `max` where a
    /// limit is given.
    pub open spec fn slice(self, low: u64, high: u64, max: Option<u64>) -> Seq<EntryModel> {
        let all = self.log.subrange(low - self.first_index(), high - self.first_index());
        match max {
            Some(m) => if m < all.len() {
                all.take(m as int)
            } else {
                all
            },
            None => all,
        }
    }
}

/// What stands in the way of applying a snapshot: it is older than the one
/// held, no entry could follow it, or its data is no store. Nothing stands
/// in the way otherwise.
pub open spec fn apply_error(core: CoreModel, meta: MetaModel, data: Seq<u8>) -> Option<
    StorageError,
> {
    if meta.index < core.snapshot.index {
        Some(StorageError::SnapshotOutOfDate)
    } else if meta.index == u64::MAX || read_snapshot(data) is None {
        Some(StorageError::InvalidSnapshot)
    } else {
        None
    }
}

/// A snapshot that is applied keeps the storage well-formed, never moves the
/// snapshot's index or the last index back, and keeps every entry behind
/// the snapshot.
pub proof fn lemma_compacted(core: CoreModel, meta: MetaModel)
    requires
        core.wf(),
        core.admits(meta),
    ensures
        core.compacted(meta).wf(),
        core.compacted(meta).snapshot.index >= core.snapshot.index,
        core.compacted(meta).last_index() >= core.last_index(),
        core.compacted(meta).first_index() == meta.index + 1,
        forall|index: u64|
            meta.index < index <= core.last_index() ==> core.compacted(meta).term(index)
                == #[trigger] core.term(index),
{
    let after = core.compacted(meta);
    let gone = core.covered(meta.index);
    assert forall|i: int| 0 <= i < after.log.len() implies (#[trigger] after.log[i]).index
        == after.first_index() + i by {
        assert(after.log[i] == core.log[i + gone]);
    }
}

/// Entries that continue the log keep the storage well-formed when they are
/// appended, and change no entry that was there.
pub proof fn lemma_appended(core: CoreModel, entries: Seq<EntryModel>)
    requires
        core.wf(),
        core.continued_by(entries),
    ensures
        core.appended(entries).wf(),
        core.appended(entries).first_index() == core.first_index(),
        core.appended(entries).last_index() == core.last_index() + entries.len(),
        forall|index: u64|
            core.first_index() <= index <= core.last_index() ==> core.appended(entries).term(index)
                == #[trigger] core.term(index),
{
    let after = core.appended(entries);
    assert forall|i: int| 0 <= i < after.log.len() implies (#[trigger] after.log[i]).index
        == after.first_index() + i by {
        if i >= core.log.len() {
            assert(after.log[i] == entries[i - core.log.len()]);
        } else {
            assert(after.log[i] == core.log[i]);
        }
    }
    if entries.len() > 0 {
        assert(entries[entries.len() - 1].index == core.last_index() + entries.len());
    }
}

/// The storage after each of the snapshots was offered in turn: one that
/// the storage admits is applied, any other is passed over.
pub open spec fn after_snapshots(core: CoreModel, metas: Seq<MetaModel>) -> CoreModel
    decreases metas.len(),
{
    if metas.len() == 0 {
        core
    } else {
        let before = after_snapshots(core, metas.drop_last());
        if before.admits(metas.last()) {
            before.compacted(metas.last())
        } else {
            before
        }
    }
}

/// Whatever snapshots are offered, the index of the snapshot held never
/// goes back, and the storage stays well-formed.
pub proof fn lemma_snapshots_monotonic(core: CoreModel, metas: Seq<MetaModel>, upto: int)
    requires
        core.wf(),
        0 <= upto <= metas.len(),
    ensures
        after_snapshots(core, metas).wf(),
        after_snapshots(core, metas.take(upto)).snapshot.index <= after_snapshots(
            core,
            metas,
        ).snapshot.index,
    decreases metas.len(),
{
    if metas.len() == 0 {
        assert(metas.take(upto) =~= metas);
    } else {
        let shorter = metas.drop_last();
        let before = after_snapshots(core, shorter);
        if upto == metas.len() {
            assert(metas.take(upto) =~= metas);
            lemma_snapshots_monotonic(core, shorter, 0);
        } else {
            lemma_snapshots_monotonic(core, shorter, upto);
            assert(shorter.take(upto) =~= metas.take(upto));
        }
        if before.admits(metas.last()) {
            lemma_compacted(before, metas.last());
        }
    }
}

/// The guarded core of the storage: the hard state, the retained entries
/// and what the snapshot stands for.
pub struct MyStorageCore {
    raft_state: RaftState,
    entries: Vec<LogEntry>,
    next_snapshot_metadata: SnapshotMetadata,
}

impl View for MyStorageCore {
    type V = CoreModel;

    closed spec fn view(&self) -> CoreModel {
        CoreModel {
            hard_state: self.raft_state.hard_state,
            conf: self.raft_state.conf_state@,
            log: entries_view(self.entries@),
            snapshot: self.next_snapshot_metadata@,
        }
    }
}

impl Default for MyStorageCore {
    fn default() -> (core: Self)
        ensures
            core@ == CoreModel::empty(),
            core@.wf(),
    {
        let core = MyStorageCore {
            raft_state: RaftState {
                hard_state: HardState { term: 0, vote: 0, commit: 0 },
                conf_state: ConfState::new(),
            },
            entries: Vec::new(),
            next_snapshot_metadata: SnapshotMetadata {
                index: 0,
                term: 0,
                conf_state: ConfState::new(),
            },
        };
        assert(core@.log =~= Seq::<EntryModel>::empty());
        core
    }
}

impl MyStorageCore {
    /// Whether the entries follow the index `last` and one another without
    /// a gap.
    pub fn follow(last: u64, entries: &[LogEntry]) -> (ok: bool)
        ensures
            ok == contiguous_from(entries_view(entries@), last + 1),
    {
        let ghost added = entries_view(entries@);
        let mut i: usize = 0;
        while i < entries.len()
            invariant
                i <= entries.len(),
                added == entries_view(entries@),
                forall|j: int| 0 <= j < i ==> (#[trigger] added[j]).index == last + 1 + j,
            decreases entries.len() - i,
        {
            let index = entries[i].index;
            if index <= last || index - last - 1 != i as u64 {
                proof {
                    assert(added[i as int].index != last + 1 + i);
                }
                return false;
            }
            i += 1;
        }
        true
    }

    /// Appends the entries to the log. They must continue it: the first one
    /// follows the last retained entry, and each one the one before it.
    /// Entries that leave a gap or go back are rejected, and the log stays
    /// as it was.
    pub fn append(&mut self, entries: &[LogEntry]) -> (res: Result<(), StorageError>)
        requires
            old(self)@.wf(),
        ensures
            final(self)@.wf(),
            match res {
                Ok(_) => {
                    &&& old(self)@.continued_by(entries_view(entries@))
                    &&& final(self)@ == old(self)@.appended(entries_view(entries@))
                },
                Err(e) => {
                    &&& e == StorageError::LogGap
                    &&& !old(self)@.continued_by(entries_view(entries@))
                    &&& final(self)@ == old(self)@
                },
            },
    {
        let ghost added = entries_view(entries@);
        let last = self.last_index();
        if !MyStorageCore::follow(last, entries) {
            return Err(StorageError::LogGap);
        }
        let mut k: usize = 0;
        while k < entries.len()
            invariant
                k <= entries.len(),
                added == entries_view(entries@),
                self@ == old(self)@.appended(added.take(k as int)),
            decreases entries.len() - k,
        {
            let ghost before = self@.log;
            let entry = entries[k].clone();
            self.entries.push(entry);
            k += 1;
            proof {
                assert(self@.log =~= before.push(added[k - 1]));
                assert(added.take(k as int) =~= added.take(k - 1).push(added[k - 1]));
                assert(self@.log =~= old(self)@.log + added.take(k as int));
            }
        }
        proof {
            assert(added.take(entries.len() as int) =~= added);
            lemma_appended(old(self)@, added);
        }
        Ok(())
    }

    /// Puts `hardstate` in the place of the hard state held. One that
    /// commits more than the log holds is rejected.
    pub fn set_hardstate(&mut self, hardstate: HardState) -> (res: Result<(), StorageError>)
        requires
            old(self)@.wf(),
        ensures
            final(self)@.wf(),
            match res {
                Ok(_) => {
                    &&& hardstate.commit <= old(self)@.last_index()
                    &&& final(self)@ == (CoreModel { hard_state: hardstate, ..old(self)@ })
                },
                Err(e) => {
                    &&& e == StorageError::CommitBeyondLog
                    &&& hardstate.commit > old(self)@.last_index()
                    &&& final(self)@ == old(self)@
                },
            },
    {
        if hardstate.commit > self.last_index() {
            return Err(StorageError::CommitBeyondLog);
        }
        self.raft_state.hard_state = hardstate;
        Ok(())
    }

    /// The index of the first retained entry; one after the snapshot's
    /// where none is retained.
    pub fn first_index(&self) -> (index: u64)
        requires
            self@.wf(),
        ensures
            index == self@.first_index(),
    {
        match self.entries.first() {
            Some(e) => {
                assert(e@ == self@.log[0]);
                e.index
            },
            None => self.next_snapshot_metadata.index + 1,
        }
    }

    /// The index of the last retained entry; the snapshot's where none is
    /// retained.
    pub fn last_index(&self) -> (index: u64)
        requires
            self@.wf(),
        ensures
            index == self@.last_index(),
    {
        match self.entries.last() {
            Some(e) => {
                assert(e@ == self@.log[self@.log.len() - 1]);
                e.index
            },
            None => self.next_snapshot_metadata.index,
        }
    }

    /// The hard state held.
    pub fn hard_state(&self) -> (hs: HardState)
        ensures
            hs == self@.hard_state,
    {
        self.raft_state.hard_state
    }

    /// What the snapshot held stands for.
    pub fn snapshot_metadata(&self) -> (meta: SnapshotMetadata)
        ensures
            meta@ == self@.snapshot,
    {
        self.next_snapshot_metadata.clone()
    }

    /// The term of the entry at `idx`, or `Unavailable` where that entry is
    /// not retained.
    pub fn term(&self, idx: u64) -> (res: Result<u64, StorageError>)
        requires
            self@.wf(),
        ensures
            match res {
                Ok(term) => self@.term(idx) == Some(term),
                Err(e) => e == StorageError::Unavailable && self@.term(idx) is None,
            },
    {
        let first = self.first_index();
        if idx < first || idx > self.last_index() {
            return Err(StorageError::Unavailable);
        }
        assert(self@.log.len() == self.entries.len());
        assert(idx - first < self.entries.len());
        let at = (idx - first) as usize;
        assert(self.entries@[at as int]@ == self@.log[at as int]);
        Ok(self.entries[at].term)
    }

    /// The entries of `[low, high)`, and of them only the first `max_size`
    /// where a limit is given; `Unavailable` where the range is not one of
    /// retained entries.
    pub fn entries(&self, low: u64, high: u64, max_size: Option<u64>) -> (res: Result<
        Vec<LogEntry>,
        StorageError,
    >)
        requires
            self@.wf(),
        ensures
            match res {
                Ok(slice) => {
                    &&& self@.retains(low, high)
                    &&& entries_view(slice@) == self@.slice(low, high, max_size)
                },
                Err(e) => e == StorageError::Unavailable && !self@.retains(low, high),
            },
    {
        let first = self.first_index();
        let last = self.last_index();
        if low < first || low > high || high - first > self.entries.len() as u64 {
            return Err(StorageError::Unavailable);
        }
        assert(self@.log.len() == self.entries.len());
        let from = (low - first) as usize;
        let mut until = (high - first) as usize;
        if let Some(max) = max_size {
            if max < (until - from) as u64 {
                until = from + max as usize;
            }
        }
        let ghost wanted = self@.slice(low, high, max_size);
        let mut slice: Vec<LogEntry> = Vec::new();
        let mut i: usize = from;
        proof {
            assert(wanted =~= self@.log.subrange(from as int, until as int));
        }
        while i < until
            invariant
                from <= i <= until <= self.entries.len(),
                entries_view(slice@) == self@.log.subrange(from as int, i as int),
            decreases until - i,
        {
            let ghost before = entries_view(slice@);
            let entry = self.entries[i].clone();
            slice.push(entry);
            i += 1;
            proof {
                assert(self.entries@[i - 1]@ == self@.log[i - 1]);
                assert(entries_view(slice@) =~= before.push(self@.log[i - 1]));
                assert(entries_view(slice@) =~= self@.log.subrange(from as int, i as int));
            }
        }
        Ok(slice)
    }

    /// Puts the snapshot's metadata in the place of the one held and drops
    /// the entries that the snapshot covers.
    fn install(&mut self, metadata: SnapshotMetadata)
        requires
            old(self)@.wf(),
            old(self)@.admits(metadata@),
        ensures
            final(self)@ == old(self)@.compacted(metadata@),
            final(self)@.wf(),
    {
        let last = self.last_index();
        assert(self@.log.len() == self.entries.len());
        let gone: usize = if metadata.index >= last {
            self.entries.len()
        } else {
            (metadata.index - self.next_snapshot_metadata.index) as usize
        };
        let mut kept: Vec<LogEntry> = Vec::new();
        let mut i: usize = gone;
        while i < self.entries.len()
            invariant
                gone <= i <= self.entries.len(),
                entries_view(kept@) == self@.log.subrange(gone as int, i as int),
            decreases self.entries.len() - i,
        {
            let ghost before = entries_view(kept@);
            let entry = self.entries[i].clone();
            kept.push(entry);
            i += 1;
            proof {
                assert(self.entries@[i - 1]@ == self@.log[i - 1]);
                assert(entries_view(kept@) =~= before.push(self@.log[i - 1]));
                assert(entries_view(kept@) =~= self@.log.subrange(gone as int, i as int));
            }
        }
        proof {
            assert(self@.log.subrange(gone as int, self@.log.len() as int) =~= self@.log.skip(
                gone as int,
            ));
            lemma_compacted(self@, metadata@);
        }
        self.entries = kept;
        self.next_snapshot_metadata = metadata;
    }
}

/// The storage of a node: the guarded core, and the store that the
/// snapshots are taken of. Reading borrows it shared, and changing it
/// borrows it alone.
pub struct DatabaseStorage {
    core: MyStorageCore,
    store: DataStore,
}

impl Default for DatabaseStorage {
    fn default() -> (storage: Self)
        ensures
            storage.model() == CoreModel::empty(),
            storage.held() == Contents::empty(),
            storage.wf(),
    {
        DatabaseStorage { core: MyStorageCore::default(), store: DataStore::new() }
    }
}

impl DatabaseStorage {
    /// The core, as mathematics.
    pub closed spec fn model(&self) -> CoreModel {
        self.core@
    }

    /// What the store holds.
    pub closed spec fn held(&self) -> Contents {
        self.store@
    }

    /// The core is well-formed.
    pub open spec fn wf(&self) -> bool {
        self.model().wf()
    }

    /// A storage over `store` that has seen no entry and no snapshot.
    pub fn new(store: DataStore) -> (storage: Self)
        ensures
            storage.model() == CoreModel::empty(),
            storage.held() == store@,
            storage.wf(),
    {
        DatabaseStorage { core: MyStorageCore::default(), store }
    }

    /// Applies a snapshot: its metadata takes the place of the one held,
    /// the entries that it covers leave the log, and the store holds what
    /// the snapshot's data holds. A snapshot that is older than the one
    /// held, that no entry could follow or whose data is no store is
    /// rejected, and nothing changes.
    pub fn apply_snapshot(&mut self, snapshot: Snapshot) -> (res: Result<(), StorageError>)
        requires
            old(self).wf(),
        ensures
            final(self).wf(),
            final(self).model().snapshot.index >= old(self).model().snapshot.index,
            match res {
                Ok(_) => {
                    &&& apply_error(old(self).model(), snapshot.metadata@, snapshot.data@) is None
                    &&& final(self).model() == old(self).model().compacted(snapshot.metadata@)
                    &&& Some(final(self).held()) == read_snapshot(snapshot.data@)
                },
                Err(e) => {
                    &&& apply_error(old(self).model(), snapshot.metadata@, snapshot.data@) == Some(e)
                    &&& final(self).model() == old(self).model()
                    &&& final(self).held() == old(self).held()
                },
            },
    {
        let store = match self.check_snapshot(&snapshot) {
            Ok(store) => store,
            Err(e) => { return Err(e); },
        };
        self.install_snapshot(snapshot.metadata, store);
        Ok(())
    }

    /// The store that a snapshot holds, where the snapshot can be applied,
    /// or what stands in the way of applying it.
    pub fn check_snapshot(&self, snapshot: &Snapshot) -> (res: Result<DataStore, StorageError>)
        ensures
            match res {
                Ok(store) => {
                    &&& apply_error(self.model(), snapshot.metadata@, snapshot.data@) is None
                    &&& Some(store@) == read_snapshot(snapshot.data@)
                },
                Err(e) => apply_error(self.model(), snapshot.metadata@, snapshot.data@) == Some(e),
            },
    {
        if snapshot.metadata.index < self.core.next_snapshot_metadata.index {
            return Err(StorageError::SnapshotOutOfDate);
        }
        if snapshot.metadata.index == u64::MAX {
            return Err(StorageError::InvalidSnapshot);
        }
        match DataStore::from_bytes(snapshot.data.as_slice()) {
            Ok(store) => Ok(store),
            Err(_) => Err(StorageError::InvalidSnapshot),
        }
    }

    /// Puts a snapshot that was read already in the place of the one held:
    /// its metadata, and the store that its data holds.
    pub(crate) fn install_snapshot(&mut self, metadata: SnapshotMetadata, store: DataStore)
        requires
            old(self).wf(),
            old(self).model().admits(metadata@),
        ensures
            final(self).wf(),
            final(self).model() == old(self).model().compacted(metadata@),
            final(self).held() == store@,
    {
        self.core.install(metadata);
        self.store = store;
    }

    /// The core, to change it.
    pub fn wl(&mut self) -> (core: &mut MyStorageCore)
        ensures
            core@ == old(self).model(),
            final(self).model() == final(core)@,
            final(self).held() == old(self).held(),
    {
        &mut self.core
    }

    /// The core, to read it.
    pub fn rl(&self) -> (core: &MyStorageCore)
        ensures
            core@ == self.model(),
    {
        &self.core
    }

    /// The store.
    pub fn store(&self) -> (store: &DataStore)
        ensures
            store@ == self.held(),
    {
        &self.store
    }

    /// The store, to change it.
    pub fn store_mut(&mut self) -> (store: &mut DataStore)
        ensures
            store@ == old(self).held(),
            final(self).held() == final(store)@,
            final(self).model() == old(self).model(),
    {
        &mut self.store
    }

    /// The index of the last retained entry, if an entry is retained.
    pub fn last_entry_index(&self) -> (index: Option<u64>)
        requires
            self.wf(),
        ensures
            match index {
                Some(i) => self.model().log.len() > 0 && i == self.model().last_index(),
                None => self.model().log.len() == 0,
            },
    {
        if self.core.first_index() > self.core.last_index() {
            None
        } else {
            Some(self.core.last_index())
        }
    }

    /// The hard state and the members of the cluster to start from.
    pub fn initial_state(&self) -> (res: Result<RaftState, StorageError>)
        ensures
            res is Ok,
            res.unwrap().hard_state == self.model().hard_state,
            res.unwrap().conf_state@ == self.model().conf,
    {
        Ok(
            RaftState {
                hard_state: self.core.raft_state.hard_state,
                conf_state: self.core.raft_state.conf_state.clone(),
            },
        )
    }

    /// The term of the entry at `idx`, or `Unavailable` where that entry is
    /// not retained: it was compacted away, or was never appended.
    pub fn term(&self, idx: u64) -> (res: Result<u64, StorageError>)
        requires
            self.wf(),
        ensures
            match res {
                Ok(term) => self.model().term(idx) == Some(term),
                Err(e) => e == StorageError::Unavailable && self.model().term(idx) is None,
            },
    {
        self.core.term(idx)
    }

    /// The entries of `[low, high)`, and of them only the first `max_size`
    /// where a limit is given; `Unavailable` where the range is not one of
    /// retained entries.
    pub fn entries(&self, low: u64, high: u64, max_size: Option<u64>) -> (res: Result<
        Vec<LogEntry>,
        StorageError,
    >)
        requires
            self.wf(),
        ensures
            match res {
                Ok(slice) => {
                    &&& self.model().retains(low, high)
                    &&& entries_view(slice@) == self.model().slice(low, high, max_size)
                },
                Err(e) => e == StorageError::Unavailable && !self.model().retains(low, high),
            },
    {
        self.core.entries(low, high, max_size)
    }

    /// A snapshot that covers `request_index`: the metadata held and the
    /// store as it is now. Where the snapshot held does not reach the index
    /// there is none yet, and the caller is to ask again.
    pub fn snapshot(&self, request_index: u64, _to_peer_id: u64) -> (res: Result<
        Snapshot,
        StorageError,
    >)
        ensures
            match res {
                Ok(snapshot) => {
                    &&& self.model().snapshot.index >= request_index
                    &&& snapshot.metadata@ == self.model().snapshot
                    &&& read_snapshot(snapshot.data@) == Some(self.held())
                },
                Err(e) => {
                    &&& e == StorageError::SnapshotTemporarilyUnavailable
                    &&& self.model().snapshot.index < request_index
                },
            },
    {
        let metadata = self.core.snapshot_metadata();
        if metadata.index < request_index {
            return Err(StorageError::SnapshotTemporarilyUnavailable);
        }
        Ok(Snapshot { metadata, data: self.store.to_bytes() })
    }

    /// The index of the last retained entry; the snapshot's where none is
    /// retained.
    pub fn last_index(&self) -> (res: Result<u64, StorageError>)
        requires
            self.wf(),
        ensures
            res is Ok,
            res.unwrap() == self.model().last_index(),
    {
        Ok(self.core.last_index())
    }

    /// The index of the first retained entry; one after the snapshot's
    /// where none is retained.
    pub fn first_index(&self) -> (res: Result<u64, StorageError>)
        requires
            self.wf(),
        ensures
            res is Ok,
            res.unwrap() == self.model().first_index(),
    {
        Ok(self.core.first_index())
    }
}

} // verus!
