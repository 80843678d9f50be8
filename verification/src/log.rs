//! The records of the write-ahead log: one for every query that changed the
//! store, with the second at which it was logged.
//!
//! The second is read from the clock through `chrono`, in a function that
//! is taken on trust and of whose result nothing is known.

use vstd::prelude::*;
use vstd::bytes::*;
use vstd::utf8::*;
use vstd::slice::slice_subrange;
use vstd::std_specs::convert::FromSpecImpl;
use chrono::Utc;
use crate::encoding::{get_blob, get_i64, get_text, get_u32, i64_bytes, put_blob, put_i64, put_text, put_u32, read_blob, read_i64, read_text, read_u32, lemma_read_i64_of_bytes, lemma_read_text_of_bytes, lemma_read_u32_of_bytes};
use crate::prelude::{Contents, pair_width, read_pair, lemma_read_pair_of_bytes};
use crate::public_api::dataquery::{DataQuery, DeleteQuery, PutQuery, QueryModel};

verus! {

/// A record of the log, as mathematics: a put or a delete, and the second at
/// which it was logged.
pub struct RecordModel {
    pub query: QueryModel,
    pub date: i64,
}

/// The number that stands for the kind of a record's query: 0 for a put, 1
/// for a delete.
pub open spec fn record_tag(q: QueryModel) -> u32 {
    if q is Put {
        0
    } else {
        1
    }
}

/// The bytes of a change: the number of its kind, the query's key and, for
/// a put, its value.
pub open spec fn change_bytes(q: QueryModel) -> Seq<u8> {
    spec_u32_to_le_bytes(record_tag(q)) + q.body()
}

/// The bytes of a record: the change, then the date.
pub open spec fn record_bytes(r: RecordModel) -> Seq<u8> {
    change_bytes(r.query) + i64_bytes(r.date)
}

/// The change at the start of `bytes` and the number of bytes that it takes.
/// There is none where the kind is neither 0 nor 1, the bytes end early or
/// the key is not UTF-8.
pub open spec fn read_change(bytes: Seq<u8>) -> Option<(QueryModel, int)> {
    match read_u32(bytes) {
        Some(tag) => if tag == 0 {
            match read_pair(bytes.skip(4)) {
                Some(p) => Some(
                    (QueryModel::Put(p.0, p.1), 4 + pair_width(bytes.skip(4)).unwrap()),
                ),
                None => None,
            }
        } else if tag == 1 {
            match read_text(bytes.skip(4)) {
                Some(key) => Some((QueryModel::Delete(key), 12 + encode_utf8(key).len() as int)),
                None => None,
            }
        } else {
            None
        },
        None => None,
    }
}

/// The record at the start of `bytes` and the number of bytes that it takes:
/// a change, then a date.
pub open spec fn read_record(bytes: Seq<u8>) -> Option<(RecordModel, int)> {
    match read_change(bytes) {
        Some((query, width)) => match read_i64(bytes.skip(width)) {
            Some(date) => Some((RecordModel { query, date }, width + 8)),
            None => None,
        },
        None => None,
    }
}

/// The records that `bytes` hold, one after the other and nothing else.
/// There are none where some bytes are no record.
pub open spec fn read_records(bytes: Seq<u8>) -> Option<Seq<RecordModel>>
    decreases bytes.len(),
{
    if bytes.len() == 0 {
        Some(Seq::empty())
    } else {
        match read_record(bytes) {
            Some((r, width)) => if 0 < width <= bytes.len() {
                match read_records(bytes.skip(width)) {
                    Some(rest) => Some(seq![r] + rest),
                    None => None,
                }
            } else {
                None
            },
            None => None,
        }
    }
}

/// The bytes of the records, one after the other.
pub open spec fn records_bytes(records: Seq<RecordModel>) -> Seq<u8>
    decreases records.len(),
{
    if records.len() == 0 {
        Seq::empty()
    } else {
        records_bytes(records.drop_last()) + record_bytes(records.last())
    }
}

/// The record is of a put or a delete, and its lengths fit the `u64` that is
/// written before them.
pub open spec fn record_fits(r: RecordModel) -> bool {
    r.query.is_mutation() && r.query.fits()
}

/// The queries of the records, in their order.
pub open spec fn record_queries(records: Seq<RecordModel>) -> Seq<QueryModel> {
    records.map_values(|r: RecordModel| r.query)
}

/// What the store holds after the queries, run in their order on a store
/// that held `before`.
pub open spec fn replay(queries: Seq<QueryModel>, before: Contents) -> Contents
    decreases queries.len(),
{
    if queries.len() == 0 {
        before
    } else {
        queries.last().effect(replay(queries.drop_last(), before))
    }
}

/// A change that is written and read again is itself, whatever follows it.
pub proof fn lemma_read_change_of_bytes(q: QueryModel, rest: Seq<u8>)
    requires
        q.is_mutation(),
        q.fits(),
    ensures
        read_change(change_bytes(q) + rest) == Some((q, change_bytes(q).len() as int)),
        change_bytes(q).len() >= 12,
        (change_bytes(q) + rest).skip(change_bytes(q).len() as int) == rest,
{
    let all = change_bytes(q) + rest;
    let body = q.body();
    lemma_read_u32_of_bytes(record_tag(q), body + rest);
    assert(all =~= spec_u32_to_le_bytes(record_tag(q)) + (body + rest));
    assert(all.skip(4) =~= body + rest);
    assert(all.skip(change_bytes(q).len() as int) =~= rest);
    match q {
        QueryModel::Put(key, value) => {
            lemma_read_pair_of_bytes((key, value), rest);
        },
        QueryModel::Delete(key) => {
            lemma_read_text_of_bytes(key, rest);
        },
        QueryModel::Read(_) => {},
    }
}

/// A record that is written and read again is itself, whatever follows it.
pub proof fn lemma_read_record_of_bytes(r: RecordModel, rest: Seq<u8>)
    requires
        record_fits(r),
    ensures
        read_record(record_bytes(r) + rest) == Some((r, record_bytes(r).len() as int)),
        record_bytes(r).len() >= 20,
{
    let tail = i64_bytes(r.date) + rest;
    lemma_read_change_of_bytes(r.query, tail);
    lemma_read_i64_of_bytes(r.date, rest);
    assert(record_bytes(r) + rest =~= change_bytes(r.query) + tail);
}

/// The bytes of a list are those of its first record, then those of the
/// others.
pub proof fn lemma_records_bytes_front(r: RecordModel, tail: Seq<RecordModel>)
    ensures
        records_bytes(seq![r] + tail) == record_bytes(r) + records_bytes(tail),
    decreases tail.len(),
{
    let all = seq![r] + tail;
    if tail.len() == 0 {
        assert(all.drop_last() =~= Seq::<RecordModel>::empty());
        assert(all.last() == r);
        assert(records_bytes(all.drop_last()) =~= Seq::<u8>::empty());
        assert(records_bytes(all) =~= record_bytes(r) + records_bytes(tail));
    } else {
        lemma_records_bytes_front(r, tail.drop_last());
        assert(all.drop_last() =~= seq![r] + tail.drop_last());
        assert(all.last() == tail.last());
        assert(records_bytes(all) == records_bytes(all.drop_last()) + record_bytes(all.last()));
        assert(records_bytes(tail) == records_bytes(tail.drop_last()) + record_bytes(
            tail.last(),
        ));
        assert(records_bytes(all) =~= record_bytes(r) + records_bytes(tail));
    }
}

/// A log that was written record by record is read as those records.
pub proof fn lemma_read_records_of_bytes(records: Seq<RecordModel>)
    requires
        forall|i: int| 0 <= i < records.len() ==> record_fits(#[trigger] records[i]),
    ensures
        read_records(records_bytes(records)) == Some(records),
    decreases records.len(),
{
    if records.len() == 0 {
        assert(records_bytes(records) =~= Seq::<u8>::empty());
    } else {
        let r = records[0];
        let tail = records.skip(1);
        assert(records =~= seq![r] + tail);
        lemma_records_bytes_front(r, tail);
        lemma_read_record_of_bytes(r, records_bytes(tail));
        assert forall|i: int| 0 <= i < tail.len() implies record_fits(#[trigger] tail[i]) by {
            assert(tail[i] == records[i + 1]);
        }
        lemma_read_records_of_bytes(tail);
        let all = records_bytes(records);
        assert(all.skip(record_bytes(r).len() as int) =~= records_bytes(tail));
    }
}

/// Whether some query of the list puts or deletes `key`.
pub open spec fn touches(queries: Seq<QueryModel>, key: Seq<char>) -> bool
    decreases queries.len(),
{
    if queries.len() == 0 {
        false
    } else {
        touches(queries.drop_last(), key) || writes(queries.last(), key)
    }
}

/// Whether the query puts or deletes `key`.
pub open spec fn writes(q: QueryModel, key: Seq<char>) -> bool {
    match q {
        QueryModel::Read(_) => false,
        QueryModel::Put(k, _) => k == key,
        QueryModel::Delete(k) => k == key,
    }
}

/// Two stores agree on `key`: both lack it, or both hold the same value
/// under it.
pub open spec fn same_at(a: Contents, b: Contents, key: Seq<char>) -> bool {
    a.contains_key(key) == b.contains_key(key) && (a.contains_key(key) ==> a[key] == b[key])
}

/// A key that no query of the list writes is after the replay what it was
/// before.
pub proof fn lemma_replay_untouched(queries: Seq<QueryModel>, before: Contents, key: Seq<char>)
    requires
        !touches(queries, key),
    ensures
        same_at(replay(queries, before), before, key),
    decreases queries.len(),
{
    if queries.len() > 0 {
        lemma_replay_untouched(queries.drop_last(), before, key);
    }
}

/// A key that some query of the list writes is after the replay the same,
/// whatever the store held before.
pub proof fn lemma_replay_touched(
    queries: Seq<QueryModel>,
    a: Contents,
    b: Contents,
    key: Seq<char>,
)
    requires
        touches(queries, key),
    ensures
        same_at(replay(queries, a), replay(queries, b), key),
    decreases queries.len(),
{
    if queries.len() > 0 {
        if !writes(queries.last(), key) {
            lemma_replay_touched(queries.drop_last(), a, b, key);
        }
    }
}

/// Replaying a log twice gives the same store as replaying it once,
/// whatever the store held before.
pub proof fn lemma_replay_idempotent(queries: Seq<QueryModel>, before: Contents)
    ensures
        replay(queries, replay(queries, before)) == replay(queries, before),
{
    let once = replay(queries, before);
    let twice = replay(queries, once);
    assert forall|key: Seq<char>| same_at(twice, once, key) by {
        if touches(queries, key) {
            lemma_replay_touched(queries, once, before, key);
        } else {
            lemma_replay_untouched(queries, once, key);
        }
    }
    assert(twice =~= once) by {
        assert forall|key: Seq<char>| twice.contains_key(key) == once.contains_key(key) by {
            assert(same_at(twice, once, key));
        }
        assert forall|key: Seq<char>| twice.contains_key(key) implies twice[key] == once[key] by {
            assert(same_at(twice, once, key));
        }
    }
}

/// A query that changed the store, as the log keeps it.
#[derive(Debug, PartialEq, Eq)]
pub enum DataChangeQuery {
    Put(PutQuery),
    Delete(DeleteQuery),
}

/// A record of the log.
#[derive(Debug, PartialEq, Eq)]
pub struct DataChangeLog {
    pub query: DataChangeQuery,
    pub date: i64,
}

impl View for DataChangeQuery {
    type V = QueryModel;

    open spec fn view(&self) -> QueryModel {
        match self {
            DataChangeQuery::Put(q) => q@,
            DataChangeQuery::Delete(q) => q@,
        }
    }
}

impl View for DataChangeLog {
    type V = RecordModel;

    open spec fn view(&self) -> RecordModel {
        RecordModel { query: self.query@, date: self.date }
    }
}

impl Clone for DataChangeQuery {
    fn clone(&self) -> (res: Self)
        ensures
            res@ == self@,
    {
        match self {
            DataChangeQuery::Put(q) => DataChangeQuery::Put(q.clone()),
            DataChangeQuery::Delete(q) => DataChangeQuery::Delete(q.clone()),
        }
    }
}

impl Clone for DataChangeLog {
    fn clone(&self) -> (res: Self)
        ensures
            res@ == self@,
    {
        DataChangeLog { query: self.query.clone(), date: self.date }
    }
}

impl FromSpecImpl<DataChangeQuery> for DataQuery {
    open spec fn obeys_from_spec() -> bool {
        true
    }

    open spec fn from_spec(v: DataChangeQuery) -> Self {
        match v {
            DataChangeQuery::Delete(query) => DataQuery::Delete(query),
            DataChangeQuery::Put(query) => DataQuery::Put(query),
        }
    }
}

impl From<DataChangeQuery> for DataQuery {
    fn from(value: DataChangeQuery) -> (query: Self)
        ensures
            query@ == value@,
    {
        match value {
            DataChangeQuery::Delete(query) => DataQuery::Delete(query),
            DataChangeQuery::Put(query) => DataQuery::Put(query),
        }
    }
}

/// The second of the clock, from `chrono::Utc::now`, counted from the start
/// of 1970. Nothing is known of it.
#[verifier::external_body]
pub(crate) fn now_timestamp() -> i64 {
    Utc::now().timestamp()
}

impl DataChangeLog {
    /// A record of `query`, logged at the second `date`.
    pub fn new(query: DataChangeQuery, date: i64) -> (log: Self)
        ensures
            log.query == query,
            log.date == date,
    {
        DataChangeLog { query, date }
    }

    /// The second at which the record was logged.
    pub fn date(&self) -> (date: i64)
        ensures
            date == self@.date,
    {
        self.date
    }

    /// The bytes of the record, as the log file holds them. Read again they
    /// give the record back, whatever follows them.
    pub fn to_bytes(&self) -> (out: Vec<u8>)
        ensures
            out@ == record_bytes(self@),
            record_fits(self@),
            forall|rest: Seq<u8>| #[trigger]
                read_record(out@ + rest) == Some((self@, out@.len() as int)),
    {
        let mut out = self.query.to_bytes();
        let mut date = put_i64(self.date);
        out.append(&mut date);
        proof {
            assert forall|rest: Seq<u8>| #[trigger]
                read_record(out@ + rest) == Some((self@, out@.len() as int)) by {
                lemma_read_record_of_bytes(self@, rest);
            }
        }
        out
    }

    /// The record at the start of `bytes` and the number of bytes that it
    /// takes, or nothing where no record is there.
    pub fn from_bytes(bytes: &[u8]) -> (read: Option<(DataChangeLog, usize)>)
        ensures
            match read {
                Some((log, width)) => read_record(bytes@) == Some((log@, width as int)) && 20
                    <= width <= bytes@.len(),
                None => read_record(bytes@) is None,
            },
    {
        let (query, at) = match DataChangeQuery::from_bytes(bytes) {
            Some(read) => read,
            None => { return None; },
        };
        proof {
            assert(bytes@.subrange(at as int, bytes@.len() as int) =~= bytes@.skip(at as int));
        }
        let date = match get_i64(slice_subrange(bytes, at, bytes.len())) {
            Some(date) => date,
            None => { return None; },
        };
        Some((DataChangeLog { query, date }, at + 8))
    }
}

impl DataChangeQuery {
    /// The bytes of the change. Read again they give the change back,
    /// whatever follows them.
    pub fn to_bytes(&self) -> (out: Vec<u8>)
        ensures
            out@ == change_bytes(self@),
            self@.is_mutation(),
            self@.fits(),
            forall|rest: Seq<u8>| #[trigger]
                read_change(out@ + rest) == Some((self@, out@.len() as int)),
    {
        let mut out;
        match self {
            DataChangeQuery::Put(q) => {
                out = put_u32(0);
                let mut key = put_text(q.key.as_str());
                let mut value = put_blob(q.value.as_slice());
                proof {
                    lemma_auto_spec_u64_to_from_le_bytes();
                    assert(key@.len() == key.len());
                    assert(value@.len() == value.len());
                }
                out.append(&mut key);
                out.append(&mut value);
            },
            DataChangeQuery::Delete(q) => {
                out = put_u32(1);
                let mut key = put_text(q.key.as_str());
                proof {
                    lemma_auto_spec_u64_to_from_le_bytes();
                    assert(key@.len() == key.len());
                }
                out.append(&mut key);
            },
        }
        proof {
            assert(out@ =~= change_bytes(self@));
            assert forall|rest: Seq<u8>| #[trigger]
                read_change(out@ + rest) == Some((self@, out@.len() as int)) by {
                lemma_read_change_of_bytes(self@, rest);
            }
        }
        out
    }

    /// The change at the start of `bytes` and the number of bytes that it
    /// takes, or nothing where no change is there.
    pub fn from_bytes(bytes: &[u8]) -> (read: Option<(DataChangeQuery, usize)>)
        ensures
            match read {
                Some((change, width)) => read_change(bytes@) == Some((change@, width as int)) && 12
                    <= width <= bytes@.len(),
                None => read_change(bytes@) is None,
            },
    {
        let tag = match get_u32(bytes) {
            Some(tag) => tag,
            None => { return None; },
        };
        if tag != 0 && tag != 1 {
            return None;
        }
        let ghost tail = bytes@.skip(4);
        proof {
            assert(bytes@.subrange(4, bytes@.len() as int) =~= tail);
        }
        let key = match get_text(slice_subrange(bytes, 4, bytes.len())) {
            Some(key) => key,
            None => { return None; },
        };
        proof {
            decode_utf8_encode_utf8(read_blob(tail).unwrap());
        }
        let at: usize = 12 + key.as_str().len();
        if tag == 0 {
            proof {
                assert(bytes@.subrange(at as int, bytes@.len() as int) =~= tail.skip(at - 4));
            }
            let value = match get_blob(slice_subrange(bytes, at, bytes.len())) {
                Some(value) => value,
                None => { return None; },
            };
            let width = at + 8 + value.len();
            Some((DataChangeQuery::Put(PutQuery { key, value }), width))
        } else {
            Some((DataChangeQuery::Delete(DeleteQuery { key }), at))
        }
    }
}

impl DataQuery {
    /// The records that the query leaves in the log when it is logged at the
    /// second `date`: none for a read, one for a put or a delete.
    pub fn change_logs_at(&self, date: i64) -> (logs: Option<Vec<DataChangeLog>>)
        ensures
            match logs {
                Some(list) => self@.is_mutation() && list@.len() == 1 && list@[0]@ == (RecordModel {
                    query: self@,
                    date,
                }),
                None => !self@.is_mutation(),
            },
    {
        match self {
            DataQuery::Read(_) => None,
            DataQuery::Put(put_query) => {
                let mut list = Vec::new();
                list.push(DataChangeLog { query: DataChangeQuery::Put(put_query.clone()), date });
                Some(list)
            },
            DataQuery::Delete(delete_query) => {
                let mut list = Vec::new();
                list.push(
                    DataChangeLog { query: DataChangeQuery::Delete(delete_query.clone()), date },
                );
                Some(list)
            },
        }
    }

    /// The data of the log entry by which the query is proposed to the
    /// cluster: the bytes of its change. A read changes nothing and is not
    /// proposed.
    pub fn proposal(&self) -> (data: Option<Vec<u8>>)
        ensures
            match data {
                Some(bytes) => {
                    &&& self@.is_mutation()
                    &&& self@.fits()
                    &&& bytes@ == change_bytes(self@)
                    &&& bytes@.len() > 0
                    &&& read_change(bytes@) == Some((self@, bytes@.len() as int))
                },
                None => !self@.is_mutation(),
            },
    {
        let change = match self {
            DataQuery::Read(_) => { return None; },
            DataQuery::Put(put_query) => DataChangeQuery::Put(put_query.clone()),
            DataQuery::Delete(delete_query) => DataChangeQuery::Delete(delete_query.clone()),
        };
        let bytes = change.to_bytes();
        proof {
            lemma_read_change_of_bytes(self@, Seq::empty());
            assert(bytes@ + Seq::<u8>::empty() =~= bytes@);
        }
        Some(bytes)
    }

    /// The records that the query leaves in the log now: none for a read,
    /// one for a put or a delete, dated by the clock.
    pub fn as_datachangelogs(&self) -> (logs: Option<Vec<DataChangeLog>>)
        ensures
            match logs {
                Some(list) => self@.is_mutation() && list@.len() == 1 && list@[0]@.query == self@,
                None => !self@.is_mutation(),
            },
    {
        let date = now_timestamp();
        self.change_logs_at(date)
    }
}

} // verus!
