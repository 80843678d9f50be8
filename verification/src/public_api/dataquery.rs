//! The queries on the store: what each answers and what each changes.

use vstd::prelude::*;
use vstd::utf8::*;
use vstd::slice::slice_subrange;
use vstd::std_specs::convert::TryFromSpecImpl;
use crate::encoding::{get_blob, get_text, put_blob, put_text, read_blob, read_text, text_bytes, lemma_read_text_of_bytes};
use crate::prelude::{Contents, DataStore, DataStoreKey, DataStoreValue, pair_bytes, pair_fits, read_pair, lemma_read_pair_of_bytes};
use crate::tcp::server::CommandV0;

verus! {

/// A query, as mathematics.
pub enum QueryModel {
    /// Asks for the value under a key.
    Read(Seq<char>),
    /// Puts a value under a key.
    Put(Seq<char>, Seq<u8>),
    /// Takes a key out.
    Delete(Seq<char>),
}

/// The answer to a query that changed the store: `OK` and a line feed.
pub open spec fn ok_answer() -> Seq<u8> {
    seq![79u8, 75, 10]
}

/// The answer to a read of a key that is not there: `NOT FOUND` and a line
/// feed.
pub open spec fn not_found_answer() -> Seq<u8> {
    seq![78u8, 79, 84, 32, 70, 79, 85, 78, 68, 10]
}

impl QueryModel {
    /// Whether the query changes the store.
    pub open spec fn is_mutation(self) -> bool {
        !(self is Read)
    }

    /// What the query answers on a store that holds `before`: for a read the
    /// value and a line feed, or that nothing was found; else `OK`.
    pub open spec fn answer(self, before: Contents) -> Seq<u8> {
        match self {
            QueryModel::Read(key) => if before.contains_key(key) {
                before[key].push(10u8)
            } else {
                not_found_answer()
            },
            QueryModel::Put(_, _) => ok_answer(),
            QueryModel::Delete(_) => ok_answer(),
        }
    }

    /// What the store holds after the query, where it held `before`.
    pub open spec fn effect(self, before: Contents) -> Contents {
        match self {
            QueryModel::Read(_) => before,
            QueryModel::Put(key, value) => before.insert(key, value),
            QueryModel::Delete(key) => before.remove(key),
        }
    }

    /// The command under which the query travels.
    pub open spec fn command(self) -> CommandV0 {
        match self {
            QueryModel::Read(_) => CommandV0::Get,
            QueryModel::Put(_, _) => CommandV0::Put,
            QueryModel::Delete(_) => CommandV0::Delete,
        }
    }

    /// The body under which the query travels: its key as a string and, for
    /// a put, its value as a byte string.
    pub open spec fn body(self) -> Seq<u8> {
        match self {
            QueryModel::Read(key) => text_bytes(key),
            QueryModel::Put(key, value) => pair_bytes((key, value)),
            QueryModel::Delete(key) => text_bytes(key),
        }
    }

    /// The lengths of the key's UTF-8 form and of the value fit the `u64`
    /// that is written before them.
    pub open spec fn fits(self) -> bool {
        match self {
            QueryModel::Read(key) => encode_utf8(key).len() <= u64::MAX,
            QueryModel::Put(key, value) => pair_fits((key, value)),
            QueryModel::Delete(key) => encode_utf8(key).len() <= u64::MAX,
        }
    }
}

/// The query that a command and a body stand for. Bytes of the body after
/// the query are ignored. There is none for a ping, nor where the body ends
/// early or the key is not UTF-8.
pub open spec fn read_query(cmd: CommandV0, body: Seq<u8>) -> Option<QueryModel> {
    match cmd {
        CommandV0::Ping => None,
        CommandV0::Get => match read_text(body) {
            Some(key) => Some(QueryModel::Read(key)),
            None => None,
        },
        CommandV0::Put => match read_pair(body) {
            Some(p) => Some(QueryModel::Put(p.0, p.1)),
            None => None,
        },
        CommandV0::Delete => match read_text(body) {
            Some(key) => Some(QueryModel::Delete(key)),
            None => None,
        },
    }
}

/// A query that is sent under its command and body is read as itself,
/// whatever follows it in the body.
pub proof fn lemma_read_query_of_body(q: QueryModel, rest: Seq<u8>)
    requires
        q.fits(),
    ensures
        read_query(q.command(), q.body() + rest) == Some(q),
{
    match q {
        QueryModel::Read(key) => {
            lemma_read_text_of_bytes(key, rest);
        },
        QueryModel::Put(key, value) => {
            lemma_read_pair_of_bytes((key, value), rest);
        },
        QueryModel::Delete(key) => {
            lemma_read_text_of_bytes(key, rest);
        },
    }
}

/// What a list of queries answers, one after the other, and what the store
/// holds after them.
pub open spec fn run_all(queries: Seq<QueryModel>, before: Contents) -> (Seq<u8>, Contents)
    decreases queries.len(),
{
    if queries.len() == 0 {
        (Seq::empty(), before)
    } else {
        let (answers, held) = run_all(queries.drop_last(), before);
        (answers + queries.last().answer(held), queries.last().effect(held))
    }
}

/// What can be asked of the store.
pub trait HandleQuery: Sized {
    /// What `exec` answers on a store that holds `before`.
    spec fn answer(&self, before: Contents) -> Seq<u8>;

    /// What the store holds after `exec`, where it held `before`.
    spec fn effect(&self, before: Contents) -> Contents;

    /// Runs the query on the store and returns the answer.
    fn exec(self, datastore: &mut DataStore) -> (out: Vec<u8>)
        ensures
            out@ == self.answer(old(datastore)@),
            final(datastore)@ == self.effect(old(datastore)@),
    ;
}

/// Asks for the value under `key`.
#[derive(Debug, PartialEq, Eq)]
pub struct ReadQuery {
    pub key: String,
}

/// Puts `value` under `key`.
#[derive(Debug, PartialEq, Eq)]
pub struct PutQuery {
    pub key: String,
    pub value: Vec<u8>,
}

/// Takes `key` out of the store.
#[derive(Debug, PartialEq, Eq)]
pub struct DeleteQuery {
    pub key: String,
}

/// A query on the store.
#[derive(Debug, PartialEq, Eq)]
pub enum DataQuery {
    Read(ReadQuery),
    Put(PutQuery),
    Delete(DeleteQuery),
}

/// The body of a request is not a query of the kind that its command names.
#[derive(Debug, Clone, Copy, PartialEq, Eq, Structural)]
pub struct InvalidBody;

impl View for ReadQuery {
    type V = QueryModel;

    open spec fn view(&self) -> QueryModel {
        QueryModel::Read(self.key@)
    }
}

impl View for PutQuery {
    type V = QueryModel;

    open spec fn view(&self) -> QueryModel {
        QueryModel::Put(self.key@, self.value@)
    }
}

impl View for DeleteQuery {
    type V = QueryModel;

    open spec fn view(&self) -> QueryModel {
        QueryModel::Delete(self.key@)
    }
}

impl View for DataQuery {
    type V = QueryModel;

    open spec fn view(&self) -> QueryModel {
        match self {
            DataQuery::Read(q) => q@,
            DataQuery::Put(q) => q@,
            DataQuery::Delete(q) => q@,
        }
    }
}

impl Clone for ReadQuery {
    fn clone(&self) -> (res: Self)
        ensures
            res@ == self@,
    {
        ReadQuery { key: self.key.clone() }
    }
}

impl Clone for PutQuery {
    fn clone(&self) -> (res: Self)
        ensures
            res@ == self@,
    {
        PutQuery { key: self.key.clone(), value: self.value.clone() }
    }
}

impl Clone for DeleteQuery {
    fn clone(&self) -> (res: Self)
        ensures
            res@ == self@,
    {
        DeleteQuery { key: self.key.clone() }
    }
}

impl Clone for DataQuery {
    fn clone(&self) -> (res: Self)
        ensures
            res@ == self@,
    {
        match self {
            DataQuery::Read(q) => DataQuery::Read(q.clone()),
            DataQuery::Put(q) => DataQuery::Put(q.clone()),
            DataQuery::Delete(q) => DataQuery::Delete(q.clone()),
        }
    }
}

/// `OK` and a line feed.
fn ok_reply() -> (out: Vec<u8>)
    ensures
        out@ == ok_answer(),
{
    let out = vec![79u8, 75, 10];
    assert(out@ =~= ok_answer());
    out
}

impl HandleQuery for ReadQuery {
    open spec fn answer(&self, before: Contents) -> Seq<u8> {
        self@.answer(before)
    }

    open spec fn effect(&self, before: Contents) -> Contents {
        self@.effect(before)
    }

    fn exec(self, datastore: &mut DataStore) -> (out: Vec<u8>) {
        let key = DataStoreKey(self.key);
        match datastore.get(&key) {
            Some(found) => {
                let mut value = found.0;
                value.push(10u8);
                value
            },
            None => {
                let out = vec![78u8, 79, 84, 32, 70, 79, 85, 78, 68, 10];
                assert(out@ =~= not_found_answer());
                out
            },
        }
    }
}

impl HandleQuery for PutQuery {
    open spec fn answer(&self, before: Contents) -> Seq<u8> {
        self@.answer(before)
    }

    open spec fn effect(&self, before: Contents) -> Contents {
        self@.effect(before)
    }

    fn exec(self, datastore: &mut DataStore) -> (out: Vec<u8>) {
        datastore.insert(DataStoreKey(self.key), DataStoreValue(self.value));
        ok_reply()
    }
}

impl HandleQuery for DeleteQuery {
    open spec fn answer(&self, before: Contents) -> Seq<u8> {
        self@.answer(before)
    }

    open spec fn effect(&self, before: Contents) -> Contents {
        self@.effect(before)
    }

    fn exec(self, datastore: &mut DataStore) -> (out: Vec<u8>) {
        let key = DataStoreKey(self.key);
        datastore.remove(&key);
        ok_reply()
    }
}

impl HandleQuery for DataQuery {
    open spec fn answer(&self, before: Contents) -> Seq<u8> {
        self@.answer(before)
    }

    open spec fn effect(&self, before: Contents) -> Contents {
        self@.effect(before)
    }

    fn exec(self, datastore: &mut DataStore) -> (out: Vec<u8>) {
        match self {
            DataQuery::Put(query) => query.exec(datastore),
            DataQuery::Read(query) => query.exec(datastore),
            DataQuery::Delete(query) => query.exec(datastore),
        }
    }
}

/// The queries of a list, as mathematics.
pub open spec fn queries_view(queries: Seq<DataQuery>) -> Seq<QueryModel> {
    queries.map_values(|q: DataQuery| q@)
}

impl HandleQuery for Vec<DataQuery> {
    open spec fn answer(&self, before: Contents) -> Seq<u8> {
        run_all(queries_view(self@), before).0
    }

    open spec fn effect(&self, before: Contents) -> Contents {
        run_all(queries_view(self@), before).1
    }

    /// Runs the queries in their order; the answer is their answers, one
    /// after the other.
    fn exec(self, datastore: &mut DataStore) -> (out: Vec<u8>) {
        let ghost all = queries_view(self@);
        let mut out: Vec<u8> = Vec::new();
        let mut i: usize = 0;
        while i < self.len()
            invariant
                i <= self.len(),
                all == queries_view(self@),
                out@ == run_all(all.take(i as int), old(datastore)@).0,
                datastore@ == run_all(all.take(i as int), old(datastore)@).1,
            decreases self.len() - i,
        {
            proof {
                assert(all.take(i + 1).drop_last() =~= all.take(i as int));
                assert(all.take(i + 1).last() == self@[i as int]@);
            }
            let mut answer = self[i].clone().exec(datastore);
            out.append(&mut answer);
            i += 1;
        }
        proof {
            assert(all.take(self.len() as int) =~= all);
        }
        out
    }
}

impl DataQuery {
    /// Whether the query changes the store. A read does not, and leaves no
    /// record in the write-ahead log.
    pub fn is_mutation(&self) -> (changes: bool)
        ensures
            changes == self@.is_mutation(),
    {
        match self {
            DataQuery::Read(_) => false,
            DataQuery::Put(_) => true,
            DataQuery::Delete(_) => true,
        }
    }

    /// The command under which the query travels.
    pub fn command(&self) -> (cmd: CommandV0)
        ensures
            cmd == self@.command(),
    {
        match self {
            DataQuery::Read(_) => CommandV0::Get,
            DataQuery::Put(_) => CommandV0::Put,
            DataQuery::Delete(_) => CommandV0::Delete,
        }
    }

    /// The body under which the query travels. Read under the query's
    /// command it gives the query back.
    pub fn to_body(&self) -> (body: Vec<u8>)
        ensures
            body@ == self@.body(),
            self@.fits(),
            read_query(self@.command(), body@) == Some(self@),
    {
        let body = match self {
            DataQuery::Read(q) => put_text(q.key.as_str()),
            DataQuery::Put(q) => {
                let mut body = put_text(q.key.as_str());
                let mut value = put_blob(q.value.as_slice());
                proof {
                    vstd::bytes::lemma_auto_spec_u64_to_from_le_bytes();
                    assert(body@.len() == body.len());
                    assert(value@.len() == value.len());
                }
                body.append(&mut value);
                body
            },
            DataQuery::Delete(q) => put_text(q.key.as_str()),
        };
        proof {
            vstd::bytes::lemma_auto_spec_u64_to_from_le_bytes();
            assert(body@.len() == body.len());
            lemma_read_query_of_body(self@, Seq::empty());
            assert(self@.body() + Seq::<u8>::empty() =~= self@.body());
        }
        body
    }
}

impl TryFromSpecImpl<(CommandV0, Vec<u8>)> for DataQuery {
    open spec fn obeys_try_from_spec() -> bool {
        false
    }

    open spec fn try_from_spec(v: (CommandV0, Vec<u8>)) -> Result<Self, InvalidBody> {
        arbitrary()
    }
}

impl TryFrom<(CommandV0, Vec<u8>)> for DataQuery {
    type Error = InvalidBody;

    /// The query that a command and a body stand for, or an error where
    /// they stand for none.
    fn try_from(request: (CommandV0, Vec<u8>)) -> (res: Result<Self, InvalidBody>)
        ensures
            match res {
                Ok(query) => read_query(request.0, request.1@) == Some(query@),
                Err(_) => read_query(request.0, request.1@) is None,
            },
    {
        let (cmd, body) = request;
        let bytes = body.as_slice();
        match cmd {
            CommandV0::Ping => Err(InvalidBody),
            CommandV0::Get => match get_text(bytes) {
                Some(key) => Ok(DataQuery::Read(ReadQuery { key })),
                None => Err(InvalidBody),
            },
            CommandV0::Put => {
                let key = match get_text(bytes) {
                    Some(key) => key,
                    None => { return Err(InvalidBody); },
                };
                proof {
                    decode_utf8_encode_utf8(read_blob(bytes@).unwrap());
                }
                let at = 8 + key.as_str().len();
                proof {
                    assert(bytes@.subrange(at as int, bytes@.len() as int) =~= bytes@.skip(
                        at as int,
                    ));
                }
                match get_blob(slice_subrange(bytes, at, bytes.len())) {
                    Some(value) => Ok(DataQuery::Put(PutQuery { key, value })),
                    None => Err(InvalidBody),
                }
            },
            CommandV0::Delete => match get_text(bytes) {
                Some(key) => Ok(DataQuery::Delete(DeleteQuery { key })),
                None => Err(InvalidBody),
            },
        }
    }
}

} // verus!
