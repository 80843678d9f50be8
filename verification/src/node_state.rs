//! A node that keeps its log in memory and writes it out from time to time.
//!
//! Every change is noted in the log as it is made. A writer that runs beside
//! the node asks now and then for the records that the log file lacks, and
//! appends them to the file. On start the file is read back and replayed.

use vstd::prelude::*;
use crate::log::{DataChangeLog, RecordModel, now_timestamp, read_records, record_queries, records_bytes, replay};
use crate::prelude::{Contents, DataStore};
use crate::public_api::dataquery::{DataQuery, HandleQuery, QueryModel};
use crate::public_api::protocol::Request;
use crate::state::node_state::pong_answer;
use crate::state::utils::{MalformedLog, read_appended_structs, records_view};

verus! {

/// The node: its store, its log, and how much of the log the file holds.
pub struct NodeState {
    store: DataStore,
    log: Vec<DataChangeLog>,
    written: usize,
}

/// The log after a query was noted in it at the second `date`: a put or a
/// delete adds its record, a read adds nothing.
pub open spec fn noted(log: Seq<RecordModel>, query: QueryModel, date: i64) -> Seq<RecordModel> {
    if query.is_mutation() {
        log.push(RecordModel { query, date })
    } else {
        log
    }
}

impl NodeState {
    /// What the store holds.
    pub closed spec fn held(&self) -> Contents {
        self.store@
    }

    /// The records of the log.
    pub closed spec fn log(&self) -> Seq<RecordModel> {
        records_view(self.log@)
    }

    /// The number of records, from the start of the log, that the file
    /// holds.
    pub closed spec fn written(&self) -> nat {
        self.written as nat
    }

    /// The file holds no more records than the log.
    pub open spec fn wf(&self) -> bool {
        self.written() <= self.log().len()
    }

    /// A node with an empty store and an empty log.
    pub fn new() -> (node: Self)
        ensures
            node.wf(),
            node.held() == Contents::empty(),
            node.log() == Seq::<RecordModel>::empty(),
            node.written() == 0,
    {
        let node = NodeState { store: DataStore::new(), log: Vec::new(), written: 0 };
        assert(node.log() =~= Seq::<RecordModel>::empty());
        node
    }

    /// The store.
    pub fn store(&self) -> (store: &DataStore)
        ensures
            store@ == self.held(),
    {
        &self.store
    }

    /// Starts the node from its log file, where there is one: its records
    /// become the log, every one of them is run on the store, and the file
    /// is known to hold them all. A file that holds bytes that are no record
    /// is an error, and nothing changes. Without a file nothing changes
    /// either.
    pub fn init(&mut self, logfile: Option<&[u8]>) -> (res: Result<(), MalformedLog>)
        requires
            old(self).wf(),
        ensures
            final(self).wf(),
            match (logfile, res) {
                (Some(bytes), Ok(_)) => {
                    &&& read_records(bytes@) == Some(final(self).log())
                    &&& final(self).written() == final(self).log().len()
                    &&& final(self).held() == replay(
                        record_queries(final(self).log()),
                        old(self).held(),
                    )
                },
                (Some(bytes), Err(_)) => {
                    &&& read_records(bytes@) is None
                    &&& final(self).log() == old(self).log()
                    &&& final(self).written() == old(self).written()
                    &&& final(self).held() == old(self).held()
                },
                (None, Ok(_)) => {
                    &&& final(self).log() == old(self).log()
                    &&& final(self).written() == old(self).written()
                    &&& final(self).held() == old(self).held()
                },
                (None, Err(_)) => false,
            },
    {
        let bytes = match logfile {
            Some(bytes) => bytes,
            None => { return Ok(()); },
        };
        let data_mutate_logs = match read_appended_structs(bytes) {
            Ok(logs) => logs,
            Err(e) => { return Err(e); },
        };
        let ghost queries = record_queries(records_view(data_mutate_logs@));
        let mut i: usize = 0;
        while i < data_mutate_logs.len()
            invariant
                i <= data_mutate_logs.len(),
                queries == record_queries(records_view(data_mutate_logs@)),
                self.store@ == replay(queries.take(i as int), old(self).store@),
            decreases data_mutate_logs.len() - i,
        {
            let item = DataQuery::from(data_mutate_logs[i].query.clone());
            proof {
                assert(queries.take(i + 1).drop_last() =~= queries.take(i as int));
                assert(queries.take(i + 1).last() == item@);
            }
            item.exec(&mut self.store);
            i += 1;
        }
        proof {
            assert(queries.take(data_mutate_logs.len() as int) =~= queries);
        }
        self.written = data_mutate_logs.len();
        self.log = data_mutate_logs;
        Ok(())
    }

    /// The bytes that the writer is to append to the log file: the records
    /// that the file lacks, in their order. A file that is gone lacks all of
    /// them. The file is taken to hold the whole log afterwards.
    pub fn flush(&mut self, file_exists: bool) -> (out: Vec<u8>)
        requires
            old(self).wf(),
        ensures
            final(self).wf(),
            final(self).log() == old(self).log(),
            final(self).held() == old(self).held(),
            final(self).written() == old(self).log().len(),
            out@ == records_bytes(
                old(self).log().skip(
                    if file_exists {
                        old(self).written() as int
                    } else {
                        0
                    },
                ),
            ),
    {
        let from: usize = if file_exists {
            self.written
        } else {
            0
        };
        let ghost all = self.log();
        let mut out: Vec<u8> = Vec::new();
        let mut i: usize = from;
        proof {
            assert(all.subrange(from as int, from as int) =~= Seq::<RecordModel>::empty());
        }
        while i < self.log.len()
            invariant
                from <= i <= self.log.len(),
                all == records_view(self.log@),
                out@ == records_bytes(all.subrange(from as int, i as int)),
            decreases self.log.len() - i,
        {
            let mut bytes = self.log[i].to_bytes();
            proof {
                let upto = all.subrange(from as int, i + 1);
                assert(upto.drop_last() =~= all.subrange(from as int, i as int));
                assert(upto.last() == self.log@[i as int]@);
            }
            out.append(&mut bytes);
            i += 1;
        }
        proof {
            assert(all.subrange(from as int, all.len() as int) =~= all.skip(from as int));
        }
        self.written = self.log.len();
        out
    }

    /// Runs a query on the store at the second `date`, and notes it in the
    /// log if it changes the store.
    pub fn handle_query_at(&mut self, query: DataQuery, date: i64) -> (answer: Vec<u8>)
        requires
            old(self).wf(),
        ensures
            final(self).wf(),
            answer@ == query@.answer(old(self).held()),
            final(self).held() == query@.effect(old(self).held()),
            final(self).log() == noted(old(self).log(), query@, date),
            final(self).written() == old(self).written(),
    {
        if let Some(logs) = query.change_logs_at(date) {
            let ghost before = self.log();
            let record = logs[0].clone();
            self.log.push(record);
            proof {
                assert(self.log() =~= before.push(logs@[0]@));
            }
        }
        query.exec(&mut self.store)
    }

    /// Runs a query on the store now, and notes it in the log, dated by the
    /// clock, if it changes the store.
    pub fn handle_query(&mut self, query: DataQuery) -> (answer: Vec<u8>)
        requires
            old(self).wf(),
        ensures
            final(self).wf(),
            answer@ == query@.answer(old(self).held()),
            final(self).held() == query@.effect(old(self).held()),
            exists|date: i64| final(self).log() == #[trigger] noted(old(self).log(), query@, date),
            final(self).written() == old(self).written(),
    {
        let date = now_timestamp();
        self.handle_query_at(query, date)
    }

    /// Answers a request: a ping with `Pong`, a query by running it now.
    pub fn handle_incoming(&mut self, incoming: Request) -> (answer: Vec<u8>)
        requires
            old(self).wf(),
        ensures
            final(self).wf(),
            answer@ == incoming@.answer(old(self).held()),
            final(self).held() == incoming@.effect(old(self).held()),
            final(self).written() == old(self).written(),
            match incoming {
                Request::DataQuery(query) => exists|date: i64|
                    final(self).log() == #[trigger] noted(old(self).log(), query@, date),
                Request::Ping => final(self).log() == old(self).log(),
            },
    {
        match incoming {
            Request::DataQuery(query) => self.handle_query(query),
            Request::Ping => {
                let answer = vec![80u8, 111, 110, 103];
                assert(answer@ =~= pong_answer());
                answer
            },
        }
    }
}

} // verus!
