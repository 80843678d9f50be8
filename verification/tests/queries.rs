use memory_db::prelude::{DataStore, DataStoreKey, DataStoreValue};
use memory_db::public_api::dataquery::{
    DataQuery, DeleteQuery, HandleQuery, InvalidBody, PutQuery, ReadQuery,
};
use memory_db::public_api::protocol::Request;
use memory_db::tcp::server::CommandV0;

fn put(key: &str, value: &[u8]) -> DataQuery {
    DataQuery::Put(PutQuery { key: key.to_string(), value: value.to_vec() })
}

fn read(key: &str) -> DataQuery {
    DataQuery::Read(ReadQuery { key: key.to_string() })
}

fn delete(key: &str) -> DataQuery {
    DataQuery::Delete(DeleteQuery { key: key.to_string() })
}

#[test]
fn put_answers_ok_and_stores() {
    let mut store = DataStore::new();
    let answer = PutQuery { key: "k".to_string(), value: b"v".to_vec() }.exec(&mut store);
    assert_eq!(answer, b"OK\n".to_vec());
    assert_eq!(store.get(&DataStoreKey::from("k")), Some(DataStoreValue::from(b"v".to_vec())));
}

#[test]
fn read_answers_value_and_line_feed() {
    let mut store = DataStore::new();
    store.insert(DataStoreKey::from("k"), DataStoreValue::from(b"value".to_vec()));
    let answer = ReadQuery { key: "k".to_string() }.exec(&mut store);
    assert_eq!(answer, b"value\n".to_vec());
    assert_eq!(store.entries().len(), 1);
}

#[test]
fn read_of_missing_key_answers_not_found() {
    let mut store = DataStore::new();
    assert_eq!(ReadQuery { key: "k".to_string() }.exec(&mut store), b"NOT FOUND\n".to_vec());
    assert!(store.entries().is_empty());
}

#[test]
fn read_of_empty_value_answers_line_feed() {
    let mut store = DataStore::new();
    store.insert(DataStoreKey::from("k"), DataStoreValue::from(Vec::new()));
    assert_eq!(read("k").exec(&mut store), b"\n".to_vec());
}

#[test]
fn delete_answers_ok_even_when_nothing_is_there() {
    let mut store = DataStore::new();
    assert_eq!(DeleteQuery { key: "k".to_string() }.exec(&mut store), b"OK\n".to_vec());
    store.insert(DataStoreKey::from("k"), DataStoreValue::from(b"v".to_vec()));
    assert_eq!(delete("k").exec(&mut store), b"OK\n".to_vec());
    assert_eq!(store.get(&DataStoreKey::from("k")), None);
}

#[test]
fn list_of_queries_answers_in_order() {
    let mut store = DataStore::new();
    let queries = vec![read("a"), put("a", b"1"), read("a"), delete("a"), read("a")];
    let answer = queries.exec(&mut store);
    assert_eq!(answer, b"NOT FOUND\nOK\n1\nOK\nNOT FOUND\n".to_vec());
    assert!(store.entries().is_empty());
    assert_eq!(Vec::<DataQuery>::new().exec(&mut store), Vec::<u8>::new());
}

#[test]
fn only_reads_are_no_mutations() {
    assert!(!read("a").is_mutation());
    assert!(put("a", b"").is_mutation());
    assert!(delete("a").is_mutation());
}

#[test]
fn queries_travel_under_their_commands() {
    assert_eq!(read("a").command(), CommandV0::Get);
    assert_eq!(put("a", b"").command(), CommandV0::Put);
    assert_eq!(delete("a").command(), CommandV0::Delete);
}

#[test]
fn bodies_have_exact_bytes() {
    assert_eq!(read("ab").to_body(), vec![2, 0, 0, 0, 0, 0, 0, 0, b'a', b'b']);
    assert_eq!(delete("").to_body(), vec![0; 8]);
    assert_eq!(
        put("k", b"xyz").to_body(),
        vec![1, 0, 0, 0, 0, 0, 0, 0, b'k', 3, 0, 0, 0, 0, 0, 0, 0, b'x', b'y', b'z']
    );
}

#[test]
fn bodies_are_those_of_serialized_structs() {
    // A struct is serialized as its fields, one after the other, as a tuple is.
    assert_eq!(
        put("test2", b"hello").to_body(),
        bincode::serialize(&("test2".to_string(), b"hello".to_vec())).unwrap()
    );
    assert_eq!(read("tëst").to_body(), bincode::serialize("tëst").unwrap());
}

#[test]
fn queries_round_trip_through_their_bodies() {
    for query in [read("a"), put("kéy", &[0, 1, 2, 255]), delete("gone"), put("", b"")] {
        let again = DataQuery::try_from((query.command(), query.to_body())).unwrap();
        assert_eq!(again, query);
    }
}

#[test]
fn bytes_after_the_query_are_ignored() {
    let mut body = read("a").to_body();
    body.extend([7, 7, 7]);
    assert_eq!(DataQuery::try_from((CommandV0::Get, body)).unwrap(), read("a"));
}

#[test]
fn bad_bodies_are_invalid() {
    assert_eq!(DataQuery::try_from((CommandV0::Get, vec![])), Err(InvalidBody));
    assert_eq!(DataQuery::try_from((CommandV0::Get, vec![3, 0, 0, 0, 0, 0, 0, 0, b'a'])), Err(InvalidBody));
    assert_eq!(
        DataQuery::try_from((CommandV0::Delete, vec![1, 0, 0, 0, 0, 0, 0, 0, 0xff])),
        Err(InvalidBody)
    );
    // A put needs a value after its key.
    assert_eq!(DataQuery::try_from((CommandV0::Put, read("a").to_body())), Err(InvalidBody));
    let mut short = put("a", b"123").to_body();
    short.pop();
    assert_eq!(DataQuery::try_from((CommandV0::Put, short)), Err(InvalidBody));
}

#[test]
fn ping_is_no_query() {
    assert_eq!(DataQuery::try_from((CommandV0::Ping, read("a").to_body())), Err(InvalidBody));
    assert_eq!(Request::from_command(CommandV0::Ping, vec![1, 2, 3]), Ok(Request::Ping));
}

#[test]
fn requests_are_read_from_command_and_body() {
    assert_eq!(
        Request::from_command(CommandV0::Put, put("a", b"1").to_body()),
        Ok(Request::DataQuery(put("a", b"1")))
    );
    assert_eq!(Request::from_command(CommandV0::Get, vec![1]), Err(InvalidBody));
}

#[test]
fn clones_are_equal() {
    let query = put("a", b"1");
    assert_eq!(query.clone(), query);
    let request = Request::DataQuery(query);
    assert_eq!(request.clone(), request);
}
