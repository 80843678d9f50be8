//! The state store: a map from keys to values that requests read and change,
//! and that is written out whole as a snapshot.
//!
//! The store keeps its entries in a `DashMap`. What the map holds is known to
//! the proofs only through `dash_contents` and the contracts of the few
//! `dash_*` functions below, which are taken on trust.

use vstd::prelude::*;
use vstd::bytes::*;
use vstd::utf8::*;
use vstd::slice::slice_subrange;
use vstd::std_specs::convert::FromSpecImpl;
use dashmap::DashMap;
use std::collections::hash_map::RandomState;
use crate::encoding::{blob_bytes, get_blob, get_text, get_u64, put_blob, put_text, put_u64, read_blob, read_text, read_u64, text_bytes, lemma_read_blob_of_bytes, lemma_read_text_of_bytes, lemma_read_u64_of_bytes};

verus! {

/// `dashmap::DashMap`, declared so that the store can keep one. Nothing of
/// what is inside it is known but through `dash_contents`.
#[verifier::external_type_specification]
#[verifier::external_body]
#[verifier::reject_recursive_types(K)]
#[verifier::reject_recursive_types(V)]
#[verifier::reject_recursive_types(S)]
pub struct ExDashMap<K, V, S>(DashMap<K, V, S>);

/// What the store holds, as mathematics: each key with its value.
pub type Contents = Map<Seq<char>, Seq<u8>>;

/// A key with its value, as mathematics.
pub type Pair = (Seq<char>, Seq<u8>);

/// What a `DashMap` of the store holds: each key with its value.
pub uninterp spec fn dash_contents(m: DashMap<String, Vec<u8>, RandomState>) -> Map<Seq<char>, Seq<u8>>;

/// A key of the store. Two keys are the same key where their text is.
#[derive(Debug, PartialEq, Eq, Hash)]
pub struct DataStoreKey(pub String);

impl Clone for DataStoreKey {
    fn clone(&self) -> (res: Self)
        ensures
            res@ == self@,
    {
        DataStoreKey(self.0.clone())
    }
}

impl View for DataStoreKey {
    type V = Seq<char>;

    open spec fn view(&self) -> Seq<char> {
        self.0@
    }
}

impl<'a> FromSpecImpl<&'a str> for DataStoreKey {
    open spec fn obeys_from_spec() -> bool {
        false
    }

    open spec fn from_spec(v: &'a str) -> Self {
        arbitrary()
    }
}

impl<'a> From<&'a str> for DataStoreKey {
    fn from(value: &'a str) -> (key: Self)
        ensures
            key@ == value@,
    {
        DataStoreKey(value.to_owned())
    }
}

/// A value of the store: a string of bytes.
#[derive(Debug, PartialEq, Eq, Hash)]
pub struct DataStoreValue(pub Vec<u8>);

impl Clone for DataStoreValue {
    fn clone(&self) -> (res: Self)
        ensures
            res@ == self@,
    {
        DataStoreValue(self.0.clone())
    }
}

impl View for DataStoreValue {
    type V = Seq<u8>;

    open spec fn view(&self) -> Seq<u8> {
        self.0@
    }
}

impl FromSpecImpl<Vec<u8>> for DataStoreValue {
    open spec fn obeys_from_spec() -> bool {
        true
    }

    open spec fn from_spec(v: Vec<u8>) -> Self {
        DataStoreValue(v)
    }
}

impl From<Vec<u8>> for DataStoreValue {
    fn from(value: Vec<u8>) -> (held: Self)
        ensures
            held@ == value@,
    {
        DataStoreValue(value)
    }
}

impl<'a> FromSpecImpl<&'a [u8]> for DataStoreValue {
    open spec fn obeys_from_spec() -> bool {
        false
    }

    open spec fn from_spec(v: &'a [u8]) -> Self {
        arbitrary()
    }
}

impl<'a> From<&'a [u8]> for DataStoreValue {
    fn from(value: &'a [u8]) -> (held: Self)
        ensures
            held@ == value@,
    {
        DataStoreValue(vstd::slice::slice_to_vec(value))
    }
}

/// The map that a list of pairs stands for. Where a key comes twice, the
/// later pair holds its value.
pub open spec fn pairs_map(pairs: Seq<Pair>) -> Contents
    decreases pairs.len(),
{
    if pairs.len() == 0 {
        Map::empty()
    } else {
        pairs_map(pairs.drop_last()).insert(pairs.last().0, pairs.last().1)
    }
}

/// No key comes twice in the list.
pub open spec fn distinct_keys(pairs: Seq<Pair>) -> bool {
    forall|i: int, j: int| 0 <= i < j < pairs.len() ==> pairs[i].0 != pairs[j].0
}

/// A list of the store's entries, as mathematics.
pub open spec fn pairs_view(entries: Seq<(String, Vec<u8>)>) -> Seq<Pair> {
    entries.map_values(|e: (String, Vec<u8>)| (e.0@, e.1@))
}

/// A list of the store's entries as keys and values, as mathematics.
pub open spec fn entries_view(entries: Seq<(DataStoreKey, DataStoreValue)>) -> Seq<Pair> {
    entries.map_values(|e: (DataStoreKey, DataStoreValue)| (e.0@, e.1@))
}

/// The bytes of the pairs, one after the other: each key as a string, then
/// its value as a byte string.
pub open spec fn pairs_bytes(pairs: Seq<Pair>) -> Seq<u8>
    decreases pairs.len(),
{
    if pairs.len() == 0 {
        Seq::empty()
    } else {
        pairs_bytes(pairs.drop_last()) + text_bytes(pairs.last().0) + blob_bytes(pairs.last().1)
    }
}

/// The bytes of a snapshot that lists `pairs`: their number, then the pairs.
pub open spec fn snapshot_bytes(pairs: Seq<Pair>) -> Seq<u8> {
    spec_u64_to_le_bytes(pairs.len() as u64) + pairs_bytes(pairs)
}

/// The number of bytes that the pair at the start of `bytes` takes, where one
/// is there.
pub open spec fn pair_width(bytes: Seq<u8>) -> Option<int> {
    match read_blob(bytes) {
        Some(k) => match read_blob(bytes.skip(8 + k.len() as int)) {
            Some(v) => Some(16 + k.len() as int + v.len() as int),
            None => None,
        },
        None => None,
    }
}

/// The pair at the start of `bytes`: a string, then a byte string.
pub open spec fn read_pair(bytes: Seq<u8>) -> Option<Pair> {
    match read_text(bytes) {
        Some(k) => match read_blob(bytes.skip(8 + encode_utf8(k).len() as int)) {
            Some(v) => Some((k, v)),
            None => None,
        },
        None => None,
    }
}

/// The first `count` pairs at the start of `bytes`, where so many are there.
pub open spec fn read_pairs(bytes: Seq<u8>, count: nat) -> Option<Seq<Pair>>
    decreases count,
{
    if count == 0 {
        Some(Seq::empty())
    } else {
        match read_pair(bytes) {
            Some(p) => match read_pairs(bytes.skip(pair_width(bytes).unwrap()), (count - 1) as nat) {
                Some(rest) => Some(seq![p] + rest),
                None => None,
            },
            None => None,
        }
    }
}

/// What a snapshot holds: the map of the pairs that it lists after their
/// number. Bytes after the last pair are ignored. There is none where the
/// bytes end early or a key is not UTF-8.
pub open spec fn read_snapshot(bytes: Seq<u8>) -> Option<Contents> {
    match read_u64(bytes) {
        Some(n) => match read_pairs(bytes.skip(8), n as nat) {
            Some(pairs) => Some(pairs_map(pairs)),
            None => None,
        },
        None => None,
    }
}

/// An empty map, from `DashMap::new`.
#[verifier::external_body]
fn dash_new() -> (made: DashMap<String, Vec<u8>, RandomState>)
    ensures
        dash_contents(made) == Contents::empty(),
{
    DashMap::new()
}

/// `DashMap::get`, with the value copied out: the value under `key`, if the
/// map holds the key.
#[verifier::external_body]
fn dash_get(m: &DashMap<String, Vec<u8>, RandomState>, key: &str) -> (found: Option<Vec<u8>>)
    ensures
        match found {
            Some(v) => dash_contents(*m).contains_key(key@) && dash_contents(*m)[key@] == v@,
            None => !dash_contents(*m).contains_key(key@),
        },
{
    m.get(key).map(|e| e.value().clone())
}

/// `DashMap::insert`: afterwards the map holds `value` under `key`, and under
/// every other key what it held before.
#[verifier::external_body]
fn dash_insert(m: &mut DashMap<String, Vec<u8>, RandomState>, key: String, value: Vec<u8>)
    ensures
        dash_contents(*final(m)) == dash_contents(*old(m)).insert(key@, value@),
{
    m.insert(key, value);
}

/// `DashMap::remove`: afterwards the map holds nothing under `key`, and under
/// every other key what it held before.
#[verifier::external_body]
fn dash_remove(m: &mut DashMap<String, Vec<u8>, RandomState>, key: &str)
    ensures
        dash_contents(*final(m)) == dash_contents(*old(m)).remove(key@),
{
    m.remove(key);
}

/// `DashMap::iter`, with each entry copied out: every entry of the map once,
/// in an order that is not fixed.
#[verifier::external_body]
fn dash_entries(m: &DashMap<String, Vec<u8>, RandomState>) -> (all: Vec<(String, Vec<u8>)>)
    ensures
        pairs_map(pairs_view(all@)) == dash_contents(*m),
        distinct_keys(pairs_view(all@)),
{
    m.iter().map(|e| (e.key().clone(), e.value().clone())).collect()
}

/// The bytes of one pair: its key as a string, then its value as a byte
/// string.
pub open spec fn pair_bytes(p: Pair) -> Seq<u8> {
    text_bytes(p.0) + blob_bytes(p.1)
}

/// The lengths of the key's UTF-8 form and of the value fit the `u64` that
/// is written before them.
pub open spec fn pair_fits(p: Pair) -> bool {
    encode_utf8(p.0).len() <= u64::MAX && p.1.len() <= u64::MAX
}

/// A pair that is written and read again is itself, whatever follows it.
pub proof fn lemma_read_pair_of_bytes(p: Pair, rest: Seq<u8>)
    requires
        pair_fits(p),
    ensures
        read_pair(pair_bytes(p) + rest) == Some(p),
        pair_width(pair_bytes(p) + rest) == Some(pair_bytes(p).len() as int),
        (pair_bytes(p) + rest).skip(pair_bytes(p).len() as int) == rest,
{
    let all = pair_bytes(p) + rest;
    let key = encode_utf8(p.0);
    lemma_read_text_of_bytes(p.0, blob_bytes(p.1) + rest);
    lemma_read_blob_of_bytes(key, blob_bytes(p.1) + rest);
    lemma_read_blob_of_bytes(p.1, rest);
    assert(all =~= text_bytes(p.0) + (blob_bytes(p.1) + rest));
    assert(all.skip(8 + key.len() as int) =~= blob_bytes(p.1) + rest);
    assert(all.skip(pair_bytes(p).len() as int) =~= rest);
}

/// The bytes of a list are those of its first pair, then those of the others.
pub proof fn lemma_pairs_bytes_front(p: Pair, tail: Seq<Pair>)
    ensures
        pairs_bytes(seq![p] + tail) == pair_bytes(p) + pairs_bytes(tail),
    decreases tail.len(),
{
    let all = seq![p] + tail;
    if tail.len() == 0 {
        assert(all.drop_last() =~= Seq::<Pair>::empty());
        assert(all.last() == p);
        assert(pairs_bytes(all.drop_last()) =~= Seq::<u8>::empty());
        assert(pairs_bytes(all) =~= pair_bytes(p) + pairs_bytes(tail));
    } else {
        lemma_pairs_bytes_front(p, tail.drop_last());
        assert(all.drop_last() =~= seq![p] + tail.drop_last());
        assert(all.last() == tail.last());
        assert(pairs_bytes(all) == pairs_bytes(all.drop_last()) + text_bytes(all.last().0)
            + blob_bytes(all.last().1));
        assert(pairs_bytes(tail) == pairs_bytes(tail.drop_last()) + text_bytes(tail.last().0)
            + blob_bytes(tail.last().1));
        assert(pairs_bytes(all) =~= pair_bytes(p) + pairs_bytes(tail));
    }
}

/// Pairs that are written and read again are themselves, whatever follows
/// them.
pub proof fn lemma_read_pairs_of_bytes(pairs: Seq<Pair>, rest: Seq<u8>)
    requires
        forall|i: int| 0 <= i < pairs.len() ==> pair_fits(#[trigger] pairs[i]),
    ensures
        read_pairs(pairs_bytes(pairs) + rest, pairs.len()) == Some(pairs),
    decreases pairs.len(),
{
    if pairs.len() > 0 {
        let p = pairs[0];
        let tail = pairs.skip(1);
        assert(pairs =~= seq![p] + tail);
        lemma_pairs_bytes_front(p, tail);
        let after = pairs_bytes(tail) + rest;
        assert(pairs_bytes(pairs) + rest =~= pair_bytes(p) + after);
        lemma_read_pair_of_bytes(p, after);
        assert forall|i: int| 0 <= i < tail.len() implies pair_fits(#[trigger] tail[i]) by {
            assert(tail[i] == pairs[i + 1]);
        }
        lemma_read_pairs_of_bytes(tail, rest);
    }
}

/// A snapshot that lists `pairs` holds their map.
pub proof fn lemma_read_snapshot_of_bytes(pairs: Seq<Pair>)
    requires
        pairs.len() <= u64::MAX,
        forall|i: int| 0 <= i < pairs.len() ==> pair_fits(#[trigger] pairs[i]),
    ensures
        read_snapshot(snapshot_bytes(pairs)) == Some(pairs_map(pairs)),
{
    lemma_read_u64_of_bytes(pairs.len() as u64, pairs_bytes(pairs));
    assert(snapshot_bytes(pairs).skip(8) =~= pairs_bytes(pairs) + Seq::<u8>::empty());
    lemma_read_pairs_of_bytes(pairs, Seq::empty());
}

/// The state store.
pub struct DataStore {
    map: DashMap<String, Vec<u8>, RandomState>,
}

impl View for DataStore {
    type V = Contents;

    closed spec fn view(&self) -> Contents {
        dash_contents(self.map)
    }
}

impl Default for DataStore {
    fn default() -> (store: Self)
        ensures
            store@ == Contents::empty(),
    {
        DataStore::new()
    }
}

impl DataStore {
    /// A store that holds nothing.
    pub fn new() -> (store: Self)
        ensures
            store@ == Contents::empty(),
    {
        DataStore { map: dash_new() }
    }

    /// The value under `key`, if the store holds the key.
    pub fn get(&self, key: &DataStoreKey) -> (found: Option<DataStoreValue>)
        ensures
            match found {
                Some(v) => self@.contains_key(key@) && self@[key@] == v@,
                None => !self@.contains_key(key@),
            },
    {
        match dash_get(&self.map, key.0.as_str()) {
            Some(v) => Some(DataStoreValue(v)),
            None => None,
        }
    }

    /// Puts `value` under `key`, in place of what was there.
    pub fn insert(&mut self, key: DataStoreKey, value: DataStoreValue)
        ensures
            final(self)@ == old(self)@.insert(key@, value@),
    {
        dash_insert(&mut self.map, key.0, value.0);
    }

    /// Takes `key` and its value out of the store, if it is there.
    pub fn remove(&mut self, key: &DataStoreKey)
        ensures
            final(self)@ == old(self)@.remove(key@),
    {
        dash_remove(&mut self.map, key.0.as_str());
    }

    /// Every entry of the store once, in an order that is not fixed.
    pub fn entries(&self) -> (all: Vec<(DataStoreKey, DataStoreValue)>)
        ensures
            pairs_map(entries_view(all@)) == self@,
            distinct_keys(entries_view(all@)),
    {
        let raw = dash_entries(&self.map);
        let ghost pairs = pairs_view(raw@);
        let mut all: Vec<(DataStoreKey, DataStoreValue)> = Vec::new();
        let mut i: usize = 0;
        while i < raw.len()
            invariant
                i <= raw.len(),
                pairs == pairs_view(raw@),
                entries_view(all@) == pairs.take(i as int),
            decreases raw.len() - i,
        {
            let ghost before = entries_view(all@);
            let key = DataStoreKey(raw[i].0.clone());
            let value = DataStoreValue(raw[i].1.clone());
            all.push((key, value));
            i += 1;
            proof {
                assert(entries_view(all@) =~= before.push(pairs[i - 1]));
                assert(pairs.take(i as int) =~= pairs.take(i - 1).push(pairs[i - 1]));
            }
        }
        proof {
            assert(pairs.take(raw.len() as int) =~= pairs);
        }
        all
    }

    /// The store as the bytes of a snapshot: the number of its entries, then
    /// each entry once. The order of the entries is not fixed, so neither are
    /// the bytes; they always read back as what the store holds.
    pub fn to_bytes(&self) -> (out: Vec<u8>)
        ensures
            read_snapshot(out@) == Some(self@),
            exists|pairs: Seq<Pair>|
                out@ == snapshot_bytes(pairs) && pairs_map(pairs) == self@ && distinct_keys(pairs),
    {
        let all = dash_entries(&self.map);
        let ghost pairs = pairs_view(all@);
        let count: usize = all.len();
        let mut out = put_u64(count as u64);
        let mut i: usize = 0;
        while i < count
            invariant
                i <= count,
                count == all.len(),
                pairs == pairs_view(all@),
                out@ == spec_u64_to_le_bytes(count as u64) + pairs_bytes(pairs.take(i as int)),
                forall|j: int| 0 <= j < i ==> pair_fits(#[trigger] pairs[j]),
            decreases count - i,
        {
            let mut key_bytes = put_text(all[i].0.as_str());
            let mut value_bytes = put_blob(all[i].1.as_slice());
            proof {
                lemma_auto_spec_u64_to_from_le_bytes();
                let p = pairs[i as int];
                assert(p == (all@[i as int].0@, all@[i as int].1@));
                assert(key_bytes@.len() == key_bytes.len());
                assert(value_bytes@.len() == value_bytes.len());
                assert(pair_fits(p));
                assert(pairs.take(i + 1).drop_last() =~= pairs.take(i as int));
                assert(pairs.take(i + 1).last() == p);
            }
            out.append(&mut key_bytes);
            out.append(&mut value_bytes);
            i += 1;
            proof {
                assert(out@ =~= spec_u64_to_le_bytes(count as u64) + pairs_bytes(pairs.take(i as int)));
            }
        }
        proof {
            assert(pairs.take(count as int) =~= pairs);
            lemma_read_snapshot_of_bytes(pairs);
        }
        out
    }

    /// The store that a snapshot holds, or an error where the bytes are no
    /// snapshot.
    pub fn from_bytes(bytes: &[u8]) -> (read: Result<DataStore, ()>)
        ensures
            match read {
                Ok(store) => read_snapshot(bytes@) == Some(store@),
                Err(_) => read_snapshot(bytes@) is None,
            },
    {
        let count = match get_u64(bytes) {
            Some(n) => n,
            None => { return Err(()); },
        };
        let mut map = dash_new();
        let ghost mut done: Seq<Pair> = Seq::empty();
        let mut pos: usize = 8;
        let mut i: u64 = 0;
        while i < count
            invariant
                i <= count,
                8 <= pos <= bytes@.len(),
                read_u64(bytes@) == Some(count),
                dash_contents(map) == pairs_map(done),
                read_pairs(bytes@.skip(8), count as nat) == match read_pairs(
                    bytes@.skip(pos as int),
                    (count - i) as nat,
                ) {
                    Some(rest) => Some(done + rest),
                    None => None,
                },
            decreases count - i,
        {
            let ghost tail = bytes@.skip(pos as int);
            proof {
                assert(bytes@.subrange(pos as int, bytes@.len() as int) =~= tail);
            }
            let key = match get_text(slice_subrange(bytes, pos, bytes.len())) {
                Some(k) => k,
                None => {
                    assert(read_pair(tail) is None);
                    return Err(());
                },
            };
            proof {
                decode_utf8_encode_utf8(read_blob(tail).unwrap());
            }
            let key_len = key.as_str().len();
            let at = pos + 8 + key_len;
            let value = match get_blob(slice_subrange(bytes, at, bytes.len())) {
                Some(v) => v,
                None => {
                    proof {
                        assert(bytes@.subrange(at as int, bytes@.len() as int) =~= tail.skip(
                            8 + key_len as int,
                        ));
                        assert(read_pair(tail) is None);
                    }
                    return Err(());
                },
            };
            proof {
                assert(bytes@.subrange(at as int, bytes@.len() as int) =~= tail.skip(
                    8 + key_len as int,
                ));
                let p = (key@, value@);
                assert(read_pair(tail) == Some(p));
                assert(pair_width(tail) == Some(16 + key_len as int + value@.len() as int));
                assert(tail.skip(16 + key_len as int + value@.len() as int) =~= bytes@.skip(
                    at + 8 + value@.len() as int,
                ));
                assert(done.push(p).drop_last() =~= done);
                let after = read_pairs(
                    bytes@.skip(at + 8 + value@.len() as int),
                    (count - i - 1) as nat,
                );
                if after is Some {
                    assert(done + (seq![p] + after.unwrap()) =~= done.push(p) + after.unwrap());
                }
                done = done.push(p);
            }
            pos = at + 8 + value.len();
            dash_insert(&mut map, key, value);
            i += 1;
        }
        proof {
            assert(done + Seq::<Pair>::empty() =~= done);
        }
        Ok(DataStore { map })
    }
}

} // verus!
