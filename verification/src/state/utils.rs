//! The log file as bytes, and the order of the snapshot files.
//!
//! A snapshot file's name starts with the second at which it was written.
//! `chrono` reads and writes that date; the two functions that call it are
//! taken on trust, and what they return is known only by name.

use vstd::prelude::*;
use vstd::utf8::*;
use vstd::slice::slice_subrange;
use vstd::string::StringExecFns;
use chrono::{DateTime, NaiveDateTime};
use crate::log::{DataChangeLog, RecordModel, read_records};
use crate::state::{DATE_FMT, DATE_LEN};

verus! {

/// The moment that the start of a file's name gives: whole seconds since the
/// start of 1970, and the nanoseconds of a leap second. Moments are ordered
/// by the seconds, then by the nanoseconds.
pub type Stamp = (i64, u32);

/// The moment that `chrono` reads from a text as a date of the pattern
/// `%Y-%m-%d-%H:%M:%S`, and nothing for a text from which it reads none.
pub uninterp spec fn stamp_of(text: Seq<char>) -> Option<(i64, u32)>;

/// The date of the pattern `%Y-%m-%d-%H:%M:%S` that `chrono` writes for a
/// second, and nothing for a second that it has no date for.
pub uninterp spec fn stamp_text(secs: i64) -> Option<Seq<char>>;

/// `NaiveDateTime::parse_from_str` with the pattern of the file names, and
/// the seconds and nanoseconds of the date that it read, taken as UTC.
#[verifier::external_body]
fn parse_stamp(text: &str) -> (stamp: Option<(i64, u32)>)
    ensures
        stamp == stamp_of(text@),
{
    match NaiveDateTime::parse_from_str(text, DATE_FMT) {
        Ok(date) => Some((date.and_utc().timestamp(), date.and_utc().timestamp_subsec_nanos())),
        Err(_) => None,
    }
}

/// `DateTime::from_timestamp` for the second, and the date that
/// `DateTime::format` writes for it with the pattern of the file names.
#[verifier::external_body]
fn format_stamp(secs: i64) -> (text: Option<String>)
    ensures
        match text {
            Some(t) => stamp_text(secs) == Some(t@),
            None => stamp_text(secs) is None,
        },
{
    match DateTime::from_timestamp(secs, 0) {
        Some(date) => Some(date.format(DATE_FMT).to_string()),
        None => None,
    }
}

/// The moment in a file's name: that of its first 19 bytes, where they are
/// a date. A name that is shorter, or whose 19th byte ends within a
/// character, has none.
pub open spec fn file_stamp(name: Seq<char>) -> Option<Stamp> {
    let bytes = encode_utf8(name);
    if bytes.len() >= 19 && is_char_boundary(bytes, 19) {
        stamp_of(decode_utf8(bytes.subrange(0, 19)))
    } else {
        None
    }
}

/// Whether moment `a` is no later than moment `b`.
pub open spec fn stamp_le(a: Stamp, b: Stamp) -> bool {
    a.0 < b.0 || (a.0 == b.0 && a.1 <= b.1)
}

/// Whether moment `a` is no later than moment `b`.
fn stamp_no_later(a: (i64, u32), b: (i64, u32)) -> (le: bool)
    ensures
        le == stamp_le(a, b),
{
    a.0 < b.0 || (a.0 == b.0 && a.1 <= b.1)
}

/// The moment in a file's name, if it starts with one.
pub fn stamp_of_file(name: &str) -> (stamp: Option<(i64, u32)>)
    ensures
        stamp == file_stamp(name@),
{
    if name.as_bytes().len() >= DATE_LEN && name.is_char_boundary(DATE_LEN) {
        let (date, _) = name.split_at(DATE_LEN);
        proof {
            encode_utf8_decode_utf8(date@);
        }
        parse_stamp(date)
    } else {
        None
    }
}

/// The names of a list of files, as mathematics.
pub open spec fn names_view(names: Seq<String>) -> Seq<Seq<char>> {
    names.map_values(|n: String| n@)
}

/// The moment in the name at place `i`.
pub open spec fn stamp_at(names: Seq<Seq<char>>, i: int) -> Stamp {
    file_stamp(names[i]).unwrap()
}

/// The places of `order`, with place `i` put behind the last of them whose
/// moment is no later than that of `i`.
pub open spec fn place_by_stamp(names: Seq<Seq<char>>, order: Seq<int>, i: int) -> Seq<int>
    decreases order.len(),
{
    if order.len() == 0 {
        seq![i]
    } else if stamp_le(stamp_at(names, order.last()), stamp_at(names, i)) {
        order.push(i)
    } else {
        place_by_stamp(names, order.drop_last(), i).push(order.last())
    }
}

/// The places of the names that start with a moment, from the earliest
/// moment to the latest. Of two names with the same moment, the one that
/// comes first in the list comes first.
pub open spec fn stamp_order(names: Seq<Seq<char>>) -> Seq<int>
    decreases names.len(),
{
    if names.len() == 0 {
        Seq::empty()
    } else {
        let before = stamp_order(names.drop_last());
        if file_stamp(names.last()) is Some {
            place_by_stamp(names, before, names.len() - 1)
        } else {
            before
        }
    }
}

/// The place at `j` of `order` is a place of `names` below `bound` whose
/// name starts with a moment.
pub open spec fn place_ok(names: Seq<Seq<char>>, order: Seq<int>, bound: int, j: int) -> bool {
    0 <= order[j] < bound && file_stamp(names[order[j]]) is Some
}

/// The places at `j` and `k` of `order` differ, the moment of the first is
/// no later than that of the second, and where the moments are the same the
/// first is the earlier place of the list.
pub open spec fn pair_ok(names: Seq<Seq<char>>, order: Seq<int>, j: int, k: int) -> bool {
    &&& order[j] != order[k]
    &&& stamp_le(stamp_at(names, order[j]), stamp_at(names, order[k]))
    &&& stamp_le(stamp_at(names, order[k]), stamp_at(names, order[j])) ==> order[j] < order[k]
}

/// Every place of `order` is a place of `names` below `bound` whose name
/// starts with a moment; no place comes twice; the moments do not go back;
/// and places with the same moment stand as they do in the list.
pub open spec fn ordered_by_stamp(names: Seq<Seq<char>>, order: Seq<int>, bound: int) -> bool {
    &&& forall|j: int| 0 <= j < order.len() ==> #[trigger] place_ok(names, order, bound, j)
    &&& forall|j: int, k: int| 0 <= j < k < order.len() ==> #[trigger] pair_ok(names, order, j, k)
}

/// Where `place_by_stamp` puts the new place, it can be put by `insert`.
pub proof fn lemma_place_is_insert(names: Seq<Seq<char>>, order: Seq<int>, i: int, pos: int)
    requires
        0 <= pos <= order.len(),
        pos == 0 || stamp_le(stamp_at(names, order[pos - 1]), stamp_at(names, i)),
        forall|j: int|
            pos <= j < order.len() ==> !stamp_le(
                stamp_at(names, #[trigger] order[j]),
                stamp_at(names, i),
            ),
    ensures
        place_by_stamp(names, order, i) == order.insert(pos, i),
    decreases order.len(),
{
    if order.len() == 0 {
        assert(order.insert(pos, i) =~= seq![i]);
    } else if pos == order.len() {
        assert(order.insert(pos, i) =~= order.push(i));
    } else {
        let shorter = order.drop_last();
        assert(!stamp_le(stamp_at(names, order[order.len() - 1]), stamp_at(names, i)));
        assert forall|j: int| pos <= j < shorter.len() implies !stamp_le(
            stamp_at(names, #[trigger] shorter[j]),
            stamp_at(names, i),
        ) by {
            assert(shorter[j] == order[j]);
        }
        lemma_place_is_insert(names, shorter, i, pos);
        assert(shorter.insert(pos, i).push(order.last()) =~= order.insert(pos, i));
    }
}

/// The place behind which `place_by_stamp` puts a new place.
pub open spec fn place_pos(names: Seq<Seq<char>>, order: Seq<int>, i: int) -> int
    decreases order.len(),
{
    if order.len() == 0 {
        0
    } else if stamp_le(stamp_at(names, order.last()), stamp_at(names, i)) {
        order.len() as int
    } else {
        place_pos(names, order.drop_last(), i)
    }
}

/// `place_pos` is the place that `lemma_place_is_insert` asks for.
pub proof fn lemma_place_pos(names: Seq<Seq<char>>, order: Seq<int>, i: int)
    ensures
        0 <= place_pos(names, order, i) <= order.len(),
        place_pos(names, order, i) == 0 || stamp_le(
            stamp_at(names, order[place_pos(names, order, i) - 1]),
            stamp_at(names, i),
        ),
        forall|j: int|
            place_pos(names, order, i) <= j < order.len() ==> !stamp_le(
                stamp_at(names, #[trigger] order[j]),
                stamp_at(names, i),
            ),
    decreases order.len(),
{
    if order.len() > 0 && !stamp_le(stamp_at(names, order.last()), stamp_at(names, i)) {
        let shorter = order.drop_last();
        lemma_place_pos(names, shorter, i);
        let pos = place_pos(names, shorter, i);
        assert(pos == 0 || shorter[pos - 1] == order[pos - 1]);
        assert forall|j: int| pos <= j < order.len() implies !stamp_le(
            stamp_at(names, #[trigger] order[j]),
            stamp_at(names, i),
        ) by {
            if j < shorter.len() {
                assert(shorter[j] == order[j]);
            }
        }
    }
}

/// An order of the names without the last is one of all the names.
proof fn lemma_ordered_longer(names: Seq<Seq<char>>, order: Seq<int>)
    requires
        names.len() > 0,
        ordered_by_stamp(names.drop_last(), order, names.len() - 1),
    ensures
        ordered_by_stamp(names, order, names.len() - 1),
{
    let shorter = names.drop_last();
    assert forall|j: int| 0 <= j < order.len() implies #[trigger] place_ok(
        names,
        order,
        names.len() - 1,
        j,
    ) by {
        assert(place_ok(shorter, order, names.len() - 1, j));
        assert(names[order[j]] == shorter[order[j]]);
    }
    assert forall|j: int, k: int| 0 <= j < k < order.len() implies #[trigger] pair_ok(
        names,
        order,
        j,
        k,
    ) by {
        assert(place_ok(shorter, order, names.len() - 1, j));
        assert(place_ok(shorter, order, names.len() - 1, k));
        assert(pair_ok(shorter, order, j, k));
        assert(names[order[j]] == shorter[order[j]]);
        assert(names[order[k]] == shorter[order[k]]);
    }
}

/// An order stays one when the last name is put at its place.
proof fn lemma_ordered_insert(names: Seq<Seq<char>>, before: Seq<int>, pos: int)
    requires
        names.len() > 0,
        file_stamp(names.last()) is Some,
        ordered_by_stamp(names, before, names.len() - 1),
        0 <= pos <= before.len(),
        pos == 0 || stamp_le(stamp_at(names, before[pos - 1]), stamp_at(names, names.len() - 1)),
        forall|j: int|
            pos <= j < before.len() ==> !stamp_le(
                stamp_at(names, #[trigger] before[j]),
                stamp_at(names, names.len() - 1),
            ),
    ensures
        ordered_by_stamp(names, before.insert(pos, names.len() - 1), names.len() as int),
{
    let last = names.len() - 1;
    let order = before.insert(pos, last);
    assert forall|j: int| 0 <= j < order.len() implies #[trigger] place_ok(
        names,
        order,
        names.len() as int,
        j,
    ) by {
        if j < pos {
            assert(place_ok(names, before, last, j));
        } else if j > pos {
            assert(place_ok(names, before, last, j - 1));
        }
    }
    assert forall|j: int, k: int| 0 <= j < k < order.len() implies #[trigger] pair_ok(
        names,
        order,
        j,
        k,
    ) by {
        if k < pos {
            assert(pair_ok(names, before, j, k));
        } else if k == pos {
            assert(place_ok(names, before, last, j));
            if j < pos - 1 {
                assert(pair_ok(names, before, j, pos - 1));
            }
        } else if j < pos {
            assert(pair_ok(names, before, j, k - 1));
        } else if j == pos {
            assert(place_ok(names, before, last, k - 1));
            assert(!stamp_le(stamp_at(names, before[k - 1]), stamp_at(names, last)));
        } else {
            assert(pair_ok(names, before, j - 1, k - 1));
        }
    }
}

/// The order of the names lists every name that starts with a moment once
/// and no other, its moments do not go back, and names with the same moment
/// stand as they do in the list: the last place is that of the newest file.
pub proof fn lemma_stamp_order(names: Seq<Seq<char>>)
    ensures
        ordered_by_stamp(names, stamp_order(names), names.len() as int),
        forall|i: int|
            0 <= i < names.len() && file_stamp(names[i]) is Some ==> stamp_order(names).contains(i),
    decreases names.len(),
{
    if names.len() > 0 {
        let shorter = names.drop_last();
        let before = stamp_order(shorter);
        let last = names.len() - 1;
        lemma_stamp_order(shorter);
        lemma_ordered_longer(names, before);
        if file_stamp(names.last()) is Some {
            lemma_place_pos(names, before, last);
            let pos = place_pos(names, before, last);
            lemma_place_is_insert(names, before, last, pos);
            lemma_ordered_insert(names, before, pos);
            let order = before.insert(pos, last);
            assert forall|i: int|
                0 <= i < names.len() && file_stamp(names[i]) is Some implies order.contains(
                i,
            ) by {
                if i == last {
                    assert(order[pos] == last);
                } else {
                    assert(shorter[i] == names[i]);
                    assert(file_stamp(shorter[i]) is Some);
                    assert(before.contains(i));
                    let j = choose|j: int| 0 <= j < before.len() && before[j] == i;
                    if j < pos {
                        assert(order[j] == i);
                    } else {
                        assert(order[j + 1] == i);
                    }
                }
            }
        } else {
            assert forall|j: int| 0 <= j < before.len() implies #[trigger] place_ok(
                names,
                before,
                names.len() as int,
                j,
            ) by {
                assert(place_ok(names, before, last, j));
            }
            assert forall|i: int|
                0 <= i < names.len() && file_stamp(names[i]) is Some implies before.contains(
                i,
            ) by {
                assert(shorter[i] == names[i]);
                assert(file_stamp(shorter[i]) is Some);
            }
        }
    } else {
        assert(stamp_order(names) =~= Seq::<int>::empty());
    }
}

/// The places of a list of places, as mathematics.
pub open spec fn places_view(order: Seq<usize>) -> Seq<int> {
    order.map_values(|p: usize| p as int)
}

/// The places of the names that start with a moment, from the earliest
/// moment to the latest: the last place is that of the newest file.
pub fn snapshot_order(names: &Vec<String>) -> (order: Vec<usize>)
    ensures
        places_view(order@) == stamp_order(names_view(names@)),
        ordered_by_stamp(names_view(names@), places_view(order@), names@.len() as int),
{
    let ghost all = names_view(names@);
    let mut order: Vec<usize> = Vec::new();
    let mut stamps: Vec<(i64, u32)> = Vec::new();
    let mut i: usize = 0;
    assert(places_view(order@) =~= stamp_order(all.take(0)));
    while i < names.len()
        invariant
            i <= names.len(),
            all == names_view(names@),
            places_view(order@) == stamp_order(all.take(i as int)),
            stamps.len() == order.len(),
            forall|j: int| 0 <= j < order.len() ==> 0 <= #[trigger] order[j] < i,
            forall|j: int|
                0 <= j < order.len() ==> file_stamp(all[order[j] as int]) == Some(
                    #[trigger] stamps[j],
                ),
        decreases names.len() - i,
    {
        let ghost upto = all.take(i + 1);
        let ghost before = places_view(order@);
        proof {
            assert(upto.drop_last() =~= all.take(i as int));
            assert(upto.last() == all[i as int]);
        }
        match stamp_of_file(names[i].as_str()) {
            Some(stamp) => {
                let mut pos: usize = order.len();
                while pos > 0 && !stamp_no_later(stamps[pos - 1], stamp)
                    invariant
                        pos <= order.len(),
                        stamps.len() == order.len(),
                        forall|j: int|
                            pos <= j < order.len() ==> !stamp_le(#[trigger] stamps[j], stamp),
                    decreases pos,
                {
                    pos -= 1;
                }
                proof {
                    assert forall|j: int| 0 <= j < before.len() implies stamp_at(
                        upto,
                        #[trigger] before[j],
                    ) == stamps[j] by {
                        assert(before[j] == order[j]);
                        assert(upto[order[j] as int] == all[order[j] as int]);
                    }
                    assert(stamp_at(upto, i as int) == stamp);
                    lemma_place_is_insert(upto, before, i as int, pos as int);
                }
                order.insert(pos, i);
                stamps.insert(pos, stamp);
                proof {
                    assert(places_view(order@) =~= before.insert(pos as int, i as int));
                }
            },
            None => {},
        }
        i += 1;
    }
    proof {
        assert(all.take(names.len() as int) =~= all);
        lemma_stamp_order(all);
    }
    order
}

/// The names that start with a moment, from the earliest moment to the
/// latest.
pub open spec fn in_stamp_order(names: Seq<Seq<char>>) -> Seq<Seq<char>> {
    stamp_order(names).map_values(|i: int| names[i])
}

/// The number of snapshot files that are too many where `keep` are kept.
pub open spec fn stale_count(names: Seq<Seq<char>>, keep: int) -> int {
    if stamp_order(names).len() > keep {
        stamp_order(names).len() - keep
    } else {
        0
    }
}

/// The snapshot files that are removed where `keep` are kept: the earliest
/// ones, as many as are too many.
pub open spec fn stale_snapshots(names: Seq<Seq<char>>, keep: int) -> Seq<Seq<char>> {
    in_stamp_order(names).take(stale_count(names, keep))
}

/// Of the files whose names start with a moment, as many as are kept stay,
/// or all where there are fewer; no file is both removed and kept, and none
/// that is removed is newer than one that stays.
pub proof fn lemma_retention(names: Seq<Seq<char>>, keep: int)
    requires
        keep >= 0,
    ensures
        0 <= stale_count(names, keep) <= stamp_order(names).len(),
        stamp_order(names).len() - stale_count(names, keep) == if stamp_order(names).len() > keep {
            keep
        } else {
            stamp_order(names).len() as int
        },
        forall|j: int, k: int|
            0 <= j < stale_count(names, keep) <= k < stamp_order(names).len() ==> #[trigger] pair_ok(
                names,
                stamp_order(names),
                j,
                k,
            ),
{
    lemma_stamp_order(names);
}

/// Puts the names in the order of their moments, from the earliest to the
/// latest, and drops those that start with none.
pub fn sort_snapshot_files(files: &mut Vec<String>)
    ensures
        names_view(final(files)@) == in_stamp_order(names_view(old(files)@)),
{
    let order = snapshot_order(files);
    let ghost all = names_view(files@);
    let mut sorted: Vec<String> = Vec::new();
    let mut j: usize = 0;
    while j < order.len()
        invariant
            j <= order.len(),
            all == names_view(files@),
            ordered_by_stamp(all, places_view(order@), files@.len() as int),
            names_view(sorted@) == in_stamp_order_upto(all, places_view(order@), j as int),
        decreases order.len() - j,
    {
        proof {
            assert(place_ok(all, places_view(order@), files@.len() as int, j as int));
        }
        let ghost before = names_view(sorted@);
        let name = files[order[j]].clone();
        sorted.push(name);
        j += 1;
        proof {
            let places = places_view(order@);
            assert(names_view(sorted@) =~= before.push(all[places[j - 1]]));
            assert(places.take(j as int) =~= places.take(j - 1).push(places[j - 1]));
            assert(in_stamp_order_upto(all, places, j as int) =~= in_stamp_order_upto(
                all,
                places,
                j - 1,
            ).push(all[places[j - 1]]));
        }
    }
    proof {
        assert(in_stamp_order_upto(all, places_view(order@), order.len() as int) =~= in_stamp_order(
            all,
        ));
    }
    *files = sorted;
}

/// The names at the first `upto` places of `order`.
pub open spec fn in_stamp_order_upto(names: Seq<Seq<char>>, order: Seq<int>, upto: int) -> Seq<
    Seq<char>,
> {
    order.take(upto).map_values(|i: int| names[i])
}

/// The snapshot files to remove so that the `keep` newest are left.
pub fn old_snapshots(names: &Vec<String>, keep: usize) -> (stale: Vec<String>)
    ensures
        names_view(stale@) == stale_snapshots(names_view(names@), keep as int),
{
    let order = snapshot_order(names);
    let ghost all = names_view(names@);
    let mut stale: Vec<String> = Vec::new();
    if order.len() <= keep {
        proof {
            assert(names_view(stale@) =~= stale_snapshots(all, keep as int));
        }
        return stale;
    }
    let count = order.len() - keep;
    let mut j: usize = 0;
    while j < count
        invariant
            j <= count <= order.len(),
            all == names_view(names@),
            ordered_by_stamp(all, places_view(order@), names@.len() as int),
            names_view(stale@) == in_stamp_order_upto(all, places_view(order@), j as int),
        decreases count - j,
    {
        proof {
            assert(place_ok(all, places_view(order@), names@.len() as int, j as int));
        }
        let ghost before = names_view(stale@);
        let name = names[order[j]].clone();
        stale.push(name);
        j += 1;
        proof {
            let places = places_view(order@);
            assert(names_view(stale@) =~= before.push(all[places[j - 1]]));
            assert(places.take(j as int) =~= places.take(j - 1).push(places[j - 1]));
            assert(in_stamp_order_upto(all, places, j as int) =~= in_stamp_order_upto(
                all,
                places,
                j - 1,
            ).push(all[places[j - 1]]));
        }
    }
    proof {
        assert(in_stamp_order_upto(all, places_view(order@), count as int) =~= stale_snapshots(
            all,
            keep as int,
        ));
    }
    stale
}

/// The ending of a snapshot file's name, after the date.
pub open spec fn snapshot_suffix() -> Seq<char> {
    "-memorydb.dat"@
}

/// The name of the snapshot file that is written at the second `secs`: the
/// date, then `-memorydb.dat`. There is none for a second that has no date.
pub open spec fn snapshot_name(secs: i64) -> Option<Seq<char>> {
    match stamp_text(secs) {
        Some(date) => Some(date + snapshot_suffix()),
        None => None,
    }
}

/// The name of the snapshot file that is written at the second `secs`.
pub fn snapshot_file_name(secs: i64) -> (name: Option<String>)
    ensures
        match name {
            Some(n) => snapshot_name(secs) == Some(n@),
            None => snapshot_name(secs) is None,
        },
{
    match format_stamp(secs) {
        Some(date) => Some(date.concat("-memorydb.dat")),
        None => None,
    }
}

/// Some bytes of the log are no record.
#[derive(Debug, Clone, Copy, PartialEq, Eq, Structural)]
pub struct MalformedLog;

/// The records of a log, as mathematics.
pub open spec fn records_view(records: Seq<DataChangeLog>) -> Seq<RecordModel> {
    records.map_values(|r: DataChangeLog| r@)
}

/// The records that the bytes of a log file hold, in their order, or an
/// error where some bytes are no record.
pub fn read_appended_structs(buffer: &[u8]) -> (read: Result<Vec<DataChangeLog>, MalformedLog>)
    ensures
        match read {
            Ok(records) => read_records(buffer@) == Some(records_view(records@)),
            Err(_) => read_records(buffer@) is None,
        },
{
    let mut structs: Vec<DataChangeLog> = Vec::new();
    let mut offset: usize = 0;
    proof {
        assert(buffer@.skip(0) =~= buffer@);
        let all = read_records(buffer@);
        if all is Some {
            assert(records_view(structs@) + all.unwrap() =~= all.unwrap());
        }
    }
    while offset < buffer.len()
        invariant
            offset <= buffer@.len(),
            read_records(buffer@) == match read_records(buffer@.skip(offset as int)) {
                Some(rest) => Some(records_view(structs@) + rest),
                None => None,
            },
        decreases buffer@.len() - offset,
    {
        let ghost tail = buffer@.skip(offset as int);
        let ghost done = records_view(structs@);
        proof {
            assert(buffer@.subrange(offset as int, buffer@.len() as int) =~= tail);
        }
        match DataChangeLog::from_bytes(slice_subrange(buffer, offset, buffer.len())) {
            Some((next_struct, width)) => {
                proof {
                    assert(tail.skip(width as int) =~= buffer@.skip(offset + width));
                    let after = read_records(tail.skip(width as int));
                    if after is Some {
                        assert(done + (seq![next_struct@] + after.unwrap()) =~= done.push(
                            next_struct@,
                        ) + after.unwrap());
                    }
                }
                structs.push(next_struct);
                offset += width;
                proof {
                    assert(records_view(structs@) =~= done.push(next_struct@));
                }
            },
            None => {
                return Err(MalformedLog);
            },
        }
    }
    proof {
        assert(buffer@.skip(offset as int) =~= Seq::<u8>::empty());
        assert(records_view(structs@) + Seq::<RecordModel>::empty() =~= records_view(structs@));
    }
    Ok(structs)
}

} // verus!
