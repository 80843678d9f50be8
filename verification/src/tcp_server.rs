//! A server that takes its requests as text: header lines of the form
//! `key=value`, a carriage return, and a body.
//!
//! Bytes become text through `String::from_utf8`, in a function that is
//! taken on trust.

use vstd::prelude::*;
use vstd::utf8::*;
use vstd::slice::{slice_subrange, slice_to_vec};
use vstd::string::StringExecFns;
use crate::node_state::NodeState;

verus! {

/// The place of the first `sep` in `bytes`, or their length where there is
/// none.
pub open spec fn find(bytes: Seq<u8>, sep: u8) -> int
    decreases bytes.len(),
{
    if bytes.len() == 0 {
        0
    } else if bytes[0] == sep {
        0
    } else {
        1 + find(bytes.skip(1), sep)
    }
}

/// The bytes before the first `sep`; all of them where there is none.
pub open spec fn before(bytes: Seq<u8>, sep: u8) -> Seq<u8> {
    bytes.take(find(bytes, sep))
}

/// The bytes after the first `sep`, where there is one.
pub open spec fn after(bytes: Seq<u8>, sep: u8) -> Option<Seq<u8>> {
    if find(bytes, sep) < bytes.len() {
        Some(bytes.skip(find(bytes, sep) + 1))
    } else {
        None
    }
}

/// A place that holds `sep`, or the end, with no `sep` before it, is the
/// place that `find` gives.
pub proof fn lemma_find(bytes: Seq<u8>, sep: u8, at: int)
    requires
        0 <= at <= bytes.len(),
        forall|i: int| 0 <= i < at ==> bytes[i] != sep,
        at == bytes.len() || bytes[at] == sep,
    ensures
        find(bytes, sep) == at,
    decreases bytes.len(),
{
    if bytes.len() > 0 && at > 0 {
        let rest = bytes.skip(1);
        assert forall|i: int| 0 <= i < at - 1 implies rest[i] != sep by {
            assert(rest[i] == bytes[i + 1]);
        }
        lemma_find(rest, sep, at - 1);
    }
}

/// A header: a key and its value.
pub type Header = (Seq<char>, Seq<char>);

/// The header that a line holds: the text before the first `=` is the key,
/// the text after it and before the next `=` the value. A line without `=`
/// holds none, nor does one whose key or value is not UTF-8.
pub open spec fn read_header(line: Seq<u8>) -> Option<Header> {
    match after(line, 61u8) {
        Some(rest) => if valid_utf8(before(line, 61u8)) && valid_utf8(before(rest, 61u8)) {
            Some((decode_utf8(before(line, 61u8)), decode_utf8(before(rest, 61u8))))
        } else {
            None
        },
        None => None,
    }
}

/// The headers that lines hold, one line after the other, the lines parted
/// by line feeds. There are none where some line holds no header.
pub open spec fn read_headers(lines: Seq<u8>) -> Option<Seq<Header>>
    decreases lines.len(),
    via read_headers_decreases
{
    match read_header(before(lines, 10u8)) {
        Some(header) => match after(lines, 10u8) {
            Some(rest) => match read_headers(rest) {
                Some(others) => Some(seq![header] + others),
                None => None,
            },
            None => Some(seq![header]),
        },
        None => None,
    }
}

#[via_fn]
proof fn read_headers_decreases(lines: Seq<u8>) {
    lemma_find_bounds(lines, 10u8);
}

/// The place that `find` gives lies within the bytes or at their end.
pub proof fn lemma_find_bounds(bytes: Seq<u8>, sep: u8)
    ensures
        0 <= find(bytes, sep) <= bytes.len(),
    decreases bytes.len(),
{
    if bytes.len() > 0 && bytes[0] != sep {
        lemma_find_bounds(bytes.skip(1), sep);
    }
}

/// The headers and the body that a payload holds: the header lines stand
/// before the first carriage return, the body after it and before the next.
/// There is nothing where the payload holds no carriage return, a line
/// holds no header or the body is not UTF-8.
pub open spec fn read_payload(payload: Seq<u8>) -> Option<(Seq<Header>, Seq<char>)> {
    match after(payload, 13u8) {
        Some(rest) => match read_headers(before(payload, 13u8)) {
            Some(headers) => if valid_utf8(before(rest, 13u8)) {
                Some((headers, decode_utf8(before(rest, 13u8))))
            } else {
                None
            },
            None => None,
        },
        None => None,
    }
}

/// What a payload holds.
#[derive(Debug, PartialEq, Eq)]
pub struct Payload {
    pub headers: Vec<(String, String)>,
    pub body: String,
}

/// The headers of a list, as mathematics.
pub open spec fn headers_view(headers: Seq<(String, String)>) -> Seq<Header> {
    headers.map_values(|h: (String, String)| (h.0@, h.1@))
}

/// `String::from_utf8`: the text that the bytes are the UTF-8 form of, or
/// nothing where they are not UTF-8.
#[verifier::external_body]
fn text_of(bytes: Vec<u8>) -> (text: Option<String>)
    ensures
        match text {
            Some(t) => valid_utf8(bytes@) && t@ == decode_utf8(bytes@),
            None => !valid_utf8(bytes@),
        },
{
    String::from_utf8(bytes).ok()
}

/// The place of the first `sep` in `bytes`, or their length where there is
/// none.
fn position(bytes: &[u8], sep: u8) -> (at: usize)
    ensures
        at == find(bytes@, sep),
        at <= bytes@.len(),
{
    let mut at: usize = 0;
    while at < bytes.len() && bytes[at] != sep
        invariant
            at <= bytes@.len(),
            forall|i: int| 0 <= i < at ==> bytes@[i] != sep,
        decreases bytes@.len() - at,
    {
        at += 1;
    }
    proof {
        lemma_find(bytes@, sep, at as int);
    }
    at
}

/// The header that a line holds, if it holds one.
fn parse_header(line: &[u8]) -> (header: Option<(String, String)>)
    ensures
        match header {
            Some(h) => read_header(line@) == Some((h.0@, h.1@)),
            None => read_header(line@) is None,
        },
{
    let split = position(line, 61u8);
    if split >= line.len() {
        return None;
    }
    let rest = slice_subrange(line, split + 1, line.len());
    let end = position(rest, 61u8);
    proof {
        assert(line@.subrange(0, split as int) =~= before(line@, 61u8));
        assert(rest@ =~= after(line@, 61u8).unwrap());
        assert(rest@.subrange(0, end as int) =~= before(rest@, 61u8));
    }
    let key = match text_of(slice_to_vec(slice_subrange(line, 0, split))) {
        Some(key) => key,
        None => { return None; },
    };
    match text_of(slice_to_vec(slice_subrange(rest, 0, end))) {
        Some(value) => Some((key, value)),
        None => None,
    }
}

/// The server: the address that it listens on, and the node that it serves.
pub struct TcpServer {
    pub address: String,
    pub state: NodeState,
}

impl TcpServer {
    /// A server for `address` over `state`.
    pub fn new(address: &str, state: NodeState) -> (server: Self)
        ensures
            server.address@ == address@,
            server.state == state,
    {
        TcpServer { address: String::from_str(address), state }
    }

    /// Takes a payload apart into its headers and its body, or gives
    /// nothing where the payload holds none.
    pub fn parse_payload(payload: &[u8]) -> (parsed: Option<Payload>)
        ensures
            match parsed {
                Some(p) => read_payload(payload@) == Some((headers_view(p.headers@), p.body@)),
                None => read_payload(payload@) is None,
            },
    {
        let split = position(payload, 13u8);
        if split >= payload.len() {
            return None;
        }
        let header_bytes = slice_subrange(payload, 0, split);
        let rest = slice_subrange(payload, split + 1, payload.len());
        let end = position(rest, 13u8);
        proof {
            assert(header_bytes@ =~= before(payload@, 13u8));
            assert(rest@ =~= after(payload@, 13u8).unwrap());
            assert(rest@.subrange(0, end as int) =~= before(rest@, 13u8));
        }
        let mut headers: Vec<(String, String)> = Vec::new();
        let mut from: usize = 0;
        proof {
            assert(header_bytes@.skip(0) =~= header_bytes@);
            let all = read_headers(header_bytes@);
            if all is Some {
                assert(headers_view(headers@) + all.unwrap() =~= all.unwrap());
            }
        }
        loop
            invariant_except_break
                from <= header_bytes@.len(),
                read_headers(header_bytes@) == match read_headers(
                    header_bytes@.skip(from as int),
                ) {
                    Some(others) => Some(headers_view(headers@) + others),
                    None => None,
                },
            invariant
                header_bytes@ == before(payload@, 13u8),
                after(payload@, 13u8) is Some,
            ensures
                read_headers(header_bytes@) == Some(headers_view(headers@)),
            decreases header_bytes@.len() - from,
        {
            let lines = slice_subrange(header_bytes, from, header_bytes.len());
            let ghost done = headers_view(headers@);
            proof {
                assert(lines@ =~= header_bytes@.skip(from as int));
            }
            let line_end = position(lines, 10u8);
            proof {
                assert(lines@.subrange(0, line_end as int) =~= before(lines@, 10u8));
            }
            let header = match parse_header(slice_subrange(lines, 0, line_end)) {
                Some(header) => header,
                None => { return None; },
            };
            headers.push(header);
            proof {
                assert(headers_view(headers@) =~= done.push((header.0@, header.1@)));
            }
            if line_end >= lines.len() {
                proof {
                    assert(done + seq![(header.0@, header.1@)] =~= done.push(
                        (header.0@, header.1@),
                    ));
                }
                break ;
            }
            proof {
                let rest_lines = after(lines@, 10u8).unwrap();
                assert(rest_lines =~= header_bytes@.skip(from + line_end + 1));
                let others = read_headers(rest_lines);
                if others is Some {
                    assert(done + (seq![(header.0@, header.1@)] + others.unwrap()) =~= done.push(
                        (header.0@, header.1@),
                    ) + others.unwrap());
                }
            }
            from = from + line_end + 1;
        }
        match text_of(slice_to_vec(slice_subrange(rest, 0, end))) {
            Some(body) => Some(Payload { headers, body }),
            None => None,
        }
    }
}

} // verus!
