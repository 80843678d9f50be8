//! The frames of the protocol. A frame is a version byte, a byte that names
//! a command or a kind of answer, the length of the body as two bytes, the
//! higher first, and the body.

pub mod request;
pub mod response;

use vstd::prelude::*;

verus! {

/// The longest body that a frame can carry.
pub const MAX_BODY: usize = 65535;

/// The bytes of a frame.
pub open spec fn frame_bytes(version: u8, tag: u8, body: Seq<u8>) -> Seq<u8> {
    seq![version, tag, (body.len() / 256) as u8, (body.len() % 256) as u8] + body
}

/// The length of the body that the header of a frame announces.
pub open spec fn announced_len(bytes: Seq<u8>) -> int
    recommends
        bytes.len() >= 4,
{
    bytes[2] as int * 256 + bytes[3] as int
}

/// The header of a frame announces the length of its body.
pub proof fn lemma_frame_announces(version: u8, tag: u8, body: Seq<u8>, rest: Seq<u8>)
    requires
        body.len() <= MAX_BODY,
    ensures
        frame_bytes(version, tag, body).len() == 4 + body.len(),
        (frame_bytes(version, tag, body) + rest)[0] == version,
        (frame_bytes(version, tag, body) + rest)[1] == tag,
        announced_len(frame_bytes(version, tag, body) + rest) == body.len(),
        (frame_bytes(version, tag, body) + rest).subrange(4, 4 + body.len() as int) == body,
{
    let all = frame_bytes(version, tag, body) + rest;
    assert(all[2] == (body.len() / 256) as u8);
    assert(all[3] == (body.len() % 256) as u8);
    assert(all.subrange(4, 4 + body.len() as int) =~= body);
}

/// The four bytes of a frame's header.
pub(crate) fn frame_header(version: u8, tag: u8, len: usize) -> (out: Vec<u8>)
    requires
        len <= MAX_BODY,
    ensures
        out@ == seq![version, tag, (len / 256) as u8, (len % 256) as u8],
{
    let mut out: Vec<u8> = Vec::new();
    out.push(version);
    out.push(tag);
    out.push((len / 256) as u8);
    out.push((len % 256) as u8);
    assert(out@ =~= seq![version, tag, (len / 256) as u8, (len % 256) as u8]);
    out
}

} // verus!
