//! The frame of a request.

use vstd::prelude::*;
use vstd::slice::{slice_subrange, slice_to_vec};
use crate::tcp::protocol::{MAX_BODY, announced_len, frame_bytes, frame_header, lemma_frame_announces};

verus! {

/// Why some bytes are no request: they end before the byte that the error
/// names, or before the end of the body.
#[derive(Debug, Clone, Copy, PartialEq, Eq, Structural)]
pub enum ParsingRequestError {
    InvalidVersion,
    InvalidCommand,
    BodylengthMissmatch,
}

/// A request as it arrives: its bytes are taken apart, and not yet read.
#[derive(Debug, PartialEq, Eq)]
pub struct RawRequest {
    pub version: u8,
    pub command: u8,
    pub body: Vec<u8>,
}

/// What reading a request from `bytes` gives: the error of the first part
/// that is missing, or nothing where a whole request is there.
pub open spec fn request_error(bytes: Seq<u8>) -> Option<ParsingRequestError> {
    if bytes.len() == 0 {
        Some(ParsingRequestError::InvalidVersion)
    } else if bytes.len() < 4 {
        Some(ParsingRequestError::InvalidCommand)
    } else if bytes.len() < 4 + announced_len(bytes) {
        Some(ParsingRequestError::BodylengthMissmatch)
    } else {
        None
    }
}

impl RawRequest {
    /// A request of version 0.
    pub fn new(command: u8, body: Vec<u8>) -> (request: Self)
        ensures
            request.version == 0,
            request.command == command,
            request.body == body,
    {
        Self { command, body, version: 0 }
    }

    /// The bytes of the request's frame, or nothing where the body is
    /// longer than a frame can carry.
    pub fn to_bytes(&self) -> (out: Option<Vec<u8>>)
        ensures
            match out {
                Some(bytes) => {
                    &&& self.body@.len() <= MAX_BODY
                    &&& bytes@ == frame_bytes(self.version, self.command, self.body@)
                },
                None => self.body@.len() > MAX_BODY,
            },
    {
        if self.body.len() > MAX_BODY {
            return None;
        }
        let mut to_write = frame_header(self.version, self.command, self.body.len());
        let mut body = self.body.clone();
        to_write.append(&mut body);
        Some(to_write)
    }

    /// The request at the start of `bytes` and the number of bytes that its
    /// frame takes, or the error of the first part that is missing.
    pub fn from_bytes(bytes: &[u8]) -> (read: Result<(RawRequest, usize), ParsingRequestError>)
        ensures
            match read {
                Ok((request, width)) => {
                    &&& request_error(bytes@) is None
                    &&& width == 4 + announced_len(bytes@)
                    &&& request.version == bytes@[0]
                    &&& request.command == bytes@[1]
                    &&& request.body@ == bytes@.subrange(4, width as int)
                },
                Err(e) => request_error(bytes@) == Some(e),
            },
    {
        if bytes.len() == 0 {
            return Err(ParsingRequestError::InvalidVersion);
        }
        if bytes.len() < 4 {
            return Err(ParsingRequestError::InvalidCommand);
        }
        let body_len: usize = bytes[2] as usize * 256 + bytes[3] as usize;
        if bytes.len() - 4 < body_len {
            return Err(ParsingRequestError::BodylengthMissmatch);
        }
        let body = slice_to_vec(slice_subrange(bytes, 4, 4 + body_len));
        Ok((RawRequest { version: bytes[0], command: bytes[1], body }, 4 + body_len))
    }

    /// A request that is written and read again is itself, whatever follows
    /// it.
    pub proof fn lemma_read_of_bytes(&self, rest: Seq<u8>)
        requires
            self.body@.len() <= MAX_BODY,
        ensures
            request_error(frame_bytes(self.version, self.command, self.body@) + rest) is None,
            announced_len(frame_bytes(self.version, self.command, self.body@) + rest)
                == self.body@.len(),
            (frame_bytes(self.version, self.command, self.body@) + rest)[0] == self.version,
            (frame_bytes(self.version, self.command, self.body@) + rest)[1] == self.command,
            (frame_bytes(self.version, self.command, self.body@) + rest).subrange(
                4,
                4 + self.body@.len() as int,
            ) == self.body@,
    {
        lemma_frame_announces(self.version, self.command, self.body@, rest);
    }
}

} // verus!
