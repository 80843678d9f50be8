//! The frame of a response.

use vstd::prelude::*;
use vstd::slice::{slice_subrange, slice_to_vec};
use crate::tcp::protocol::{MAX_BODY, announced_len, frame_bytes, frame_header, lemma_frame_announces};

verus! {

/// A response as it is sent: the parts of its frame.
#[derive(Debug, PartialEq, Eq)]
pub struct RawResponse {
    pub version: u8,
    pub kind: u8,
    pub body: Vec<u8>,
}

/// Why some bytes are no response: they end before the part that the error
/// names, or before the end of the body.
#[derive(Debug, Clone, Copy, PartialEq, Eq, Structural)]
pub enum ParsingResponseError {
    InvalidVersion,
    InvalidType,
    InvalidBodyLen,
    BodylengthMissmatch,
}

/// What reading a response from `bytes` gives: the error of the first part
/// that is missing, or nothing where a whole response is there.
pub open spec fn response_error(bytes: Seq<u8>) -> Option<ParsingResponseError> {
    if bytes.len() == 0 {
        Some(ParsingResponseError::InvalidVersion)
    } else if bytes.len() == 1 {
        Some(ParsingResponseError::InvalidType)
    } else if bytes.len() < 4 {
        Some(ParsingResponseError::InvalidBodyLen)
    } else if bytes.len() < 4 + announced_len(bytes) {
        Some(ParsingResponseError::BodylengthMissmatch)
    } else {
        None
    }
}

impl RawResponse {
    /// A response of version 0.
    pub fn new(kind: u8, body: Vec<u8>) -> (response: Self)
        ensures
            response.version == 0,
            response.kind == kind,
            response.body == body,
    {
        RawResponse { version: 0, kind, body }
    }

    /// The bytes of the response's frame, or nothing where the body is
    /// longer than a frame can carry.
    pub fn to_bytes(&self) -> (out: Option<Vec<u8>>)
        ensures
            match out {
                Some(bytes) => {
                    &&& self.body@.len() <= MAX_BODY
                    &&& bytes@ == frame_bytes(self.version, self.kind, self.body@)
                },
                None => self.body@.len() > MAX_BODY,
            },
    {
        if self.body.len() > MAX_BODY {
            return None;
        }
        let mut to_write = frame_header(self.version, self.kind, self.body.len());
        let mut body = self.body.clone();
        to_write.append(&mut body);
        Some(to_write)
    }

    /// The response at the start of `bytes` and the number of bytes that its
    /// frame takes, or the error of the first part that is missing.
    pub fn from_bytes(bytes: &[u8]) -> (read: Result<(RawResponse, usize), ParsingResponseError>)
        ensures
            match read {
                Ok((response, width)) => {
                    &&& response_error(bytes@) is None
                    &&& width == 4 + announced_len(bytes@)
                    &&& response.version == bytes@[0]
                    &&& response.kind == bytes@[1]
                    &&& response.body@ == bytes@.subrange(4, width as int)
                },
                Err(e) => response_error(bytes@) == Some(e),
            },
    {
        if bytes.len() == 0 {
            return Err(ParsingResponseError::InvalidVersion);
        }
        if bytes.len() == 1 {
            return Err(ParsingResponseError::InvalidType);
        }
        if bytes.len() < 4 {
            return Err(ParsingResponseError::InvalidBodyLen);
        }
        let body_len: usize = bytes[2] as usize * 256 + bytes[3] as usize;
        if bytes.len() - 4 < body_len {
            return Err(ParsingResponseError::BodylengthMissmatch);
        }
        let body = slice_to_vec(slice_subrange(bytes, 4, 4 + body_len));
        Ok((RawResponse { version: bytes[0], kind: bytes[1], body }, 4 + body_len))
    }

    /// A response that is written and read again is itself, whatever
    /// follows it.
    pub proof fn lemma_read_of_bytes(&self, rest: Seq<u8>)
        requires
            self.body@.len() <= MAX_BODY,
        ensures
            response_error(frame_bytes(self.version, self.kind, self.body@) + rest) is None,
            announced_len(frame_bytes(self.version, self.kind, self.body@) + rest)
                == self.body@.len(),
            (frame_bytes(self.version, self.kind, self.body@) + rest)[0] == self.version,
            (frame_bytes(self.version, self.kind, self.body@) + rest)[1] == self.kind,
            (frame_bytes(self.version, self.kind, self.body@) + rest).subrange(
                4,
                4 + self.body@.len() as int,
            ) == self.body@,
    {
        lemma_frame_announces(self.version, self.kind, self.body@, rest);
    }
}

} // verus!
