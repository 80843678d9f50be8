//! The commands of the protocol, and what the server answers to a request.

use vstd::prelude::*;
use vstd::std_specs::convert::TryFromSpecImpl;
use vstd::string::StringExecFns;
use crate::public_api::protocol::{Request, read_request};
use crate::state::node_state::State;
use crate::tcp::protocol::request::RawRequest;
use crate::tcp::protocol::response::RawResponse;

verus! {

/// A command of version 0 of the protocol, by the byte that stands for it.
#[derive(Debug, Copy, Clone, PartialEq, Eq, Structural)]
pub enum CommandV0 {
    /// 0
    Ping,
    /// 1
    Get,
    /// 2
    Put,
    /// 3
    Delete,
}

/// The command that a byte stands for, if it stands for one.
pub open spec fn command_of(byte: u8) -> Option<CommandV0> {
    if byte == 0 {
        Some(CommandV0::Ping)
    } else if byte == 1 {
        Some(CommandV0::Get)
    } else if byte == 2 {
        Some(CommandV0::Put)
    } else if byte == 3 {
        Some(CommandV0::Delete)
    } else {
        None
    }
}

impl CommandV0 {
    /// The byte that stands for the command.
    pub open spec fn spec_byte(self) -> u8 {
        match self {
            CommandV0::Ping => 0,
            CommandV0::Get => 1,
            CommandV0::Put => 2,
            CommandV0::Delete => 3,
        }
    }

    /// The byte that stands for the command.
    #[verifier::when_used_as_spec(spec_byte)]
    pub fn byte(self) -> (b: u8)
        ensures
            b == self.spec_byte(),
            command_of(b) == Some(self),
    {
        match self {
            CommandV0::Ping => 0,
            CommandV0::Get => 1,
            CommandV0::Put => 2,
            CommandV0::Delete => 3,
        }
    }
}

impl TryFromSpecImpl<u8> for CommandV0 {
    open spec fn obeys_try_from_spec() -> bool {
        true
    }

    open spec fn try_from_spec(v: u8) -> Result<Self, ()> {
        match command_of(v) {
            Some(c) => Ok(c),
            None => Err(()),
        }
    }
}

impl TryFrom<u8> for CommandV0 {
    type Error = ();

    /// The command that `value` stands for; an error for a byte above 3.
    fn try_from(value: u8) -> (res: Result<Self, ()>)
        ensures
            match res {
                Ok(c) => command_of(value) == Some(c),
                Err(_) => command_of(value) is None,
            },
    {
        let res = match value {
            0 => CommandV0::Ping,
            1 => CommandV0::Get,
            2 => CommandV0::Put,
            3 => CommandV0::Delete,
            _ => { return Err(()); },
        };
        Ok(res)
    }
}

/// Why a request gets no answer, and its connection is closed.
#[derive(Debug, Clone, Copy, PartialEq, Eq, Structural)]
pub enum ProtocolError {
    /// The command byte stands for no command.
    InvalidCommand,
    /// The body is no query of the command's kind.
    InvalidBody,
}

/// The answer to a request, and the bytes to append to the write-ahead log
/// before the answer is sent.
#[derive(Debug, PartialEq, Eq)]
pub struct Reply {
    pub response: RawResponse,
    pub wal: Vec<u8>,
}

/// Why a request gets no answer, if it gets none.
pub open spec fn request_refusal(command: u8, body: Seq<u8>) -> Option<ProtocolError> {
    match command_of(command) {
        None => Some(ProtocolError::InvalidCommand),
        Some(cmd) => if read_request(cmd, body) is None {
            Some(ProtocolError::InvalidBody)
        } else {
            None
        },
    }
}

/// The server: the address that it listens on, and the state that it
/// answers from.
pub struct TcpServer {
    pub address: String,
    pub state: State,
}

impl TcpServer {
    /// A server for `address` over `state`.
    pub fn new(address: &str, state: State) -> (server: Self)
        ensures
            server.address@ == address@,
            server.state == state,
    {
        TcpServer { address: String::from_str(address), state }
    }

    /// Answers a request. A request whose command byte stands for no
    /// command, or whose body is no query of the command's kind, gets no
    /// answer and changes nothing. Any other is run on the store, and is
    /// answered by a response whose version and kind bytes are 0.
    pub fn handle_request(&mut self, request: RawRequest) -> (res: Result<Reply, ProtocolError>)
        ensures
            final(self).address == old(self).address,
            match res {
                Ok(reply) => {
                    let asked = read_request(
                        command_of(request.command).unwrap(),
                        request.body@,
                    ).unwrap();
                    &&& request_refusal(request.command, request.body@) is None
                    &&& reply.response.version == 0
                    &&& reply.response.kind == 0
                    &&& reply.response.body@ == asked.answer(old(self).state.store@)
                    &&& final(self).state.store@ == asked.effect(old(self).state.store@)
                    &&& exists|date: i64| reply.wal@ == #[trigger] asked.logged(date)
                },
                Err(e) => {
                    &&& request_refusal(request.command, request.body@) == Some(e)
                    &&& final(self).state.store@ == old(self).state.store@
                },
            },
    {
        let cmd = match CommandV0::try_from(request.command) {
            Ok(cmd) => cmd,
            Err(_) => { return Err(ProtocolError::InvalidCommand); },
        };
        let incoming = match Request::from_command(cmd, request.body) {
            Ok(incoming) => incoming,
            Err(_) => { return Err(ProtocolError::InvalidBody); },
        };
        let outcome = self.state.handle_incoming(incoming);
        Ok(Reply { response: RawResponse::new(0, outcome.response), wal: outcome.wal })
    }
}

} // verus!
