//! What a request asks for, once its command and body are read.

use vstd::prelude::*;
use crate::public_api::dataquery::{DataQuery, InvalidBody, QueryModel, read_query};
use crate::tcp::server::CommandV0;

verus! {

/// What a request asks for.
#[derive(Debug, PartialEq, Eq)]
pub enum Request {
    DataQuery(DataQuery),
    Ping,
}

/// What a request asks for, as mathematics.
pub enum RequestModel {
    DataQuery(QueryModel),
    Ping,
}

/// The answer to a request, before it is framed.
#[derive(Debug, Clone, Copy, PartialEq, Eq, Structural)]
pub struct Response;

impl View for Request {
    type V = RequestModel;

    open spec fn view(&self) -> RequestModel {
        match self {
            Request::DataQuery(q) => RequestModel::DataQuery(q@),
            Request::Ping => RequestModel::Ping,
        }
    }
}

impl Clone for Request {
    fn clone(&self) -> (res: Self)
        ensures
            res@ == self@,
    {
        match self {
            Request::DataQuery(q) => Request::DataQuery(q.clone()),
            Request::Ping => Request::Ping,
        }
    }
}

/// What a command and a body ask for: a ping, whatever the body, or the
/// query that they stand for. They ask for nothing where the body is no
/// query of the command's kind.
pub open spec fn read_request(cmd: CommandV0, body: Seq<u8>) -> Option<RequestModel> {
    if cmd == CommandV0::Ping {
        Some(RequestModel::Ping)
    } else {
        match read_query(cmd, body) {
            Some(q) => Some(RequestModel::DataQuery(q)),
            None => None,
        }
    }
}

impl Request {
    /// What a command and a body ask for, or an error where they ask for
    /// nothing.
    pub fn from_command(cmd: CommandV0, body: Vec<u8>) -> (res: Result<Request, InvalidBody>)
        ensures
            match res {
                Ok(request) => read_request(cmd, body@) == Some(request@),
                Err(_) => read_request(cmd, body@) is None,
            },
    {
        match cmd {
            CommandV0::Ping => Ok(Request::Ping),
            _ => match DataQuery::try_from((cmd, body)) {
                Ok(query) => Ok(Request::DataQuery(query)),
                Err(e) => Err(e),
            },
        }
    }
}

} // verus!
