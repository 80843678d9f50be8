//! A replicated in-memory key-value store: the state store, its queries, the
//! write-ahead log and snapshot files that make it durable, the log storage
//! that a Raft node reads and writes, and the handling of one batch of the
//! node's output.

pub mod encoding;
pub mod log;
pub mod node_state;
pub mod prelude;
pub mod tcp;
pub mod tcp_server;
pub mod public_api;
pub mod state;
pub mod storage;
