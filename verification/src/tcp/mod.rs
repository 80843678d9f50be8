//! The wire protocol of the server: frames, and the commands that they carry.

pub mod protocol;
pub mod server;
