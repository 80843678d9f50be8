//! What a client can ask of the store.

pub mod dataquery;
pub mod protocol;
