//! The durable state of a node: the store, the write-ahead log that is
//! replayed into it and the snapshot files that are loaded into it.

pub mod node_state;
pub mod utils;

use vstd::prelude::*;

verus! {

/// The pattern of the date at the start of a snapshot file's name.
pub const DATE_FMT: &'static str = "%Y-%m-%d-%H:%M:%S";

/// The number of bytes that a date of this pattern takes in a file's name.
pub const DATE_LEN: usize = 19;

/// The number of snapshot files that are kept.
pub const SNAPSHOT_KEEP_AMOUNT: usize = 10;

/// The seconds between two snapshots.
pub const SNAPSHOT_WRITE_INTERVAL_SEC: u64 = 60;

} // verus!
