//! A small network key-value cache: a store of expiring typed values
//! driven by a line-oriented `GET`/`SET` protocol, with whole-store
//! snapshot persistence.  The store, the snapshot codec, the protocol
//! parser and the per-request dispatch are verified; the surrounding
//! TCP server supplies buffers, instants and file I/O.

pub mod db;
pub mod laws;
pub mod parser;
pub mod session;
pub mod snapshot;
pub mod text;

use vstd::prelude::*;

verus! {

/// Seconds of time-to-live applied when a `SET` request carries a ttl token
/// that does not parse as a non-negative integer, or none at all.
pub const DEFAULT_TTL_SECS: u64 = 1000;

} // verus!
