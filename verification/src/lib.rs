//! An RPC framework that carries calls over a shared list broker instead of
//! sockets: a caller pushes an encoded request onto a queue named after the
//! target object, a pool of workers pops, dispatches to a registered
//! handler, and pushes the reply onto a per-call queue the caller awaits.
//!
//! The codec, the envelopes and their exact round-trip behaviour, the
//! registry, the dispatch and reply rules, and the pool's backpressure
//! discipline are all specified and proved here; moving bytes over a real
//! broker is left to the runtime around the library.

pub mod client;
pub mod codec;
pub mod error;
pub mod pool;
pub mod protocol;
pub mod registry;
pub mod server;

use vstd::prelude::*;

verus! {

/// Number of seconds a reply queue lives after the response is pushed.
pub const RESPONSE_TTL_SECS: u64 = 300;

/// Timeout, in seconds, of one blocking pop issued by the dispatch loop.
pub const PULL_TIMEOUT_SECS: u64 = 10;

} // verus!
