//! A microbenchmark core for passing a synchronization token around closed
//! rings of cooperating tasks.
//!
//! The library holds the verified logic of the benchmark: the ring topology
//! plan (`topology`), the per-task turn-taking protocol (`protocol`), a
//! verified round-by-round model of a ring run (`model`), the deadlock
//! freedom of the protocol under every interleaving (`liveness`), and the
//! wiring of real bounded channel endpoints into rings (`ring`). The async
//! executor that drives the tasks lives outside the library.

pub mod protocol;
pub mod topology;
pub mod model;
pub mod ring;
pub mod liveness;

use vstd::prelude::*;

verus! {

/// Capacity of every signaling channel in a ring. Any capacity of at least
/// one preserves liveness; it only bounds how far a fast task may race ahead.
pub const CHANNEL_CAPACITY: usize = 10;

} // verus!
