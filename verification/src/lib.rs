//! Core of a multi-replica file synchronization engine.
//!
//! The library tracks the last-known state of N filesystem replicas and
//! detects where they have diverged since the previous run. It provides the
//! persistent archive store (versioned binary state files, entry pruning) and
//! the single-directory, multi-replica scan logic that produces the raw
//! per-path state used by difference detection.
//!
//! All filesystem and locking I/O lives outside this crate; the functions
//! here work on plain values (byte vectors, path strings, directory
//! listings) handed in by the caller.

use vstd::prelude::*;

pub mod archive;
pub mod codec;
pub mod config;
pub mod detect;
pub mod state;
pub mod util;

verus! {

/// A type representing an index into a list of replicas.
pub type ReplicaIndex = usize;

} // verus!
