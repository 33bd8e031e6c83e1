//! A sharded, replicated key-value store for shopping lists.
//!
//! Each value is an add-wins set CRDT ([`crdt::AWSet`]) carrying a causal
//! context; replicas converge by a join-semilattice merge. Keys are mapped
//! to owning nodes by a static modulo partitioner ([`partition`]), writes
//! fan out to a fixed preference list with a sloppy quorum and hinted
//! handoff ([`protocol`]), and quorum reads repair stale replicas.
use vstd::prelude::*;

pub mod crdt;
pub mod failure;
pub mod laws;
pub mod partition;
pub mod protocol;
pub mod strutil;
pub mod wire;

verus! {

/// The fixed replication factor: an owner plus two further replicas.
pub const REPLICATION_FACTOR: u32 = 3;

} // verus!
