//! Core of a node-based multi-worker scheduler: per-node idle queues packed in
//! one word, per-node run queues, and the cluster-wide shutdown cascade.
use vstd::prelude::*;

pub mod idle;
pub mod node;
pub mod cluster;
pub mod laws;

verus! {

} // verus!
