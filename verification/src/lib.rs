use vstd::prelude::*;

pub mod ann;
pub mod bits;
pub mod builder;
pub mod rng;
pub mod store;
pub mod topk;
pub mod tree;
pub mod utils;

verus! {

/// Identifier of an embedding held by the store.
pub type NodeID = usize;

} // verus!
