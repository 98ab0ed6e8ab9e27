//! A Merkle-style commitment over a batch of announcement records, with
//! deduplication by sort key, a layered pairwise fold with sentinel padding,
//! a commitment encoding and index validation for inclusion proofs.

pub mod buffer;
pub mod fold;
pub mod laws;
pub mod node;
pub mod records;
pub mod tree;
