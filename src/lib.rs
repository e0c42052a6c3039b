//! A Merkle tree over an ordered sequence of elements, stored as an implicit
//! binary tree in a flat array, with inclusion proofs, their verification, and
//! copy-on-write insertion and deletion.
use vstd::prelude::*;

pub mod digest;
pub mod merkle_tree;
pub mod model;
pub mod width;

pub use digest::{hash_element, hash_nodes, Hashable};
pub use merkle_tree::{verify, verify_tree_element, MerkleError, MerkleTree};

verus! {

} // verus!
