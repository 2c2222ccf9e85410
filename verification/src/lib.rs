//! A hash-tree (Merkle tree) engine.
//!
//! Input bytes are cut into fixed-size blocks, each block is hashed into a
//! leaf digest, and digests are aggregated pairwise, bottom up, into a single
//! root digest that fingerprints the whole content.  A consistency check
//! recomputes every stored digest from its subtree and so detects tampering.

pub mod hash_tree;
mod hashing;
pub mod merkle;

pub use crate::merkle::MerkleTree;
