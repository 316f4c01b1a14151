//! A binary Merkle commitment over token records, with sibling-path proofs.

pub mod felt;
pub mod hash;
pub mod laws;
pub mod merkle;

pub use felt::{convert_to_felt, felt_to_b16, string_to_hex, Felt};
pub use hash::hash;
pub use merkle::{leaf_value, Attribute, CairoCalldata, MerkleTree, Node, Token};
