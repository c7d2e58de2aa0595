//! Erasure-coded sharding of byte blobs over GF(256), and Merkle
//! authentication of ordered sequences of byte values.
pub mod codec;
pub mod error;

pub mod shards;
pub mod merkle;
pub mod membership;

pub use error::{MerkleError, ShardError};
pub use membership::{create_proof_bytes, merkle_proof};
pub use merkle::{append_to_tree, create_tree, get_root, get_root_hex, MerkleIndex};
pub use shards::{from_shards, to_shards};
