use vstd::prelude::*;

verus! {

/// Failures of sharding and reconstruction.
#[derive(Debug, Clone, Copy, PartialEq, Eq, Structural)]
pub enum ShardError {
    /// The node and fault counts do not describe a usable scheme.
    Config,
    /// The padding trailer would need a length that does not fit in one byte.
    PaddingOverflow,
    /// Shards do not have a usable shape.
    Shape,
    /// Fewer shards are present than data shards are needed.
    InsufficientShards,
    /// The codec failed where its preconditions were met.
    Internal,
}

/// Failures of the Merkle index and of its proofs.
#[derive(Debug, Clone, Copy, PartialEq, Eq, Structural)]
pub enum MerkleError {
    /// The tree has no leaves, or none were given.
    Empty,
    /// A leaf index lies beyond the tree's leaves.
    Index,
    /// Serialized proof bytes are malformed.
    ProofFormat,
}

} // verus!
