//! The ways in which an operation on the ring can fail.

use vstd::prelude::*;

verus! {

/// Why an operation on the ring or on its index was refused.
#[derive(Clone, Copy, Debug, PartialEq, Eq, Structural)]
pub enum RingError {
    /// The replica count given at construction was zero or negative.
    InvalidReplicaCount,
    /// One of the key's positions is taken, by another key or by the key itself.
    NodeAlreadyExists,
    /// The key is not registered.
    NodeNotFound,
    /// The last key was deleted: nothing is left to inherit its value.
    NoRemainingNodes,
    /// The index already holds the position.
    DuplicateVirtualNode,
    /// The index does not hold a position that it was asked to give up.
    ConsistencyViolation,
    /// The heir's value refused to absorb the evicted one.
    MergeRejected,
}

impl RingError {
    /// The text of `message`.
    pub open spec fn text(self) -> Seq<char> {
        match self {
            RingError::InvalidReplicaCount => "replica count must be greater than 0"@,
            RingError::NodeAlreadyExists => "Key already in ring"@,
            RingError::NodeNotFound => "Key does not exist in ring"@,
            RingError::NoRemainingNodes => "No node is left to merge into"@,
            RingError::DuplicateVirtualNode => "Position already in index"@,
            RingError::ConsistencyViolation => "Position missing from index"@,
            RingError::MergeRejected => "Value could not be merged"@,
        }
    }

    /// A sentence for a human reader.
    pub fn message(&self) -> (out: String)
        ensures
            out@ == self.text(),
    {
        match self {
            RingError::InvalidReplicaCount => "replica count must be greater than 0".to_owned(),
            RingError::NodeAlreadyExists => "Key already in ring".to_owned(),
            RingError::NodeNotFound => "Key does not exist in ring".to_owned(),
            RingError::NoRemainingNodes => "No node is left to merge into".to_owned(),
            RingError::DuplicateVirtualNode => "Position already in index".to_owned(),
            RingError::ConsistencyViolation => "Position missing from index".to_owned(),
            RingError::MergeRejected => "Value could not be merged".to_owned(),
        }
    }
}

} // verus!
