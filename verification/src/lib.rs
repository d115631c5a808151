//! A consistent-hashing ring.
//!
//! Keys are placed on a circular space of 128-bit positions, a fixed number
//! of replicas per key. A lookup resolves to the key that owns the nearest
//! position at or after the queried one, wrapping round at the top. Deleting
//! a key folds its value into the key that inherits its traffic.
//!
//! The executable functions of the crate are verified against the contracts
//! that they carry. The one exception is the call into the `md5` crate in
//! `placement`, whose contract is taken on trust.

use vstd::prelude::*;

pub mod error;
pub mod evict;
pub mod guarantees;
pub mod index;
pub mod placement;
pub mod ring;

pub use error::RingError;
pub use evict::Evict;
pub use index::{PositionIndex, VirtualNode};
pub use ring::ConsistentHash;

verus! {

/// The hash capability: a key that can be placed on the ring.
///
/// `position` says where the replicas of a key lie, and `hash` computes it.
/// An implementation that is not verified gives both the same body.
pub trait Hash {
    /// The position of replica `weight` of this key.
    spec fn position(&self, weight: i32) -> u128;

    /// Computes the position of replica `weight`. The result depends on the
    /// key and on `weight` alone.
    fn hash(&self, weight: i32) -> (h: u128)
        ensures
            h == self.position(weight),
    ;
}

} // verus!
