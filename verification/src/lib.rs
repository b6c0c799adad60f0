use vstd::prelude::*;

pub mod crypto;
pub mod laws;
pub mod patch;
pub mod peer;
pub mod store;
pub mod varint;

verus! {

/// A 32-byte Ed25519 public key identifying the author of a patch.
pub type PeerID = [u8; 32];

/// The error kinds the replication core distinguishes.
#[derive(Debug)]
pub enum Error {
    /// Failure at a storage or transport boundary.
    IO,
    /// Constraint violation in a store backend (for example a duplicate id).
    Storage,
    /// A signature check failed, or a recomputed id disagreed.
    Verification,
    /// Malformed wire framing or length fields exceeding the buffer.
    Serialization,
}

} // verus!
