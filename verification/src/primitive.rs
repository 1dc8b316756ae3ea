//! Identifiers shared by the rest of the crate.
use vstd::prelude::*;

verus! {

/// The identity of a trading pool: an opaque 32-byte value, fixed when an
/// order is taken in.
#[derive(Clone, Copy, Debug, PartialEq, Eq, Hash)]
pub struct PoolId {
    /// The identifier, byte for byte.
    pub bytes: [u8; 32],
}

impl PoolId {
    /// The identifier made of `bytes`.
    pub fn new(bytes: [u8; 32]) -> (id: PoolId)
        ensures
            id.bytes == bytes,
    {
        PoolId { bytes }
    }

    /// The bytes of the identifier.
    pub fn into_bytes(self) -> (bytes: [u8; 32])
        ensures
            bytes == self.bytes,
    {
        self.bytes
    }
}

impl Default for PoolId {
    fn default() -> (id: PoolId)
        ensures
            forall|i: int| 0 <= i < 32 ==> id.bytes@[i] == 0,
    {
        PoolId { bytes: [0u8; 32] }
    }
}

} // verus!
