//! The weak checksum capability.

use vstd::prelude::*;

pub mod rdiff_addler;

verus! {

/// A weak checksum: a cheap, fixed-width hash of a chunk.
///
/// Equal bytes give equal checksums: the checksum that `checksum` returns is
/// the spec function `spec_checksum` of the chunk's bytes.
pub trait WeakHash {
    /// The checksum of `chunk`, as a function of its bytes.
    spec fn spec_checksum(&self, chunk: Seq<u8>) -> u32;

    /// The checksum of `chunk`.
    fn checksum(&self, chunk: &[u8]) -> (checksum: u32)
        ensures
            checksum == self.spec_checksum(chunk@),
    ;
}

impl<T: WeakHash> WeakHash for Box<T> {
    open spec fn spec_checksum(&self, chunk: Seq<u8>) -> u32 {
        (**self).spec_checksum(chunk)
    }

    fn checksum(&self, chunk: &[u8]) -> (checksum: u32) {
        (**self).checksum(chunk)
    }
}

} // verus!
