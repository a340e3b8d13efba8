//! The strong digest capability.

use vstd::prelude::*;

pub mod rdiff_sha1;

verus! {

/// A strong digest: an expensive hash of a chunk with few collisions.
///
/// Equal bytes give equal digests: the digest that `digest` returns is the
/// spec function `spec_digest` of the chunk's bytes.
pub trait StrongHash {
    /// The digest of `chunk`, as a function of its bytes.
    spec fn spec_digest(&self, chunk: Seq<u8>) -> Seq<u8>;

    /// The digest of `chunk`.
    fn digest(&self, chunk: &[u8]) -> (digest: Vec<u8>)
        ensures
            digest@ == self.spec_digest(chunk@),
    ;
}

impl<T: StrongHash> StrongHash for Box<T> {
    open spec fn spec_digest(&self, chunk: Seq<u8>) -> Seq<u8> {
        (**self).spec_digest(chunk)
    }

    fn digest(&self, chunk: &[u8]) -> (digest: Vec<u8>) {
        (**self).digest(chunk)
    }
}

} // verus!
