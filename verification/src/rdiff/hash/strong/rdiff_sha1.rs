//! The SHA-1 digest as a strong hash.

use vstd::prelude::*;

use sha1::Digest;
use sha1::Sha1;

use super::StrongHash;

verus! {

/// The SHA-1 digest of `bytes`, as the `sha1` crate computes it.
pub uninterp spec fn sha1_digest(bytes: Seq<u8>) -> Seq<u8>;

/// Calls `Sha1::digest` of the `sha1` crate, which feeds the slice to a fresh
/// hasher and finalizes it, and copies the twenty bytes of output into a
/// vector.
///
/// Trusted: the result depends on the bytes of the slice alone, and is named
/// [`sha1_digest`] of them.
#[verifier::external_body]
fn sha1_of(chunk: &[u8]) -> (digest: Vec<u8>)
    ensures
        digest@ == sha1_digest(chunk@),
{
    Sha1::digest(chunk).to_vec()
}

/// The strong hash that computes SHA-1 digests.
pub struct RdiffSha1;

/// An [`RdiffSha1`] in a box.
pub type RdiffSha1Ptr = Box<RdiffSha1>;

impl RdiffSha1 {
    /// The hash whose digests are SHA-1 digests.
    pub fn new() -> (hash: RdiffSha1)
        ensures
            forall|chunk: Seq<u8>| #[trigger] hash.spec_digest(chunk) == sha1_digest(chunk),
    {
        RdiffSha1
    }

    /// The same hash, in a box.
    pub fn new_ptr() -> (hash: RdiffSha1Ptr)
        ensures
            forall|chunk: Seq<u8>| #[trigger] hash.spec_digest(chunk) == sha1_digest(chunk),
    {
        Box::new(RdiffSha1::new())
    }
}

impl StrongHash for RdiffSha1 {
    open spec fn spec_digest(&self, chunk: Seq<u8>) -> Seq<u8> {
        sha1_digest(chunk)
    }

    fn digest(&self, chunk: &[u8]) -> (digest: Vec<u8>) {
        sha1_of(chunk)
    }
}

} // verus!
