//! The Adler-32 checksum as a weak hash.

use vstd::prelude::*;

use super::WeakHash;

verus! {

/// The modulus of both sums of an Adler-32 checksum: the largest prime below 2^16.
pub const ADLER_MODULUS: u32 = 65521;

/// The low half of the Adler-32 checksum of `bytes`: one plus the sum of the
/// bytes, modulo [`ADLER_MODULUS`].
pub open spec fn adler_low(bytes: Seq<u8>) -> nat
    decreases bytes.len(),
{
    if bytes.len() == 0 {
        1
    } else {
        (adler_low(bytes.drop_last()) + bytes.last() as nat) % (ADLER_MODULUS as nat)
    }
}

/// The high half of the Adler-32 checksum of `bytes`: the sum of the low
/// halves of all non-empty prefixes of `bytes`, modulo [`ADLER_MODULUS`].
pub open spec fn adler_high(bytes: Seq<u8>) -> nat
    decreases bytes.len(),
{
    if bytes.len() == 0 {
        0
    } else {
        (adler_high(bytes.drop_last()) + adler_low(bytes)) % (ADLER_MODULUS as nat)
    }
}

/// The Adler-32 checksum of `bytes`: the high half in the upper sixteen bits,
/// the low half in the lower sixteen.
pub open spec fn adler32(bytes: Seq<u8>) -> u32 {
    (adler_high(bytes) * 65536 + adler_low(bytes)) as u32
}

/// Calls `adler::adler32_slice`.
///
/// Trusted: the result is the Adler-32 checksum of the slice, as [`adler32`]
/// defines it. The crate starts from the sums 1 and 0 and, for every byte,
/// adds the byte to the low sum and then the low sum to the high sum, both
/// modulo 65521; it returns the high sum shifted left by sixteen bits, or-ed
/// with the low sum.
#[verifier::external_body]
fn adler32_slice(chunk: &[u8]) -> (checksum: u32)
    ensures
        checksum == adler32(chunk@),
{
    adler::adler32_slice(chunk)
}

/// The weak hash that computes Adler-32 checksums.
pub struct RdiffAddler {}

/// An [`RdiffAddler`] in a box.
pub type RdiffAddlerPtr = Box<RdiffAddler>;

impl RdiffAddler {
    /// The hash whose checksums are Adler-32 checksums.
    pub fn new() -> (hash: RdiffAddler)
        ensures
            forall|chunk: Seq<u8>| #[trigger] hash.spec_checksum(chunk) == adler32(chunk),
    {
        RdiffAddler {}
    }

    /// The same hash, in a box.
    pub fn new_ptr() -> (hash: RdiffAddlerPtr)
        ensures
            forall|chunk: Seq<u8>| #[trigger] hash.spec_checksum(chunk) == adler32(chunk),
    {
        Box::new(RdiffAddler::new())
    }
}

impl WeakHash for RdiffAddler {
    open spec fn spec_checksum(&self, chunk: Seq<u8>) -> u32 {
        adler32(chunk)
    }

    fn checksum(&self, chunk: &[u8]) -> (checksum: u32) {
        adler32_slice(chunk)
    }
}

} // verus!
