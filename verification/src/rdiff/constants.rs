//! Constants shared by the chunker, the delta generator and the command line.

use vstd::prelude::*;

verus! {

/// The block cap: the size of one block read from a source, and the largest
/// chunk size that a caller may ask for.
pub const BLOCK_SIZE: usize = 64;

/// The word that selects the signature command.
pub const SIGNATURE: &'static str = "signature";

/// The word that selects the delta command.
pub const DELTA: &'static str = "delta";

} // verus!
