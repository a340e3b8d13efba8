//! A file-differencing engine after the rsync algorithm.
//!
//! From an old file the library builds a signature: a table of the checksums
//! and digests of the file's chunks. From a new file and that signature it
//! computes a delta: an ordered list of operations, each of which reuses a
//! chunk of the old file or inserts literal bytes. Both are computed block by
//! block, so that neither file has to be held in memory.
//!
//! - [`rdiff::chunk`] holds the chunk table, and [`rdiff::chunk::iterator`]
//!   the chunker that cuts a stream of blocks into chunks.
//! - [`rdiff::hash`] holds the two hashes: a weak checksum that selects a
//!   bucket of the table, and a strong digest that confirms a candidate.
//! - [`rdiff::signature`] builds signatures, [`rdiff::delta`] generates
//!   deltas, and [`rdiff::replay`] states what a delta stands for.
//! - [`rdiff`] itself reads the command line.
//!
//! Every function is verified against its contract. The contracts are
//! stated over the bytes of the files: the signature of a file is
//! [`rdiff::signature::signature_of`] of its bytes, and the delta of a file
//! against a signature is [`rdiff::delta::delta_of`].

pub mod rdiff;
