//! The messages that a [`RollingHashError`](super::RollingHashError) carries.

use vstd::prelude::*;

verus! {

/// What the system says of a file that is not there.
pub const FILE_NOT_FOUND: &'static str = "The system cannot find the file specified";

/// The usage of the command line: the answer to a command line that holds no command.
pub const HELP_USAGE: &'static str =
    "USAGE:\nrolling_hash_diff signature <file-name> <signature-file-name>\nrolling_hash_diff delta <signature-file-name> <new-file-name> <delta-file-name>";

/// The answer to a chunk size above the block cap.
pub const INVALID_CHUNK_SIZE: &'static str =
    "Chunk size should be less than or equal to block size";

/// The answer to a delta whose operations do not account for exactly the
/// bytes of the new file.
pub const DELTA_PROCESSED_DATA_SIZE_ERROR: &'static str = "Invalid Delta processed data";

} // verus!
