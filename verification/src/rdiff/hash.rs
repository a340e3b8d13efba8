//! The two hash capabilities that the engine builds on.
//!
//! A weak checksum is cheap and selects a bucket of the chunk table; a strong
//! digest is expensive and confirms a candidate of that bucket. Each is a
//! function of the chunk's bytes alone.

pub mod strong;
pub mod weak;
