//! CarSync: synchronises files between a source and a destination, comparing
//! them by metadata or by SHA-256 checksum, with optional block-level delta
//! transfer and zstd compression.

pub mod compress;
pub mod delta;
pub mod digest;
pub mod dirs;
pub mod hex;
pub mod plan;
pub mod posix_path;
pub mod probe;
pub mod remote;
pub mod stats;
pub mod size;
pub mod text;
