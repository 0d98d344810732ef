//! Release migration for repository-source configuration: parses legacy
//! single-line and structured paragraph entries, walks an ordered
//! catalog of known releases probing the remote repository for each
//! candidate, rewrites the entries to the furthest confirmed release,
//! and decides when a file changed so that the caller backs it up before
//! overwriting. Content that cannot be interpreted is preserved
//! byte-for-byte.
pub mod bytes;
pub mod catalog;
pub mod legacy;
pub mod paragraph;
pub mod probe;
pub mod resolve;
pub mod sources;
