//! Finding files with identical content under a directory tree, and planning
//! their removal.
//!
//! The library holds the verified logic: content fingerprints, grouping of
//! fingerprinted paths into a duplicate index, the size of the hashing pool,
//! the dump text of an index, and the plan of removals and links that
//! deduplicates it. Walking the tree, reading files and touching the file
//! system are left to the caller.

pub mod digest;
pub mod index;
pub mod plan;
pub mod pool;
pub mod dump;
