//! Finds duplicate files by progressive refinement: files are grouped by
//! size, same-size files by a streaming 64-bit hash, and same-hash files by
//! their full content. Only files that still share a group with another file
//! are hashed or read.
//!
//! All file access is left to the caller: the library is handed what reading
//! a stream returned and functions that compute a file's hash and content.

pub mod buckets;
pub mod order;
pub mod partition;
pub mod record;
pub mod rows;
pub mod scan;
pub mod sizes;
pub mod stream;
pub mod theorems;
pub mod waste;
