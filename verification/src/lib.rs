//! One-way synchronization of a target directory tree toward a source tree.
//!
//! The engine works in three stages: content-addressed scanning (a mapping
//! from identity key to file record), set-based diff computation (copy and
//! delete actions), and an execution plan (deletes before copies, then
//! compaction of directories left empty). File identity is the pair of
//! relative path and content hash; timestamps play no part.

pub mod cleanup;
pub mod clock;
pub mod env;
pub mod executor;
pub mod file_entry;
pub mod hashing;
pub mod paths;
pub mod scanner;
