//! Core engine of a duplicate-file finder: walk a directory tree, digest
//! every regular file's content, and group paths whose digests agree.
//!
//! The library holds the decision logic of the scan — configuration
//! validation, per-entry classification (symlink chains, cycle guards),
//! wave planning over the directory frontier, permit accounting, content
//! digesting, and the digest-keyed result index — each with a contract.
//! Listing directories, reading files and acting on the groups is I/O and
//! stays with the caller, which feeds observations in and takes plans out.
//!
//! Paths are carried as byte strings (`Vec<u8>`): the engine never
//! interprets them beyond equality, length and lexicographic order.

pub mod config;
pub mod governor;
pub mod hashing;
pub mod index;
pub mod report;
pub mod scanner;
pub mod visited;
