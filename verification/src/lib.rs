//! Incremental content-addressed fingerprinting of a filesystem tree.
//!
//! Files are identified by the SHA-256 digest of their content; a
//! change-detection cache keyed by path and modified-time avoids rehashing
//! unchanged files; every directory gets a composite (Merkle-style) digest
//! computed bottom-up from its immediate children; duplicate files and
//! duplicate directories are grouped by digest.

pub mod aggregate;
pub mod dups;
pub mod hashing;
pub mod laws;
pub mod lex;
pub mod paths;
pub mod records;
pub mod scanner;
pub mod seqs;
pub mod store;
