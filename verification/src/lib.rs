//! A read-only virtual file system for a game-asset archive.
//!
//! The archive itself only supports direct lookup of a file's bytes by its
//! full path; it cannot enumerate its own contents. This crate bridges that
//! gap: it synthesizes a complete directory tree from a flat list of file
//! paths, normalizes client-supplied path strings, resolves them against the
//! tree, and answers the storage-facing queries a file-transfer protocol
//! engine drives (metadata, listing, partial reads), while rejecting every
//! mutating operation.
//!
//! The content store that maps a canonical path to raw bytes, the transport
//! that delivers the path list, and the protocol engine are external
//! collaborators; they hand plain values in and take plain values out.

pub mod adapter;
pub mod errors;
pub mod laws;
pub mod paths;
pub mod tree;
