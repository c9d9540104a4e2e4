//! Core logic of a small file-organizing tool: files found under a root
//! directory are grouped by filename extension, one destination subfolder per
//! distinct extension is provisioned, and each file is assigned a move into
//! its extension's subfolder.
//!
//! Everything here is pure computation on path strings: traversal of the
//! directory tree, probing the filesystem and performing the actual renames
//! are left to the surrounding binary, which feeds plain path lists in and
//! carries the returned plan out.

pub mod paths;
pub mod plan;
pub mod provision;
pub mod scan;
