//! In-memory, serializable snapshots of a directory tree.
//!
//! The scan engine walks a previously captured directory tree, assigns
//! stable integer identities in visitation order, links parents to
//! children through contiguous identity ranges, fingerprints regular
//! file content, and resolves symbolic-link targets to internal
//! identities in a second pass.

pub mod scan;
