//! In-memory model of a filesystem subtree. The indexer's logic reads a
//! tree only through this type: callers build it from whatever filesystem
//! they walk, recording per-node failures in place of the data that could
//! not be had.

use vstd::prelude::*;
use crate::errors::IoErrKind;

verus! {

/// One node of the tree as the walker sees it.
pub enum FsNode {
    /// A regular (non-directory) node: its content, or the failure met
    /// when reading it.
    File(Result<Vec<u8>, IoErrKind>),
    /// A directory: its entries, or the failure met when listing them.
    Dir(Result<Vec<FsEntry>, IoErrKind>),
    /// A node whose type could not be determined.
    Unknown(IoErrKind),
}

/// A named entry of a directory.
pub struct FsEntry {
    pub name: Vec<u8>,
    pub node: FsNode,
}

} // verus!
