//! Error model: the kinds of I/O failure the indexer distinguishes, a
//! record pairing a failing path with its kind, and the collector that
//! accumulates such records during a run.

use vstd::prelude::*;

verus! {

/// The kind of an I/O failure met while walking or reading the tree.
///
/// `Decode` stands for content that could not be read as text; the other
/// variants mirror the usual operating-system failure classes.
#[derive(Clone, Copy, Debug, PartialEq, Eq, Structural)]
pub enum IoErrKind {
    NotFound,
    PermissionDenied,
    Decode,
    Other,
}

/// A path paired with the I/O failure encountered while accessing it.
#[derive(Debug, PartialEq)]
pub struct IoErrWithPath {
    pub path: Vec<u8>,
    pub source: IoErrKind,
}

impl IoErrWithPath {
    /// The record as a (path, kind) pair.
    pub open spec fn view(&self) -> (Seq<u8>, IoErrKind) {
        (self.path@, self.source)
    }
}

/// Accumulates error records; failures are additive and never removed.
#[derive(Debug, PartialEq)]
pub struct IoErrorCollector {
    pub errors: Vec<IoErrWithPath>,
}

impl IoErrorCollector {
    /// The collector as the sequence of its (path, kind) records, oldest first.
    pub open spec fn view(&self) -> Seq<(Seq<u8>, IoErrKind)> {
        self.errors@.map_values(|e: IoErrWithPath| e@)
    }

    pub fn new() -> (r: IoErrorCollector)
        ensures
            r@ == Seq::<(Seq<u8>, IoErrKind)>::empty(),
    {
        let r = IoErrorCollector { errors: Vec::new() };
        proof {
            assert(r@ =~= Seq::<(Seq<u8>, IoErrKind)>::empty());
        }
        r
    }

    /// Appends one record; every earlier record is kept unchanged.
    pub fn push_err(&mut self, path: Vec<u8>, source: IoErrKind)
        ensures
            final(self)@ == old(self)@.push((path@, source)),
    {
        let ghost before = self@;
        let ghost p = path@;
        self.errors.push(IoErrWithPath { path, source });
        proof {
            assert(self@ =~= before.push((p, source)));
        }
    }
}

} // verus!
