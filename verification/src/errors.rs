//! The closed set of terminal errors the core can report.
//!
//! Every fallible operation returns one of these; nothing is retried — a
//! failed operation aborts the whole execution, and the outer driver is
//! responsible for reporting.

use crate::field::Word;
use vstd::prelude::*;

verus! {

/// A failure while reading from or resolving a Merkle-tree view.
#[derive(Clone, Copy, Debug, PartialEq, Eq)]
pub enum AdviceSetError {
    /// A requested depth of zero: the root row has no queryable nodes.
    DepthTooSmall,
    /// A requested depth beyond the depth of the tree.
    DepthTooBig(u64),
    /// An index with no node at the requested depth.
    InvalidIndex(u64),
    /// A leaf count that is not a power of two of at least two elements.
    InvalidNumLeaves(usize),
}

/// A terminal error of the execution core.
#[derive(Clone, Copy, Debug, PartialEq, Eq)]
pub enum ExecutionError {
    /// The advice tape held fewer elements than a read required; carries the
    /// clock cycle at which the read was attempted.
    AdviceTapeReadFailed(u32),
    /// A map lookup for a key that was never inserted.
    AdviceKeyNotFound(Word),
    /// An insertion under a key that is already present.
    DuplicateAdviceKey(Word),
    /// No Merkle-tree view with the given root is known.
    AdviceSetNotFound(Word),
    /// A Merkle-tree view refused the requested depth or index.
    AdviceSetLookupFailed(AdviceSetError),
    /// A memory address at or beyond the `2^32` bound.
    MemoryAddressOutOfBounds(u64),
    /// A memory range whose start lies beyond its end.
    InvalidMemoryRange { start_addr: u64, end_addr: u64 },
    /// A return from a call frame that would leak overflow-table rows,
    /// carrying the offending stack depth.
    InvalidStackDepthOnReturn(usize),
}

} // verus!
