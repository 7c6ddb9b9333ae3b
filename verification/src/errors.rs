use vstd::prelude::*;

verus! {

/// The ways in which an operation on a tree can fail.
#[derive(Copy, Clone, Debug, PartialEq, Eq, Structural)]
pub enum TreeError {
    /// A sibling was requested next to the root, which has none.
    RootSiblingOperation,
    /// The parent of the root was requested.
    MissingParentNode,
    /// The node id is out of range, or its slot has been freed.
    MissingCurrentNode,
    /// A lock around the arena was abandoned by a holder that failed. The
    /// library itself keeps the arena behind a lock that no holder abandons,
    /// and never gives this error: it is there for those who share an arena
    /// behind a lock of their own.
    PoisonError,
}

} // verus!
