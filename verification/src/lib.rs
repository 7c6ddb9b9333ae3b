//! An N-ary tree kept in an arena: the nodes live in one growable sequence of
//! slots, name each other by index, and leave their slot to be filled again
//! when they are deleted.
//!
//! [`NodeArena`] is the tree itself. Its operations take the id of a node,
//! and their contracts say what the tree is afterwards: which nodes it has,
//! the children of each in order, and the payloads. Whatever is done to a
//! well-formed arena by an operation that asks for one leaves it well formed;
//! `laws` holds what that means for the links, and what follows from the
//! contracts for slots that are used again, for paths to the root and for
//! the orders in which sub-trees are walked and removed. Only `create`,
//! `free` and `get_mut` work on single slots and leave the links to the
//! caller.
//!
//! [`Node`] is a node of a tree whose arena is shared by all its nodes.
//! What a call on a `Node` finds depends on what other calls have done to
//! the tree in the meantime, so that its contract speaks of the arena that
//! the call finds behind the lock, of which it is known to be well formed
//! and no more, or says only what holds whatever that arena is; what the
//! call does to the arena that it finds is the operation of `NodeArena` of
//! the same name.

pub mod arena;
pub mod delete;
pub mod errors;
pub mod insert;
pub mod laws;
pub mod links;
pub mod nav;
pub mod prune;
pub mod rc;
pub mod seqs;
pub mod walk;

pub use crate::arena::{NodeArena, NodeData};
pub use crate::delete::{DeleteNodes, TraversalOrder};
pub use crate::errors::TreeError;
pub use crate::links::{NodeID, NodeLink};
pub use crate::rc::{Ancestors, Children, Descendants, Node, Siblings};
