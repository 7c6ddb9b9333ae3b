use std::rc::Rc;
use vstd::prelude::*;
use vstd::rwlock::{RwLock, RwLockPredicate};
use crate::arena::NodeArena;
use crate::delete::{DeleteNodes, TraversalOrder};
use crate::errors::TreeError;
use crate::links::NodeID;
use crate::nav::turned;

verus! {

/// What the arena that the nodes of a tree share holds at all times: a
/// well-formed arena.
pub struct WellFormed;

impl<T> RwLockPredicate<NodeArena<T>> for WellFormed {
    open spec fn inv(self, v: NodeArena<T>) -> bool {
        v.wf()
    }
}

/// `Rc::clone`: the pointer that comes back leads to the same allocation as
/// the one given.
#[verifier::external_body]
fn share<V>(pointer: &Rc<V>) -> (other: Rc<V>)
    ensures
        other == *pointer,
{
    Rc::clone(pointer)
}

/// A node of a tree: an id, and the arena that all the nodes of the tree
/// share. Every call takes hold of the whole arena for as long as it runs and
/// for no longer, so that a call that is made while another one runs on the
/// same tree waits for it, and never comes back if it was made from within
/// that other call. The id of a node that has been deleted may name another
/// node later: a `Node` that is kept across a deletion is not known to name
/// what it named. The arena is kept for as long as a node or a way through
/// the tree is; the lock around it does not drop it, so that the tree is
/// given up only through `into_arena`.
pub struct Node<T> {
    id: NodeID,
    arena: Rc<RwLock<NodeArena<T>, WellFormed>>,
}

/// The way from a node up to the root, one node at a time.
pub struct Ancestors<T> {
    arena: Rc<RwLock<NodeArena<T>, WellFormed>>,
    current: Option<NodeID>,
}

/// The way along a row of siblings, one node at a time.
pub struct Siblings<T> {
    arena: Rc<RwLock<NodeArena<T>, WellFormed>>,
    current: Option<NodeID>,
    reversed: bool,
}

/// The way along the children of a node, one node at a time.
pub struct Children<T> {
    row: Siblings<T>,
}

/// The way through a node and all that is below it, one node at a time.
pub struct Descendants<T> {
    arena: Rc<RwLock<NodeArena<T>, WellFormed>>,
    forth: Vec<NodeID>,
    back: Vec<(NodeID, bool)>,
    reversed: bool,
}

impl<T> Clone for Node<T> {
    fn clone(&self) -> (other: Self)
        ensures
            other.index() == self.index(),
            other.same_home(self),
    {
        Node { id: self.id, arena: share(&self.arena) }
    }
}

impl<T> Node<T> {
    /// The id of the node in its arena.
    pub closed spec fn index(&self) -> NodeID {
        self.id
    }

    /// The arena that the node is kept in, as the lock around it, which
    /// tells it from every other.
    pub closed spec fn tree(&self) -> Rc<RwLock<NodeArena<T>, WellFormed>> {
        self.arena
    }

    /// Whether the two nodes are kept in the same arena.
    pub open spec fn same_home(&self, other: &Self) -> bool {
        self.tree() == other.tree()
    }

    /// `node` is the node with the id `id` in the arena of `self`, where
    /// there is an id, and no node where there is none.
    pub open spec fn names(&self, node: Option<Self>, id: Option<NodeID>) -> bool {
        match id {
            Some(i) => node is Some && node->0.index() == i && node->0.same_home(self),
            None => node is None,
        }
    }

    /// The node with the id `id` in the arena of `self`.
    fn at(&self, id: NodeID) -> (node: Self)
        ensures
            node.index() == id,
            node.same_home(self),
    {
        Node { id, arena: share(&self.arena) }
    }

    /// The node with the id `id` in the arena of `self`, if there is an id.
    fn at_some(&self, id: Option<NodeID>) -> (node: Option<Self>)
        ensures
            self.names(node, id),
    {
        match id {
            Some(i) => Some(self.at(i)),
            None => None,
        }
    }

    /// A tree of one node, the root, with the payload `data`. `capacity` is
    /// the number of nodes to make room for ahead of time.
    pub fn new(data: T, capacity: usize) -> (root: Self)
        ensures
            root.index() == 0,
    {
        let arena = NodeArena::new(data, capacity);
        Node { id: 0, arena: Rc::new(RwLock::new(arena, Ghost(WellFormed))) }
    }

    /// The arena of the tree, where the node is the last to share it.
    pub fn into_arena(self) -> (arena: Option<NodeArena<T>>)
        ensures
            arena matches Some(a) ==> a.wf(),
    {
        match Rc::into_inner(self.arena) {
            Some(lock) => Some(lock.into_inner()),
            None => None,
        }
    }

    /// The id of the node in its arena.
    pub fn id(&self) -> (id: NodeID)
        ensures
            id == self.index(),
    {
        self.id
    }

    /// Puts the default value in the place of the payload of the node, and
    /// hands out the payload that was there. The default value is made
    /// before the arena is taken hold of. Of the well-formed arena `found`
    /// that the call finds behind the lock it hands out the payload of the
    /// node, where the node is there, and it leaves behind the lock the
    /// arena `left`: the same tree, with a default value as the payload of
    /// the node.
    pub fn take(&self) -> (out: Result<T, TreeError>) where T: Default
        ensures
            exists|found: NodeArena<T>, left: NodeArena<T>|
                #[trigger] left.same_tree(&found) && found.wf() && left.wf() && left.same_but(
                    &found,
                    self.index(),
                ) && (match out {
                    Ok(v) => found.has(self.index()) && v == found.payload(self.index())
                        && T::default.ensures((), left.payload(self.index())),
                    Err(e) => !found.has(self.index()) && e == TreeError::MissingCurrentNode && left
                        == found,
                }),
            out matches Err(e) ==> e == TreeError::MissingCurrentNode,
            self.index() == 0 ==> out is Ok,
    {
        let mut data = T::default();
        let (mut arena, guard) = self.arena.acquire_write();
        let ghost found = arena;
        let out = arena.swap(self.id, &mut data);
        let ghost left = arena;
        guard.release_write(arena);
        proof {
            assert(left.same_tree(&found));
        }
        match out {
            Ok(_) => Ok(data),
            Err(e) => Err(e),
        }
    }

    /// Exchanges the payload of the node with `data`. Of the well-formed
    /// arena `found` that the call finds behind the lock it gives `data` the
    /// payload of the node, where the node is there, and it leaves behind
    /// the lock the arena `left`: the same tree, with what `data` was as the
    /// payload of the node.
    pub fn swap(&self, data: &mut T) -> (out: Result<(), TreeError>)
        ensures
            exists|found: NodeArena<T>, left: NodeArena<T>|
                #[trigger] left.same_tree(&found) && found.wf() && left.wf() && left.same_but(
                    &found,
                    self.index(),
                ) && (match out {
                    Ok(_) => found.has(self.index()) && *final(data) == found.payload(self.index())
                        && left.payload(self.index()) == *old(data),
                    Err(e) => !found.has(self.index()) && e == TreeError::MissingCurrentNode && left
                        == found && *final(data) == *old(data),
                }),
            out matches Err(e) ==> e == TreeError::MissingCurrentNode && *final(data) == *old(data),
            self.index() == 0 ==> out is Ok,
    {
        let (mut arena, guard) = self.arena.acquire_write();
        let ghost found = arena;
        let out = arena.swap(self.id, data);
        let ghost left = arena;
        guard.release_write(arena);
        proof {
            assert(left.same_tree(&found));
        }
        out
    }

    /// Whether the node is the root of its tree.
    pub fn is_root(&self) -> (root: bool)
        ensures
            root == (self.index() == 0),
    {
        self.id == 0
    }

    /// The root of the tree of the node.
    pub fn root(&self) -> (root: Self)
        ensures
            root.index() == 0,
            root.same_home(self),
    {
        self.at(0)
    }

    /// Whether the node is still, or again, a node of its tree: whether
    /// its id names a node in the well-formed arena `found` that the call
    /// finds behind the lock.
    pub fn is_node(&self) -> (node: bool)
        ensures
            exists|found: NodeArena<T>| #[trigger] found.wf() && node == found.has(self.index()),
            self.index() == 0 ==> node,
    {
        let guard = self.arena.acquire_read();
        let ghost found = guard.view();
        let node = guard.borrow().contains(self.id);
        guard.release_read();
        proof {
            assert(found.wf() && node == found.has(self.index()));
        }
        node
    }

    /// The parent of the node. The root has none, and neither has a node
    /// that is gone: the node that the link of the node names as its parent
    /// in the well-formed arena `found` that the call finds behind the
    /// lock.
    pub fn parent(&self) -> (parent: Option<Self>)
        ensures
            exists|found: NodeArena<T>|
                #[trigger] found.wf() && self.names(parent, found.link_or_none(self.index()).parent),
            self.index() == 0 ==> parent is None,
            parent matches Some(p) ==> p.same_home(self),
    {
        let guard = self.arena.acquire_read();
        let ghost found = guard.view();
        let seen = guard.borrow().parent(self.id);
        guard.release_read();
        let parent = match seen {
            Ok(p) => Some(self.at(p)),
            Err(_) => None,
        };
        proof {
            assert(found.wf() && self.names(parent, found.link_or_none(self.index()).parent));
        }
        parent
    }

    /// The sibling before the node, if there is one: the node that the
    /// link of the node names as its left sibling in the well-formed arena
    /// `found` that the call finds behind the lock.
    pub fn left_sibling(&self) -> (left: Option<Self>)
        ensures
            exists|found: NodeArena<T>|
                #[trigger] found.wf() && self.names(left, found.link_or_none(self.index()).left_sibling),
            self.index() == 0 ==> left is None,
            left matches Some(n) ==> n.same_home(self),
    {
        let guard = self.arena.acquire_read();
        let ghost found = guard.view();
        proof {
            if guard.view().has(self.id) {
                guard.view().lemma_place(self.id);
            }
        }
        let seen = guard.borrow().left_sibling(self.id);
        guard.release_read();
        let left = match seen {
            Ok(id) => self.at_some(id),
            Err(_) => None,
        };
        proof {
            assert(found.wf() && self.names(left, found.link_or_none(self.index()).left_sibling));
        }
        left
    }

    /// The sibling after the node, if there is one: the node that the
    /// link of the node names as its right sibling in the well-formed arena
    /// `found` that the call finds behind the lock.
    pub fn right_sibling(&self) -> (right: Option<Self>)
        ensures
            exists|found: NodeArena<T>|
                #[trigger] found.wf() && self.names(right, found.link_or_none(self.index()).right_sibling),
            self.index() == 0 ==> right is None,
            right matches Some(n) ==> n.same_home(self),
    {
        let guard = self.arena.acquire_read();
        let ghost found = guard.view();
        proof {
            if guard.view().has(self.id) {
                guard.view().lemma_place(self.id);
            }
        }
        let seen = guard.borrow().right_sibling(self.id);
        guard.release_read();
        let right = match seen {
            Ok(id) => self.at_some(id),
            Err(_) => None,
        };
        proof {
            assert(found.wf() && self.names(right, found.link_or_none(self.index()).right_sibling));
        }
        right
    }

    /// The first child of the node, if it has children: the node that the
    /// link of the node names as its first child in the well-formed arena
    /// `found` that the call finds behind the lock.
    pub fn first_child(&self) -> (first: Option<Self>)
        ensures
            exists|found: NodeArena<T>|
                #[trigger] found.wf() && self.names(first, found.link_or_none(self.index()).first_child),
            first matches Some(n) ==> n.same_home(self) && n.index() != 0,
    {
        let guard = self.arena.acquire_read();
        let ghost found = guard.view();
        proof {
            if guard.view().has(self.id) {
                guard.view().lemma_child_chain(self.id);
                guard.view().lemma_children_level(self.id);
            }
        }
        let seen = guard.borrow().first_child(self.id);
        guard.release_read();
        let first = match seen {
            Ok(id) => self.at_some(id),
            Err(_) => None,
        };
        proof {
            assert(found.wf() && self.names(first, found.link_or_none(self.index()).first_child));
        }
        first
    }

    /// The last child of the node, if it has children: the node that the
    /// link of the node names as its last child in the well-formed arena
    /// `found` that the call finds behind the lock.
    pub fn last_child(&self) -> (last: Option<Self>)
        ensures
            exists|found: NodeArena<T>|
                #[trigger] found.wf() && self.names(last, found.link_or_none(self.index()).last_child),
            last matches Some(n) ==> n.same_home(self) && n.index() != 0,
    {
        let guard = self.arena.acquire_read();
        let ghost found = guard.view();
        proof {
            if guard.view().has(self.id) {
                guard.view().lemma_child_chain(self.id);
                guard.view().lemma_children_level(self.id);
            }
        }
        let seen = guard.borrow().last_child(self.id);
        guard.release_read();
        let last = match seen {
            Ok(id) => self.at_some(id),
            Err(_) => None,
        };
        proof {
            assert(found.wf() && self.names(last, found.link_or_none(self.index()).last_child));
        }
        last
    }

    /// The first of the siblings of the node, which may be the node itself,
    /// in one step through the parent. The root is its own first sibling. It is
    /// the first sibling that the node has in the well-formed arena `found`
    /// that the call finds behind the lock.
    pub fn first_sibling(&self) -> (first: Result<Self, TreeError>)
        ensures
            exists|found: NodeArena<T>|
                #[trigger] found.wf() && (match first {
                    Ok(n) => found.has(self.index()) && n.index() == found.siblings_of(
                        self.index(),
                    ).first() && n.same_home(self),
                    Err(e) => !found.has(self.index()) && e == TreeError::MissingCurrentNode,
                }),
            first matches Ok(n) ==> n.same_home(self),
            first matches Err(e) ==> e == TreeError::MissingCurrentNode,
            self.index() == 0 ==> first is Ok && first->Ok_0.index() == 0,
    {
        let guard = self.arena.acquire_read();
        let ghost found = guard.view();
        let seen = guard.borrow().first_sibling(self.id);
        guard.release_read();
        let first = match seen {
            Ok(id) => Ok(self.at(id)),
            Err(e) => Err(e),
        };
        proof {
            assert(found.wf() && (match first {
                Ok(n) => found.has(self.index()) && n.index() == found.siblings_of(
                    self.index(),
                ).first() && n.same_home(self),
                Err(e) => !found.has(self.index()) && e == TreeError::MissingCurrentNode,
            }));
        }
        first
    }

    /// The last of the siblings of the node, which may be the node itself,
    /// in one step through the parent. The root is its own last sibling. It is
    /// the last sibling that the node has in the well-formed arena `found`
    /// that the call finds behind the lock.
    pub fn last_sibling(&self) -> (last: Result<Self, TreeError>)
        ensures
            exists|found: NodeArena<T>|
                #[trigger] found.wf() && (match last {
                    Ok(n) => found.has(self.index()) && n.index() == found.siblings_of(
                        self.index(),
                    ).last() && n.same_home(self),
                    Err(e) => !found.has(self.index()) && e == TreeError::MissingCurrentNode,
                }),
            last matches Ok(n) ==> n.same_home(self),
            last matches Err(e) ==> e == TreeError::MissingCurrentNode,
            self.index() == 0 ==> last is Ok && last->Ok_0.index() == 0,
    {
        let guard = self.arena.acquire_read();
        let ghost found = guard.view();
        let seen = guard.borrow().last_sibling(self.id);
        guard.release_read();
        let last = match seen {
            Ok(id) => Ok(self.at(id)),
            Err(e) => Err(e),
        };
        proof {
            assert(found.wf() && (match last {
                Ok(n) => found.has(self.index()) && n.index() == found.siblings_of(
                    self.index(),
                ).last() && n.same_home(self),
                Err(e) => !found.has(self.index()) && e == TreeError::MissingCurrentNode,
            }));
        }
        last
    }

    /// Whether the node has no sibling at all, in the well-formed arena
    /// `found` that the call finds behind the lock.
    pub fn is_alone(&self) -> (alone: Result<bool, TreeError>)
        ensures
            exists|found: NodeArena<T>|
                #[trigger] found.wf() && alone == (if found.has(self.index()) {
                    Ok::<bool, TreeError>(found.siblings_of(self.index()).len() == 1)
                } else {
                    Err(TreeError::MissingCurrentNode)
                }),
            alone matches Err(e) ==> e == TreeError::MissingCurrentNode,
            self.index() == 0 ==> alone == Ok::<bool, TreeError>(true),
    {
        let guard = self.arena.acquire_read();
        let ghost found = guard.view();
        let alone = guard.borrow().is_alone(self.id);
        guard.release_read();
        proof {
            assert(found.wf() && alone == (if found.has(self.index()) {
                Ok::<bool, TreeError>(found.siblings_of(self.index()).len() == 1)
            } else {
                Err(TreeError::MissingCurrentNode)
            }));
        }
        alone
    }

    /// Whether the node has no sibling before it, in the well-formed arena
    /// `found` that the call finds behind the lock.
    pub fn is_leftmost(&self) -> (leftmost: Result<bool, TreeError>)
        ensures
            exists|found: NodeArena<T>|
                #[trigger] found.wf() && leftmost == (if found.has(self.index()) {
                    Ok::<bool, TreeError>(found.place_of(self.index()) == 0)
                } else {
                    Err(TreeError::MissingCurrentNode)
                }),
            leftmost matches Err(e) ==> e == TreeError::MissingCurrentNode,
            self.index() == 0 ==> leftmost == Ok::<bool, TreeError>(true),
    {
        let guard = self.arena.acquire_read();
        let ghost found = guard.view();
        let leftmost = guard.borrow().is_leftmost(self.id);
        guard.release_read();
        proof {
            assert(found.wf() && leftmost == (if found.has(self.index()) {
                Ok::<bool, TreeError>(found.place_of(self.index()) == 0)
            } else {
                Err(TreeError::MissingCurrentNode)
            }));
        }
        leftmost
    }

    /// Whether the node has no sibling after it, in the well-formed arena
    /// `found` that the call finds behind the lock.
    pub fn is_rightmost(&self) -> (rightmost: Result<bool, TreeError>)
        ensures
            exists|found: NodeArena<T>|
                #[trigger] found.wf() && rightmost == (if found.has(self.index()) {
                    Ok::<bool, TreeError>(found.place_of(self.index()) + 1 == found.siblings_of(self.index()).len())
                } else {
                    Err(TreeError::MissingCurrentNode)
                }),
            rightmost matches Err(e) ==> e == TreeError::MissingCurrentNode,
            self.index() == 0 ==> rightmost == Ok::<bool, TreeError>(true),
    {
        let guard = self.arena.acquire_read();
        let ghost found = guard.view();
        let rightmost = guard.borrow().is_rightmost(self.id);
        guard.release_read();
        proof {
            assert(found.wf() && rightmost == (if found.has(self.index()) {
                Ok::<bool, TreeError>(found.place_of(self.index()) + 1 == found.siblings_of(self.index()).len())
            } else {
                Err(TreeError::MissingCurrentNode)
            }));
        }
        rightmost
    }

    /// Whether the node has a child, in the well-formed arena `found` that
    /// the call finds behind the lock.
    pub fn has_child(&self) -> (parent: Result<bool, TreeError>)
        ensures
            exists|found: NodeArena<T>|
                #[trigger] found.wf() && parent == (if found.has(self.index()) {
                    Ok::<bool, TreeError>(found.children_of(self.index()).len() > 0)
                } else {
                    Err(TreeError::MissingCurrentNode)
                }),
            parent matches Err(e) ==> e == TreeError::MissingCurrentNode,
            self.index() == 0 ==> parent is Ok,
    {
        let guard = self.arena.acquire_read();
        let ghost found = guard.view();
        let parent = guard.borrow().has_child(self.id);
        guard.release_read();
        proof {
            assert(found.wf() && parent == (if found.has(self.index()) {
                Ok::<bool, TreeError>(found.children_of(self.index()).len() > 0)
            } else {
                Err(TreeError::MissingCurrentNode)
            }));
        }
        parent
    }

    /// The number of children of the node, in the well-formed arena
    /// `found` that the call finds behind the lock.
    pub fn count_children(&self) -> (count: Result<usize, TreeError>)
        ensures
            exists|found: NodeArena<T>|
                #[trigger] found.wf() && count == (if found.has(self.index()) {
                    Ok::<usize, TreeError>(found.children_of(self.index()).len() as usize)
                } else {
                    Err(TreeError::MissingCurrentNode)
                }),
            count matches Err(e) ==> e == TreeError::MissingCurrentNode,
            self.index() == 0 ==> count is Ok,
    {
        let guard = self.arena.acquire_read();
        let ghost found = guard.view();
        let count = guard.borrow().count_children(self.id);
        guard.release_read();
        proof {
            assert(found.wf() && count == (if found.has(self.index()) {
                Ok::<usize, TreeError>(found.children_of(self.index()).len() as usize)
            } else {
                Err(TreeError::MissingCurrentNode)
            }));
        }
        count
    }

    /// The id of `node`, if there is a node.
    fn id_of(node: Option<Self>) -> (id: Option<NodeID>)
        ensures
            match node {
                Some(n) => id == Some(n.index()),
                None => id is None,
            },
    {
        match node {
            Some(n) => Some(n.id),
            None => None,
        }
    }

    /// The way from the node up to the root, which starts at the node itself
    /// where `include_self` is set, and otherwise at the parent that the
    /// node has in the well-formed arena `found` that the call finds behind
    /// the lock.
    pub fn ancestor(&self, include_self: bool) -> (way: Ancestors<T>)
        ensures
            way.home(self),
            include_self ==> way.at() == Some(self.index()),
            !include_self ==> exists|found: NodeArena<T>|
                #[trigger] found.wf() && way.at() == found.link_or_none(self.index()).parent,
            !include_self && self.index() == 0 ==> way.at() is None,
    {
        if include_self {
            Ancestors { arena: share(&self.arena), current: Some(self.id) }
        } else {
            let start = self.parent();
            let ghost seen = start;
            let way = Ancestors { arena: share(&self.arena), current: Self::id_of(start) };
            proof {
                let found = choose|found: NodeArena<T>|
                    #[trigger] found.wf() && self.names(
                        seen,
                        found.link_or_none(self.index()).parent,
                    );
                assert(found.wf() && way.at() == found.link_or_none(self.index()).parent);
            }
            way
        }
    }

    /// The way along the node and its siblings, from the first to the last,
    /// or from the last to the first where `reverse` is set. It starts at
    /// the first, or the last, of the siblings that the node has in the
    /// well-formed arena `found` that the call finds behind the lock, and
    /// is at its end at once where the node is not there.
    pub fn siblings(&self, reverse: bool) -> (way: Siblings<T>)
        ensures
            way.home(self),
            way.is_reversed() == reverse,
            exists|found: NodeArena<T>|
                #[trigger] found.wf() && way.at() == (if !found.has(self.index()) {
                    None::<NodeID>
                } else if reverse {
                    Some(found.siblings_of(self.index()).last())
                } else {
                    Some(found.siblings_of(self.index()).first())
                }),
            self.index() == 0 ==> way.at() == Some(self.index()),
    {
        let start = if reverse {
            self.last_sibling()
        } else {
            self.first_sibling()
        };
        let ghost seen = start;
        let current = match start {
            Ok(n) => Some(n.id),
            Err(_) => None,
        };
        let way = Siblings { arena: share(&self.arena), current, reversed: reverse };
        proof {
            if reverse {
                let found = choose|found: NodeArena<T>|
                    #[trigger] found.wf() && (match seen {
                        Ok(n) => found.has(self.index()) && n.index() == found.siblings_of(
                            self.index(),
                        ).last() && n.same_home(self),
                        Err(e) => !found.has(self.index()) && e == TreeError::MissingCurrentNode,
                    });
                assert(found.wf() && way.at() == (if !found.has(self.index()) {
                    None::<NodeID>
                } else if reverse {
                    Some(found.siblings_of(self.index()).last())
                } else {
                    Some(found.siblings_of(self.index()).first())
                }));
            } else {
                let found = choose|found: NodeArena<T>|
                    #[trigger] found.wf() && (match seen {
                        Ok(n) => found.has(self.index()) && n.index() == found.siblings_of(
                            self.index(),
                        ).first() && n.same_home(self),
                        Err(e) => !found.has(self.index()) && e == TreeError::MissingCurrentNode,
                    });
                assert(found.wf() && way.at() == (if !found.has(self.index()) {
                    None::<NodeID>
                } else if reverse {
                    Some(found.siblings_of(self.index()).last())
                } else {
                    Some(found.siblings_of(self.index()).first())
                }));
            }
        }
        way
    }

    /// The way from the node to its first sibling, which starts at the node
    /// itself where `include_self` is set, and otherwise at the sibling
    /// that the node has before it in the well-formed arena `found` that
    /// the call finds behind the lock.
    pub fn left_siblings(&self, include_self: bool) -> (way: Siblings<T>)
        ensures
            way.home(self),
            way.is_reversed(),
            include_self ==> way.at() == Some(self.index()),
            !include_self ==> exists|found: NodeArena<T>|
                #[trigger] found.wf() && way.at() == found.link_or_none(self.index()).left_sibling,
            !include_self && self.index() == 0 ==> way.at() is None,
    {
        if include_self {
            Siblings { arena: share(&self.arena), current: Some(self.id), reversed: true }
        } else {
            let start = self.left_sibling();
            let ghost seen = start;
            let way = Siblings {
                arena: share(&self.arena),
                current: Self::id_of(start),
                reversed: true,
            };
            proof {
                let found = choose|found: NodeArena<T>|
                    #[trigger] found.wf() && self.names(
                        seen,
                        found.link_or_none(self.index()).left_sibling,
                    );
                assert(found.wf() && way.at() == found.link_or_none(self.index()).left_sibling);
            }
            way
        }
    }

    /// The way from the node to its last sibling, which starts at the node
    /// itself where `include_self` is set, and otherwise at the sibling
    /// that the node has after it in the well-formed arena `found` that the
    /// call finds behind the lock.
    pub fn right_siblings(&self, include_self: bool) -> (way: Siblings<T>)
        ensures
            way.home(self),
            !way.is_reversed(),
            include_self ==> way.at() == Some(self.index()),
            !include_self ==> exists|found: NodeArena<T>|
                #[trigger] found.wf() && way.at() == found.link_or_none(self.index()).right_sibling,
            !include_self && self.index() == 0 ==> way.at() is None,
    {
        if include_self {
            Siblings { arena: share(&self.arena), current: Some(self.id), reversed: false }
        } else {
            let start = self.right_sibling();
            let ghost seen = start;
            let way = Siblings {
                arena: share(&self.arena),
                current: Self::id_of(start),
                reversed: false,
            };
            proof {
                let found = choose|found: NodeArena<T>|
                    #[trigger] found.wf() && self.names(
                        seen,
                        found.link_or_none(self.index()).right_sibling,
                    );
                assert(found.wf() && way.at() == found.link_or_none(self.index()).right_sibling);
            }
            way
        }
    }

    /// The way along the children of the node, from the first to the last,
    /// or from the last to the first where `reverse` is set. It starts at
    /// the first, or the last, child that the node has in the well-formed
    /// arena `found` that the call finds behind the lock.
    pub fn children(&self, reverse: bool) -> (way: Children<T>)
        ensures
            way.home(self),
            way.is_reversed() == reverse,
            exists|found: NodeArena<T>|
                #[trigger] found.wf() && way.at() == (if reverse {
                    found.link_or_none(self.index()).last_child
                } else {
                    found.link_or_none(self.index()).first_child
                }),
            way.at() != Some(0usize),
    {
        let start = if reverse {
            self.last_child()
        } else {
            self.first_child()
        };
        let ghost seen = start;
        let way = Children {
            row: Siblings {
                arena: share(&self.arena),
                current: Self::id_of(start),
                reversed: reverse,
            },
        };
        proof {
            if reverse {
                let found = choose|found: NodeArena<T>|
                    #[trigger] found.wf() && self.names(
                        seen,
                        found.link_or_none(self.index()).last_child,
                    );
                assert(found.wf() && way.at() == (if reverse {
                    found.link_or_none(self.index()).last_child
                } else {
                    found.link_or_none(self.index()).first_child
                }));
            } else {
                let found = choose|found: NodeArena<T>|
                    #[trigger] found.wf() && self.names(
                        seen,
                        found.link_or_none(self.index()).first_child,
                    );
                assert(found.wf() && way.at() == (if reverse {
                    found.link_or_none(self.index()).last_child
                } else {
                    found.link_or_none(self.index()).first_child
                }));
            }
        }
        way
    }

    /// The way through the node and all that is below it: each node before
    /// its children, and the children of one node first to last, each
    /// followed at once by what is below it. Where `reverse` is set, the
    /// same way from its end to its start. The way starts with the node
    /// alone on its stack, so that in every arena that holds the node it
    /// has the walk of the node to come.
    pub fn descendants(&self, reverse: bool) -> (way: Descendants<T>)
        ensures
            way.home(self),
            way.is_reversed() == reverse,
            way.waiting() == 1,
            way.stack() == (if reverse {
                Seq::<NodeID>::empty()
            } else {
                seq![self.index()]
            }),
            way.marked_stack() == (if reverse {
                seq![(self.index(), false)]
            } else {
                Seq::<(NodeID, bool)>::empty()
            }),
            forall|found: NodeArena<T>|
                found.has(self.index()) ==> #[trigger] way.to_come_in(found) == turned(
                    found.walk(self.index()),
                    reverse,
                ),
    {
        let mut forth: Vec<NodeID> = Vec::new();
        let mut back: Vec<(NodeID, bool)> = Vec::new();
        if reverse {
            back.push((self.id, false));
        } else {
            forth.push(self.id);
        }
        let way = Descendants { arena: share(&self.arena), forth, back, reversed: reverse };
        proof {
            assert(way.stack() =~= (if reverse {
                Seq::<NodeID>::empty()
            } else {
                seq![self.index()]
            }));
            assert(way.marked_stack() =~= (if reverse {
                seq![(self.index(), false)]
            } else {
                Seq::<(NodeID, bool)>::empty()
            }));
            assert forall|found: NodeArena<T>| found.has(self.index()) implies #[trigger] way.to_come_in(
                found,
            ) == turned(found.walk(self.index()), reverse) by {
                found.lemma_walk_start(self.index());
            }
        }
        way
    }

    /// Makes a new node with the payload `data` the sibling that follows
    /// `after`, under the parent of `after`. The root has no sibling. The
    /// call finds the well-formed arena `found` behind the lock and leaves
    /// the arena `left` there: `found` with the new node put behind `after`,
    /// or `found` itself where `after` is not there or is the root.
    pub fn insert_after(&self, data: T, after: &Self) -> (new: Result<Self, TreeError>)
        ensures
            match new {
                Ok(n) => n.same_home(self) && exists|found: NodeArena<T>, left: NodeArena<T>|
                    #[trigger] left.grafted(
                        &found,
                        found.parent_of(after.index())->0,
                        found.spot_of(after.index()) as int + 1,
                        n.index(),
                        data,
                    ) && found.wf() && found.has(after.index()) && after.index() != 0,
                Err(e) => exists|found: NodeArena<T>, left: NodeArena<T>|
                    #[trigger] left.replaces(&found) && left == found && e == (if found.has(
                        after.index(),
                    ) {
                        TreeError::RootSiblingOperation
                    } else {
                        TreeError::MissingCurrentNode
                    }) && (!found.has(after.index()) || after.index() == 0),
            },
            after.index() == 0 ==> (new matches Err(e) && e == TreeError::RootSiblingOperation),
            after.index() != 0 ==> (new matches Err(e) ==> e == TreeError::MissingCurrentNode),
            new matches Ok(n) ==> n.same_home(self) && n.index() != 0,
    {
        let ghost held = data;
        let (mut arena, guard) = self.arena.acquire_write();
        let ghost found = arena;
        let made = arena.insert_after(after.id, data);
        let ghost left = arena;
        guard.release_write(arena);
        let new = match made {
            Ok(n) => Ok(self.at(n)),
            Err(e) => Err(e),
        };
        proof {
            if new is Ok {
                let n = new->Ok_0;
                assert(left.grafted(
                    &found,
                    found.parent_of(after.index())->0,
                    found.spot_of(after.index()) as int + 1,
                    n.index(),
                    held,
                ) && found.wf() && found.has(after.index()) && after.index() != 0);
            } else {
                assert(left.replaces(&found) && left == found);
            }
        }
        new
    }

    /// Makes a new node with the payload `data` the sibling that precedes
    /// `before`, under the parent of `before`. The root has no sibling. The
    /// call finds the well-formed arena `found` behind the lock and leaves
    /// the arena `left` there: `found` with the new node put before
    /// `before`, or `found` itself where `before` is not there or is the
    /// root.
    pub fn insert_before(&self, data: T, before: &Self) -> (new: Result<Self, TreeError>)
        ensures
            match new {
                Ok(n) => n.same_home(self) && exists|found: NodeArena<T>, left: NodeArena<T>|
                    #[trigger] left.grafted(
                        &found,
                        found.parent_of(before.index())->0,
                        found.spot_of(before.index()) as int,
                        n.index(),
                        data,
                    ) && found.wf() && found.has(before.index()) && before.index() != 0,
                Err(e) => exists|found: NodeArena<T>, left: NodeArena<T>|
                    #[trigger] left.replaces(&found) && left == found && e == (if found.has(
                        before.index(),
                    ) {
                        TreeError::RootSiblingOperation
                    } else {
                        TreeError::MissingCurrentNode
                    }) && (!found.has(before.index()) || before.index() == 0),
            },
            before.index() == 0 ==> (new matches Err(e) && e == TreeError::RootSiblingOperation),
            before.index() != 0 ==> (new matches Err(e) ==> e == TreeError::MissingCurrentNode),
            new matches Ok(n) ==> n.same_home(self) && n.index() != 0,
    {
        let ghost held = data;
        let (mut arena, guard) = self.arena.acquire_write();
        let ghost found = arena;
        let made = arena.insert_before(before.id, data);
        let ghost left = arena;
        guard.release_write(arena);
        let new = match made {
            Ok(n) => Ok(self.at(n)),
            Err(e) => Err(e),
        };
        proof {
            if new is Ok {
                let n = new->Ok_0;
                assert(left.grafted(
                    &found,
                    found.parent_of(before.index())->0,
                    found.spot_of(before.index()) as int,
                    n.index(),
                    held,
                ) && found.wf() && found.has(before.index()) && before.index() != 0);
            } else {
                assert(left.replaces(&found) && left == found);
            }
        }
        new
    }

    /// Makes a new node with the payload `data` the sibling before the node.
    /// The root has no sibling. The call finds the well-formed arena `found`
    /// behind the lock and leaves the arena `left` there: `found` with the
    /// new node put before the node, or `found` itself where the node is
    /// not there or is the root.
    pub fn insert_left(&self, data: T) -> (new: Result<Self, TreeError>)
        ensures
            match new {
                Ok(n) => n.same_home(self) && exists|found: NodeArena<T>, left: NodeArena<T>|
                    #[trigger] left.grafted(
                        &found,
                        found.parent_of(self.index())->0,
                        found.spot_of(self.index()) as int,
                        n.index(),
                        data,
                    ) && found.wf() && found.has(self.index()) && self.index() != 0,
                Err(e) => exists|found: NodeArena<T>, left: NodeArena<T>|
                    #[trigger] left.replaces(&found) && left == found && e == (if found.has(
                        self.index(),
                    ) {
                        TreeError::RootSiblingOperation
                    } else {
                        TreeError::MissingCurrentNode
                    }) && (!found.has(self.index()) || self.index() == 0),
            },
            self.index() == 0 ==> (new matches Err(e) && e == TreeError::RootSiblingOperation),
            self.index() != 0 ==> (new matches Err(e) ==> e == TreeError::MissingCurrentNode),
            new matches Ok(n) ==> n.same_home(self) && n.index() != 0,
    {
        self.insert_before(data, self)
    }

    /// Makes a new node with the payload `data` the sibling after the node.
    /// The root has no sibling. The call finds the well-formed arena `found`
    /// behind the lock and leaves the arena `left` there: `found` with the
    /// new node put behind the node, or `found` itself where the node is not
    /// there or is the root.
    pub fn insert_right(&self, data: T) -> (new: Result<Self, TreeError>)
        ensures
            match new {
                Ok(n) => n.same_home(self) && exists|found: NodeArena<T>, left: NodeArena<T>|
                    #[trigger] left.grafted(
                        &found,
                        found.parent_of(self.index())->0,
                        found.spot_of(self.index()) as int + 1,
                        n.index(),
                        data,
                    ) && found.wf() && found.has(self.index()) && self.index() != 0,
                Err(e) => exists|found: NodeArena<T>, left: NodeArena<T>|
                    #[trigger] left.replaces(&found) && left == found && e == (if found.has(
                        self.index(),
                    ) {
                        TreeError::RootSiblingOperation
                    } else {
                        TreeError::MissingCurrentNode
                    }) && (!found.has(self.index()) || self.index() == 0),
            },
            self.index() == 0 ==> (new matches Err(e) && e == TreeError::RootSiblingOperation),
            self.index() != 0 ==> (new matches Err(e) ==> e == TreeError::MissingCurrentNode),
            new matches Ok(n) ==> n.same_home(self) && n.index() != 0,
    {
        self.insert_after(data, self)
    }

    /// Makes a new node with the payload `data` the first child of the node.
    /// The call finds the well-formed arena `found` behind the lock and
    /// leaves the arena `left` there: `found` with the new node as the
    /// first child of the node, or `found` itself where the node is not
    /// there.
    pub fn insert_child_left(&self, data: T) -> (new: Result<Self, TreeError>)
        ensures
            match new {
                Ok(n) => n.same_home(self) && exists|found: NodeArena<T>, left: NodeArena<T>|
                    #[trigger] left.grafted(&found, self.index(), 0, n.index(), data)
                        && found.wf() && found.has(self.index()),
                Err(e) => exists|found: NodeArena<T>, left: NodeArena<T>|
                    #[trigger] left.replaces(&found) && left == found && !found.has(self.index())
                        && e == TreeError::MissingCurrentNode,
            },
            new matches Err(e) ==> e == TreeError::MissingCurrentNode,
            self.index() == 0 ==> new is Ok,
            new matches Ok(n) ==> n.same_home(self) && n.index() != 0,
    {
        let ghost held = data;
        let (mut arena, guard) = self.arena.acquire_write();
        let ghost found = arena;
        let made = arena.insert_child_left(self.id, data);
        let ghost left = arena;
        guard.release_write(arena);
        let new = match made {
            Ok(n) => Ok(self.at(n)),
            Err(e) => Err(e),
        };
        proof {
            if new is Ok {
                let n = new->Ok_0;
                assert(left.grafted(&found, self.index(), 0, n.index(), held) && found.wf()
                    && found.has(self.index()));
            } else {
                assert(left.replaces(&found) && left == found);
            }
        }
        new
    }

    /// Makes a new node with the payload `data` the last child of the node.
    /// The call finds the well-formed arena `found` behind the lock and
    /// leaves the arena `left` there: `found` with the new node as the last
    /// child of the node, or `found` itself where the node is not there.
    pub fn insert_child_right(&self, data: T) -> (new: Result<Self, TreeError>)
        ensures
            match new {
                Ok(n) => n.same_home(self) && exists|found: NodeArena<T>, left: NodeArena<T>|
                    #[trigger] left.grafted(&found, self.index(), found.children_of(self.index()).len() as int, n.index(), data)
                        && found.wf() && found.has(self.index()),
                Err(e) => exists|found: NodeArena<T>, left: NodeArena<T>|
                    #[trigger] left.replaces(&found) && left == found && !found.has(self.index())
                        && e == TreeError::MissingCurrentNode,
            },
            new matches Err(e) ==> e == TreeError::MissingCurrentNode,
            self.index() == 0 ==> new is Ok,
            new matches Ok(n) ==> n.same_home(self) && n.index() != 0,
    {
        let ghost held = data;
        let (mut arena, guard) = self.arena.acquire_write();
        let ghost found = arena;
        let made = arena.insert_child_right(self.id, data);
        let ghost left = arena;
        guard.release_write(arena);
        let new = match made {
            Ok(n) => Ok(self.at(n)),
            Err(e) => Err(e),
        };
        proof {
            if new is Ok {
                let n = new->Ok_0;
                assert(left.grafted(&found, self.index(), found.children_of(self.index()).len() as int, n.index(), held) && found.wf()
                    && found.has(self.index()));
            } else {
                assert(left.replaces(&found) && left == found);
            }
        }
        new
    }

    /// What a deletion in the arena gave back, with the node at which to go
    /// on as a node of this tree.
    fn lift(&self, out: Result<DeleteNodes<NodeID, T>, TreeError>) -> (lifted: Result<
        DeleteNodes<Self, T>,
        TreeError,
    >)
        ensures
            match out {
                Ok(del) => (lifted matches Ok(l) && l.data == del.data && self.names(
                    l.rest,
                    del.rest,
                )),
                Err(e) => (lifted matches Err(f) && f == e),
            },
    {
        match out {
            Ok(del) => Ok(DeleteNodes { rest: self.at_some(del.rest), data: del.data }),
            Err(e) => Err(e),
        }
    }

    /// Removes the node and all that is below it, and hands out the
    /// payloads of what is gone, in the given order, with the parent of the
    /// node as the node at which to go on. The root itself is never removed:
    /// of the root only what is below it goes, and there is no node at which
    /// to go on. The call finds the
    /// well-formed arena `found` behind the lock and leaves the arena `left`
    /// there: `found` without what is gone, or `found` itself where the node
    /// is not there.
    pub fn delete_current(&self, order: TraversalOrder) -> (out: Result<DeleteNodes<Self, T>, TreeError>)
        ensures
            match out {
                Ok(del) => exists|found: NodeArena<T>, left: NodeArena<T>, rest: Option<NodeID>|
                    #[trigger] left.current_gone(&found, self.index(), order, rest, del.data@) && found.wf()
                        && self.names(del.rest, rest),
                Err(e) => exists|found: NodeArena<T>, left: NodeArena<T>|
                    #[trigger] left.replaces(&found) && left == found && !found.has(self.index())
                        && e == TreeError::MissingCurrentNode,
            },
            out matches Err(e) ==> e == TreeError::MissingCurrentNode,
            self.index() == 0 ==> (out matches Ok(del) && del.rest is None),
            self.index() != 0 ==> (out matches Ok(del) ==> del.rest is Some && del.rest->0.same_home(
                self,
            )),
    {
        let (mut arena, guard) = self.arena.acquire_write();
        let ghost found = arena;
        proof {
            if arena.has(self.id) {
                arena.lemma_place(self.id);
            }
        }
        let made = arena.delete_current(self.id, order);
        let ghost left = arena;
        let ghost seen = made;
        guard.release_write(arena);
        let out = self.lift(made);
        proof {
            if out is Ok {
                let del = out->Ok_0;
                assert(left.current_gone(&found, self.index(), order, seen->Ok_0.rest, del.data@)
                    && found.wf() && self.names(del.rest, seen->Ok_0.rest));
            } else {
                assert(left.replaces(&found) && left == found);
            }
        }
        out
    }

    /// Removes up to `count` siblings before the node, the nearest first,
    /// and all that is below them, and hands out the payloads of what is
    /// gone, with the sibling that then stands before the node, if there is
    /// one, as the node at which to go on. The call finds the
    /// well-formed arena `found` behind the lock and leaves the arena `left`
    /// there: `found` without what is gone, or `found` itself where the node
    /// is not there.
    pub fn delete_left(&self, count: usize) -> (out: Result<DeleteNodes<Self, T>, TreeError>)
        ensures
            match out {
                Ok(del) => exists|found: NodeArena<T>, left: NodeArena<T>, rest: Option<NodeID>|
                    #[trigger] left.left_gone(&found, self.index(), count, rest, del.data@) && found.wf()
                        && self.names(del.rest, rest),
                Err(e) => exists|found: NodeArena<T>, left: NodeArena<T>|
                    #[trigger] left.replaces(&found) && left == found && !found.has(self.index())
                        && e == TreeError::MissingCurrentNode,
            },
            out matches Err(e) ==> e == TreeError::MissingCurrentNode,
            out matches Ok(del) ==> (del.rest matches Some(n) ==> n.same_home(self)),
            self.index() == 0 ==> (out matches Ok(del) && del.rest is None && del.data@.len() == 0),
    {
        let (mut arena, guard) = self.arena.acquire_write();
        let ghost found = arena;
        proof {
            if self.id == 0 {
                assert(arena.sweep(
                    arena.siblings_of(self.id).subrange(0, 0).reverse(),
                    TraversalOrder::DepthFirst,
                ) =~= Seq::<NodeID>::empty());
            }
        }
        let made = arena.delete_left(self.id, count);
        let ghost left = arena;
        let ghost seen = made;
        guard.release_write(arena);
        let out = self.lift(made);
        proof {
            if out is Ok {
                let del = out->Ok_0;
                assert(left.left_gone(&found, self.index(), count, seen->Ok_0.rest, del.data@)
                    && found.wf() && self.names(del.rest, seen->Ok_0.rest));
            } else {
                assert(left.replaces(&found) && left == found);
            }
        }
        out
    }

    /// Removes up to `count` siblings after the node, the nearest first, and
    /// all that is below them, and hands out the payloads of what is gone,
    /// with the sibling that then stands after the node, if there is one, as
    /// the node at which to go on. The call finds the
    /// well-formed arena `found` behind the lock and leaves the arena `left`
    /// there: `found` without what is gone, or `found` itself where the node
    /// is not there.
    pub fn delete_right(&self, count: usize) -> (out: Result<DeleteNodes<Self, T>, TreeError>)
        ensures
            match out {
                Ok(del) => exists|found: NodeArena<T>, left: NodeArena<T>, rest: Option<NodeID>|
                    #[trigger] left.right_gone(&found, self.index(), count, rest, del.data@) && found.wf()
                        && self.names(del.rest, rest),
                Err(e) => exists|found: NodeArena<T>, left: NodeArena<T>|
                    #[trigger] left.replaces(&found) && left == found && !found.has(self.index())
                        && e == TreeError::MissingCurrentNode,
            },
            out matches Err(e) ==> e == TreeError::MissingCurrentNode,
            out matches Ok(del) ==> (del.rest matches Some(n) ==> n.same_home(self)),
            self.index() == 0 ==> (out matches Ok(del) && del.rest is None && del.data@.len() == 0),
    {
        let (mut arena, guard) = self.arena.acquire_write();
        let ghost found = arena;
        proof {
            if self.id == 0 {
                assert(arena.sweep(
                    arena.siblings_of(self.id).subrange(1, 1),
                    TraversalOrder::DepthFirst,
                ) =~= Seq::<NodeID>::empty());
            }
        }
        let made = arena.delete_right(self.id, count);
        let ghost left = arena;
        let ghost seen = made;
        guard.release_write(arena);
        let out = self.lift(made);
        proof {
            if out is Ok {
                let del = out->Ok_0;
                assert(left.right_gone(&found, self.index(), count, seen->Ok_0.rest, del.data@)
                    && found.wf() && self.names(del.rest, seen->Ok_0.rest));
            } else {
                assert(left.replaces(&found) && left == found);
            }
        }
        out
    }

    /// Removes the siblings of the node and all that is below them, and
    /// hands out the payloads of what is gone, in the given order, with the
    /// node as the node at which to go on. The call finds the
    /// well-formed arena `found` behind the lock and leaves the arena `left`
    /// there: `found` without what is gone, or `found` itself where the node
    /// is not there.
    pub fn delete_siblings(&self, order: TraversalOrder) -> (out: Result<DeleteNodes<Self, T>, TreeError>)
        ensures
            match out {
                Ok(del) => exists|found: NodeArena<T>, left: NodeArena<T>, rest: Option<NodeID>|
                    #[trigger] left.siblings_gone(&found, self.index(), order, rest, del.data@) && found.wf()
                        && self.names(del.rest, rest),
                Err(e) => exists|found: NodeArena<T>, left: NodeArena<T>|
                    #[trigger] left.replaces(&found) && left == found && !found.has(self.index())
                        && e == TreeError::MissingCurrentNode,
            },
            out matches Err(e) ==> e == TreeError::MissingCurrentNode,
            out matches Ok(del) ==> del.rest is Some && del.rest->0.index() == self.index()
                && del.rest->0.same_home(self),
            self.index() == 0 ==> out is Ok,
    {
        let (mut arena, guard) = self.arena.acquire_write();
        let ghost found = arena;
        let made = arena.delete_siblings(self.id, order);
        let ghost left = arena;
        let ghost seen = made;
        guard.release_write(arena);
        let out = self.lift(made);
        proof {
            if out is Ok {
                let del = out->Ok_0;
                assert(left.siblings_gone(&found, self.index(), order, seen->Ok_0.rest, del.data@)
                    && found.wf() && self.names(del.rest, seen->Ok_0.rest));
            } else {
                assert(left.replaces(&found) && left == found);
            }
        }
        out
    }

    /// Removes all that is below the node, and hands out the payloads of
    /// what is gone, in the given order, with the node as the node at which
    /// to go on. The call finds the
    /// well-formed arena `found` behind the lock and leaves the arena `left`
    /// there: `found` without what is gone, or `found` itself where the node
    /// is not there.
    pub fn delete_children(&self, order: TraversalOrder) -> (out: Result<DeleteNodes<Self, T>, TreeError>)
        ensures
            match out {
                Ok(del) => exists|found: NodeArena<T>, left: NodeArena<T>, rest: Option<NodeID>|
                    #[trigger] left.children_gone(&found, self.index(), order, rest, del.data@) && found.wf()
                        && self.names(del.rest, rest),
                Err(e) => exists|found: NodeArena<T>, left: NodeArena<T>|
                    #[trigger] left.replaces(&found) && left == found && !found.has(self.index())
                        && e == TreeError::MissingCurrentNode,
            },
            out matches Err(e) ==> e == TreeError::MissingCurrentNode,
            out matches Ok(del) ==> del.rest is Some && del.rest->0.index() == self.index()
                && del.rest->0.same_home(self),
            self.index() == 0 ==> out is Ok,
    {
        let (mut arena, guard) = self.arena.acquire_write();
        let ghost found = arena;
        let made = arena.delete_children(self.id, order);
        let ghost left = arena;
        let ghost seen = made;
        guard.release_write(arena);
        let out = self.lift(made);
        proof {
            if out is Ok {
                let del = out->Ok_0;
                assert(left.children_gone(&found, self.index(), order, seen->Ok_0.rest, del.data@)
                    && found.wf() && self.names(del.rest, seen->Ok_0.rest));
            } else {
                assert(left.replaces(&found) && left == found);
            }
        }
        out
    }

}

impl<T> Ancestors<T> {
    /// The id of the node that comes next, if one does.
    pub closed spec fn at(&self) -> Option<NodeID> {
        self.current
    }

    /// The arena that the way goes through, as the lock around it.
    pub closed spec fn tree(&self) -> Rc<RwLock<NodeArena<T>, WellFormed>> {
        self.arena
    }

    /// Whether `node` is kept in the arena that the way goes through.
    pub open spec fn home(&self, node: &Node<T>) -> bool {
        self.tree() == node.tree()
    }

    /// The node that comes next, if one does. The way goes on at the parent
    /// that the node has in the well-formed arena `found` that the call
    /// finds behind the lock.
    pub fn next(&mut self) -> (node: Option<Node<T>>)
        ensures
            match node {
                Some(n) => old(self).at() == Some(n.index()) && old(self).home(&n)
                    && exists|found: NodeArena<T>|
                    #[trigger] found.wf() && final(self).at() == found.link_or_none(
                        n.index(),
                    ).parent,
                None => old(self).at() is None && final(self).at() is None,
            },
            final(self).tree() == old(self).tree(),
            old(self).at() == Some(0usize) ==> final(self).at() is None,
    {
        match self.current {
            Some(id) => {
                let guard = self.arena.acquire_read();
                let ghost found = guard.view();
                let up = guard.borrow().parent(id);
                guard.release_read();
                self.current = match up {
                    Ok(p) => Some(p),
                    Err(_) => None,
                };
                proof {
                    assert(found.wf() && self.at() == found.link_or_none(id).parent);
                }
                Some(Node { id, arena: share(&self.arena) })
            },
            None => None,
        }
    }
}

impl<T> Siblings<T> {
    /// The id of the node that comes next, if one does.
    pub closed spec fn at(&self) -> Option<NodeID> {
        self.current
    }

    /// Whether the way leads from the last sibling to the first.
    pub closed spec fn is_reversed(&self) -> bool {
        self.reversed
    }

    /// The arena that the way goes through, as the lock around it.
    pub closed spec fn tree(&self) -> Rc<RwLock<NodeArena<T>, WellFormed>> {
        self.arena
    }

    /// Whether `node` is kept in the arena that the way goes through.
    pub open spec fn home(&self, node: &Node<T>) -> bool {
        self.tree() == node.tree()
    }

    /// The node that comes next, if one does. The way goes on at the
    /// sibling that the node has before it, where the way leads from the
    /// last to the first, or else after it, in the well-formed arena `found`
    /// that the call finds behind the lock.
    pub fn next(&mut self) -> (node: Option<Node<T>>)
        ensures
            match node {
                Some(n) => old(self).at() == Some(n.index()) && old(self).home(&n)
                    && exists|found: NodeArena<T>|
                    #[trigger] found.wf() && final(self).at() == (if old(self).is_reversed() {
                        found.link_or_none(n.index()).left_sibling
                    } else {
                        found.link_or_none(n.index()).right_sibling
                    }),
                None => old(self).at() is None && final(self).at() is None,
            },
            final(self).tree() == old(self).tree(),
            final(self).is_reversed() == old(self).is_reversed(),
            old(self).at() == Some(0usize) ==> final(self).at() is None,
    {
        match self.current {
            Some(id) => {
                let guard = self.arena.acquire_read();
                let ghost found = guard.view();
                proof {
                    if found.has(id) {
                        found.lemma_place(id);
                    }
                }
                let beside = if self.reversed {
                    guard.borrow().left_sibling(id)
                } else {
                    guard.borrow().right_sibling(id)
                };
                guard.release_read();
                self.current = match beside {
                    Ok(b) => b,
                    Err(_) => None,
                };
                proof {
                    assert(found.wf() && self.at() == (if old(self).is_reversed() {
                        found.link_or_none(id).left_sibling
                    } else {
                        found.link_or_none(id).right_sibling
                    }));
                }
                Some(Node { id, arena: share(&self.arena) })
            },
            None => None,
        }
    }
}

impl<T> Children<T> {
    /// The id of the node that comes next, if one does.
    pub closed spec fn at(&self) -> Option<NodeID> {
        self.row.at()
    }

    /// Whether the way leads from the last child to the first.
    pub closed spec fn is_reversed(&self) -> bool {
        self.row.is_reversed()
    }

    /// The arena that the way goes through, as the lock around it.
    pub closed spec fn tree(&self) -> Rc<RwLock<NodeArena<T>, WellFormed>> {
        self.row.tree()
    }

    /// Whether `node` is kept in the arena that the way goes through.
    pub open spec fn home(&self, node: &Node<T>) -> bool {
        self.tree() == node.tree()
    }

    /// The node that comes next, if one does. The way goes on at the
    /// sibling that the node has before it, where the way leads from the
    /// last to the first, or else after it, in the well-formed arena `found`
    /// that the call finds behind the lock.
    pub fn next(&mut self) -> (node: Option<Node<T>>)
        ensures
            match node {
                Some(n) => old(self).at() == Some(n.index()) && old(self).home(&n)
                    && exists|found: NodeArena<T>|
                    #[trigger] found.wf() && final(self).at() == (if old(self).is_reversed() {
                        found.link_or_none(n.index()).left_sibling
                    } else {
                        found.link_or_none(n.index()).right_sibling
                    }),
                None => old(self).at() is None && final(self).at() is None,
            },
            final(self).tree() == old(self).tree(),
            final(self).is_reversed() == old(self).is_reversed(),
    {
        self.row.next()
    }
}

impl<T> Descendants<T> {
    /// Whether the way leads from its end to its start.
    pub closed spec fn is_reversed(&self) -> bool {
        self.reversed
    }

    /// The number of nodes from which the way has still to go on.
    pub closed spec fn waiting(&self) -> nat {
        if self.reversed {
            self.back@.len()
        } else {
            self.forth@.len()
        }
    }

    /// The ids of the nodes from which a way from start to end has still to
    /// go on, the next on top.
    pub closed spec fn stack(&self) -> Seq<NodeID> {
        self.forth@
    }

    /// The ids of the nodes that a way from end to start has still to hand
    /// out, the next on top, each with the mark that says whether what is
    /// below it is on the stack already.
    pub closed spec fn marked_stack(&self) -> Seq<(NodeID, bool)> {
        self.back@
    }

    /// The arena that the way goes through, as the lock around it.
    pub closed spec fn tree(&self) -> Rc<RwLock<NodeArena<T>, WellFormed>> {
        self.arena
    }

    /// Whether `node` is kept in the arena that the way goes through.
    pub open spec fn home(&self, node: &Node<T>) -> bool {
        self.tree() == node.tree()
    }

    /// The ids of the nodes that the way has still to hand out, in their
    /// order, where the arena holds `found` and is not changed on the way.
    pub open spec fn to_come_in(&self, found: NodeArena<T>) -> Seq<NodeID> {
        if self.is_reversed() {
            found.to_come_back(self.marked_stack())
        } else {
            found.to_come(self.stack())
        }
    }

    /// The node that comes next, if one does. The way goes on through the
    /// children that the node has at this moment: of what was to come in
    /// the well-formed arena `found` that the call finds behind the lock,
    /// the first node is handed out and the rest is still to come, and
    /// where nothing was to come, no node is handed out.
    pub fn next(&mut self) -> (node: Option<Node<T>>)
        ensures
            exists|found: NodeArena<T>|
                #[trigger] found.wf() && old(self).to_come_in(found) == (match node {
                    Some(n) => seq![n.index()] + final(self).to_come_in(found),
                    None => Seq::<NodeID>::empty(),
                }) && (match node {
                    Some(n) => found.has(n.index()) && final(self).home(&n),
                    None => true,
                }),
            node is None ==> final(self).waiting() == 0,
            final(self).tree() == old(self).tree(),
            final(self).is_reversed() == old(self).is_reversed(),
    {
        let guard = self.arena.acquire_read();
        let ghost found = guard.view();
        let seen = if self.reversed {
            guard.borrow().ascend(&mut self.back)
        } else {
            guard.borrow().descend(&mut self.forth)
        };
        guard.release_read();
        let node = match seen {
            Some(id) => Some(Node { id, arena: share(&self.arena) }),
            None => None,
        };
        proof {
            assert(found.wf() && old(self).to_come_in(found) == (match node {
                Some(n) => seq![n.index()] + self.to_come_in(found),
                None => Seq::<NodeID>::empty(),
            }) && (match node {
                Some(n) => found.has(n.index()) && self.home(&n),
                None => true,
            }));
        }
        node
    }
}

} // verus!
