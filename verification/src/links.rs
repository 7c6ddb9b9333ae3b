use vstd::prelude::*;

verus! {

/// The index of a slot in the arena. The root of a tree is always `0`.
pub type NodeID = usize;

/// The position of one node in the tree, as the ids of its neighbours.
#[derive(Copy, Clone, Debug, PartialEq, Eq, Structural)]
pub struct NodeLink {
    /// The parent, or `None` for the root.
    pub parent: Option<NodeID>,
    /// The sibling to the left, if any.
    pub left_sibling: Option<NodeID>,
    /// The sibling to the right, if any.
    pub right_sibling: Option<NodeID>,
    /// The first child, or `None` for a leaf.
    pub first_child: Option<NodeID>,
    /// The last child, or `None` for a leaf.
    pub last_child: Option<NodeID>,
}

impl NodeLink {
    /// The link of a node with no neighbour at all.
    pub open spec fn unlinked() -> NodeLink {
        NodeLink {
            parent: None,
            left_sibling: None,
            right_sibling: None,
            first_child: None,
            last_child: None,
        }
    }

    /// The link of an only child of `parent` that is itself a leaf.
    pub fn new(parent: NodeID) -> (link: Self)
        ensures
            link == (NodeLink { parent: Some(parent), ..NodeLink::unlinked() }),
    {
        Self {
            parent: Some(parent),
            left_sibling: None,
            right_sibling: None,
            first_child: None,
            last_child: None,
        }
    }

    /// The same link with `sibling` to the left.
    pub fn with_sibling_left(self, sibling: NodeID) -> (link: Self)
        ensures
            link == (NodeLink { left_sibling: Some(sibling), ..self }),
    {
        Self { left_sibling: Some(sibling), ..self }
    }

    /// The same link with nothing to the left.
    pub fn without_sibling_left(self) -> (link: Self)
        ensures
            link == (NodeLink { left_sibling: None, ..self }),
    {
        Self { left_sibling: None, ..self }
    }

    /// The same link with `sibling` to the right.
    pub fn with_sibling_right(self, sibling: NodeID) -> (link: Self)
        ensures
            link == (NodeLink { right_sibling: Some(sibling), ..self }),
    {
        Self { right_sibling: Some(sibling), ..self }
    }

    /// The same link with nothing to the right.
    pub fn without_sibling_right(self) -> (link: Self)
        ensures
            link == (NodeLink { right_sibling: None, ..self }),
    {
        Self { right_sibling: None, ..self }
    }

    /// The same link with `child` as the first child.
    pub fn with_child_first(self, child: NodeID) -> (link: Self)
        ensures
            link == (NodeLink { first_child: Some(child), ..self }),
    {
        Self { first_child: Some(child), ..self }
    }

    /// The same link with no first child.
    pub fn without_child_first(self) -> (link: Self)
        ensures
            link == (NodeLink { first_child: None, ..self }),
    {
        Self { first_child: None, ..self }
    }

    /// The same link with `child` as the last child.
    pub fn with_child_last(self, child: NodeID) -> (link: Self)
        ensures
            link == (NodeLink { last_child: Some(child), ..self }),
    {
        Self { last_child: Some(child), ..self }
    }

    /// The same link with no last child.
    pub fn without_child_last(self) -> (link: Self)
        ensures
            link == (NodeLink { last_child: None, ..self }),
    {
        Self { last_child: None, ..self }
    }
}

impl Default for NodeLink {
    fn default() -> (link: Self)
        ensures
            link == NodeLink::unlinked(),
    {
        Self {
            parent: None,
            left_sibling: None,
            right_sibling: None,
            first_child: None,
            last_child: None,
        }
    }
}

} // verus!
