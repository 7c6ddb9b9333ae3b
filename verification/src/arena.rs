use vstd::prelude::*;
use crate::errors::TreeError;
use crate::links::{NodeID, NodeLink};

verus! {

/// One occupied slot of the arena: a node's position and its payload.
#[derive(Debug)]
pub struct NodeData<T> {
    pub link: NodeLink,
    pub data: T,
}

/// What the links of a well-formed arena spell out, kept beside them as a
/// ghost: for each slot the list of its children, its place in the list of
/// its parent and its distance from the root, and a bound on all distances.
pub struct Shape {
    pub kids: Seq<Seq<NodeID>>,
    pub spot: Seq<nat>,
    pub depth: Seq<nat>,
    pub height: nat,
}

impl Shape {
    /// The shape once the slot `id` is allocated anew: it has no children,
    /// and the lists grow by one entry where `id` is a slot at the end.
    pub open spec fn with_slot(self, id: NodeID) -> Shape {
        if id < self.kids.len() {
            Shape { kids: self.kids.update(id as int, Seq::empty()), ..self }
        } else {
            Shape {
                kids: self.kids.push(Seq::empty()),
                spot: self.spot.push(0),
                depth: self.depth.push(0),
                ..self
            }
        }
    }
}

/// The backing store of one tree. Slot `0` holds the root for good; a slot
/// that a deletion has vacated is on the free list until it is given out
/// again, the one vacated last first.
pub struct NodeArena<T> {
    pub(crate) nodes: Vec<Option<NodeData<T>>>,
    pub(crate) empty: Vec<NodeID>,
    pub(crate) shape: Ghost<Shape>,
}

impl<T> NodeArena<T> {
    /// The number of slots, vacant ones included.
    pub open(crate) spec fn slot_count(&self) -> nat {
        self.nodes@.len()
    }

    /// The vacant slots in the order in which they were vacated.
    pub open(crate) spec fn free_ids(&self) -> Seq<NodeID> {
        self.empty@
    }

    /// Whether `id` names a node, that is an occupied slot.
    pub open(crate) spec fn has(&self, id: NodeID) -> bool {
        id < self.nodes@.len() && self.nodes@[id as int] is Some
    }

    /// The link stored for the node `id`.
    pub open(crate) spec fn link(&self, id: NodeID) -> NodeLink {
        self.nodes@[id as int]->0.link
    }

    /// The payload stored for the node `id`.
    pub open(crate) spec fn payload(&self, id: NodeID) -> T {
        self.nodes@[id as int]->0.data
    }

    /// The children of the node `id`, first to last.
    pub open(crate) spec fn children_of(&self, id: NodeID) -> Seq<NodeID> {
        self.shape@.kids[id as int]
    }

    /// The index of the node `id` among the children of its parent.
    pub open(crate) spec fn spot_of(&self, id: NodeID) -> nat {
        self.shape@.spot[id as int]
    }

    /// The number of steps from the node `id` up to the root.
    pub open(crate) spec fn depth_of(&self, id: NodeID) -> nat {
        self.shape@.depth[id as int]
    }

    /// A bound on the depth of every node.
    pub open(crate) spec fn height(&self) -> nat {
        self.shape@.height
    }

    /// The ghost that stands beside the links.
    pub open(crate) spec fn shape(&self) -> Shape {
        self.shape@
    }

    /// The parent of the node `id`, as its link names it.
    pub open spec fn parent_of(&self, id: NodeID) -> Option<NodeID> {
        self.link(id).parent
    }

    /// The id that the next allocation gives out: the slot vacated last, or
    /// a new slot at the end where none is vacant.
    pub open spec fn next_id(&self) -> NodeID {
        if self.free_ids().len() > 0 {
            self.free_ids().last()
        } else {
            self.slot_count() as NodeID
        }
    }

    /// The free list after the next allocation.
    pub open spec fn next_free_ids(&self) -> Seq<NodeID> {
        if self.free_ids().len() > 0 {
            self.free_ids().drop_last()
        } else {
            self.free_ids()
        }
    }

    /// The number of slots after the next allocation.
    pub open spec fn next_slot_count(&self) -> nat {
        if self.free_ids().len() > 0 {
            self.slot_count()
        } else {
            self.slot_count() + 1
        }
    }

    /// Whether `id` names a slot that holds no node.
    pub open(crate) spec fn is_vacant(&self, id: NodeID) -> bool {
        id < self.nodes@.len() && self.nodes@[id as int] is None
    }

    /// The free list is sound: it names the vacant slots, each once, and the
    /// root is not among them.
    pub open(crate) spec fn slots_ok(&self) -> bool {
        &&& self.shape@.kids.len() == self.nodes@.len()
        &&& self.shape@.spot.len() == self.nodes@.len()
        &&& self.shape@.depth.len() == self.nodes@.len()
        &&& forall|k: int|
            0 <= k < self.empty@.len() ==> {
                let id = #[trigger] self.empty@[k];
                id != 0 && id < self.nodes@.len() && self.nodes@[id as int] is None
            }
        &&& forall|j: int, k: int|
            0 <= j < k < self.empty@.len() ==> self.empty@[j] != self.empty@[k]
        &&& forall|id: NodeID| #[trigger] self.is_vacant(id) ==> self.empty@.contains(id)
    }

    /// The `i`-th child of `p` is a node that names `p` as its parent and the
    /// children beside it as its siblings.
    pub open(crate) spec fn child_ok(&self, p: NodeID, i: int) -> bool {
        let ks = self.children_of(p);
        let c = ks[i];
        &&& self.has(c)
        &&& c != 0
        &&& self.link(c).parent == Some(p)
        &&& self.spot_of(c) == i
        &&& self.depth_of(c) == self.depth_of(p) + 1
        &&& self.link(c).left_sibling == (if i == 0 {
            None::<NodeID>
        } else {
            Some(ks[i - 1])
        })
        &&& self.link(c).right_sibling == (if i + 1 == ks.len() {
            None::<NodeID>
        } else {
            Some(ks[i + 1])
        })
    }

    /// The node `id` names the ends of its list of children, and stands in
    /// the list of its parent; the root has neither parent nor sibling.
    pub open(crate) spec fn node_ok(&self, id: NodeID) -> bool {
        let l = self.link(id);
        let ks = self.children_of(id);
        &&& self.depth_of(id) <= self.height()
        &&& l.first_child == (if ks.len() == 0 {
            None::<NodeID>
        } else {
            Some(ks[0])
        })
        &&& l.last_child == (if ks.len() == 0 {
            None::<NodeID>
        } else {
            Some(ks[ks.len() - 1])
        })
        &&& if id == 0 {
            &&& l.parent is None
            &&& l.left_sibling is None
            &&& l.right_sibling is None
            &&& self.depth_of(id) == 0
        } else {
            &&& l.parent is Some
            &&& self.has(l.parent->0)
            &&& self.spot_of(id) < self.children_of(l.parent->0).len()
            &&& self.children_of(l.parent->0)[self.spot_of(id) as int] == id
        }
    }

    /// The arena holds a tree: the root is there, the links of every node
    /// agree with those of its neighbours, every node but the root stands
    /// once in the list of children of its parent, and no link leads to a
    /// vacant slot.
    pub open(crate) spec fn wf(&self) -> bool {
        &&& self.slots_ok()
        &&& self.has(0)
        &&& forall|id: NodeID| self.has(id) ==> #[trigger] self.node_ok(id)
        &&& forall|p: NodeID, i: int|
            self.has(p) && 0 <= i < self.children_of(p).len() ==> #[trigger] self.child_ok(p, i)
    }

    /// Every slot but `id` is what it was in `before`.
    pub open spec fn same_but(&self, before: &Self, id: NodeID) -> bool {
        forall|x: NodeID|
            #![trigger self.has(x)]
            #![trigger before.has(x)]
            x != id ==> {
                &&& self.has(x) == before.has(x)
                &&& before.has(x) ==> self.link(x) == before.link(x) && self.payload(x)
                    == before.payload(x)
            }
    }

    /// An arena that holds a root with the payload `data` and nothing else.
    /// `capacity` is the number of slots to make room for ahead of time.
    pub fn new(data: T, capacity: usize) -> (arena: Self)
        ensures
            arena.wf(),
            arena.slot_count() == 1,
            arena.free_ids() == Seq::<NodeID>::empty(),
            arena.has(0),
            arena.payload(0) == data,
            arena.link(0) == NodeLink::unlinked(),
            arena.children_of(0) == Seq::<NodeID>::empty(),
            arena.depth_of(0) == 0,
    {
        let mut nodes: Vec<Option<NodeData<T>>> = Vec::with_capacity(capacity);
        nodes.push(Some(NodeData { link: NodeLink::default(), data }));
        let arena = NodeArena {
            nodes,
            empty: Vec::new(),
            shape: Ghost(
                Shape {
                    kids: seq![Seq::<NodeID>::empty()],
                    spot: seq![0nat],
                    depth: seq![0nat],
                    height: 0,
                },
            ),
        };
        assert(arena.node_ok(0));
        arena
    }

    /// The number of slots, vacant ones included.
    pub fn slots(&self) -> (count: usize)
        ensures
            count == self.slot_count(),
    {
        self.nodes.len()
    }

    /// The number of vacant slots.
    pub fn vacant(&self) -> (count: usize)
        ensures
            count == self.free_ids().len(),
    {
        self.empty.len()
    }

    /// The id of the root.
    pub fn root(&self) -> (id: NodeID)
        ensures
            id == 0,
    {
        0
    }

    /// Whether `node` names a node of this arena.
    pub fn contains(&self, node: NodeID) -> (found: bool)
        ensures
            found == self.has(node),
    {
        node < self.nodes.len() && self.nodes[node].is_some()
    }

    /// The slot of the node `index`.
    pub fn get(&self, index: NodeID) -> (slot: Result<&NodeData<T>, TreeError>)
        ensures
            match slot {
                Ok(s) => self.has(index) && s.link == self.link(index) && s.data == self.payload(
                    index,
                ),
                Err(e) => !self.has(index) && e == TreeError::MissingCurrentNode,
            },
    {
        if index < self.nodes.len() {
            match &self.nodes[index] {
                Some(s) => Ok(s),
                None => Err(TreeError::MissingCurrentNode),
            }
        } else {
            Err(TreeError::MissingCurrentNode)
        }
    }

    /// The slot of the node `index`, to be written to. Nothing but that slot
    /// changes. A caller who writes to the payload leaves a well-formed
    /// arena well formed, as `lemma_same_tree` says; one who writes to the
    /// link leaves an arena of which that is not known, and on which only
    /// the operations on single slots can be called.
    pub fn get_mut(&mut self, index: NodeID) -> (slot: Result<&mut NodeData<T>, TreeError>)
        ensures
            match slot {
                Ok(s) => {
                    &&& old(self).has(index)
                    &&& s.link == old(self).link(index)
                    &&& s.data == old(self).payload(index)
                    &&& final(self).has(index)
                    &&& final(self).link(index) == final(s).link
                    &&& final(self).payload(index) == final(s).data
                    &&& final(self).same_but(old(self), index)
                    &&& final(self).free_ids() == old(self).free_ids()
                    &&& final(self).slot_count() == old(self).slot_count()
                    &&& final(self).shape() == old(self).shape()
                },
                Err(e) => {
                    &&& !old(self).has(index)
                    &&& e == TreeError::MissingCurrentNode
                    &&& *final(self) == *old(self)
                },
            },
    {
        if index < self.nodes.len() && self.nodes[index].is_some() {
            match &mut self.nodes[index] {
                Some(s) => Ok(s),
                None => Err(TreeError::MissingCurrentNode),
            }
        } else {
            Err(TreeError::MissingCurrentNode)
        }
    }

    /// Whether `node` is a node without children.
    pub fn is_leaf(&self, node: NodeID) -> (leaf: bool)
        ensures
            leaf == (self.has(node) && self.link(node).first_child is None && self.link(
                node,
            ).last_child is None),
            self.wf() ==> leaf == (self.has(node) && self.children_of(node).len() == 0),
    {
        proof {
            if self.wf() && self.has(node) {
                assert(self.node_ok(node));
            }
        }
        match self.get(node) {
            Ok(s) => s.link.first_child.is_none() && s.link.last_child.is_none(),
            Err(_) => false,
        }
    }

    /// Allocates a slot for a node with the payload `data` and the link
    /// `link`, and returns its id: the slot vacated last, or else a new slot
    /// at the end. No other slot changes: it is for the caller to make the
    /// neighbours that `link` names point back at the new node.
    pub fn create(&mut self, data: T, link: NodeLink) -> (id: NodeID)
        requires
            old(self).slots_ok(),
        ensures
            final(self).slots_ok(),
            id == old(self).next_id(),
            !old(self).has(id),
            final(self).has(id),
            final(self).link(id) == link,
            final(self).payload(id) == data,
            final(self).same_but(old(self), id),
            final(self).free_ids() == old(self).next_free_ids(),
            final(self).slot_count() == old(self).next_slot_count(),
            final(self).children_of(id) == Seq::<NodeID>::empty(),
            final(self).shape() == old(self).shape().with_slot(id),
    {
        match self.empty.pop() {
            Some(id) => {
                assert(id == old(self).empty@[old(self).empty@.len() - 1]);
                self.nodes[id] = Some(NodeData { link, data });
                proof {
                    self.shape@ = self.shape@.with_slot(id);
                    assert forall|x: NodeID| #[trigger] self.is_vacant(x) implies self.empty@.contains(
                        x,
                    ) by {
                        assert(old(self).is_vacant(x));
                        let k = choose|k: int|
                            0 <= k < old(self).empty@.len() && old(self).empty@[k] == x;
                        assert(self.empty@[k] == x);
                    }
                }
                id
            },
            None => {
                self.nodes.push(Some(NodeData { link, data }));
                proof {
                    self.shape@ = self.shape@.with_slot((self.nodes.len() - 1) as NodeID);
                    assert forall|x: NodeID| #[trigger] self.is_vacant(x) implies self.empty@.contains(
                        x,
                    ) by {
                        assert(old(self).is_vacant(x));
                    }
                }
                self.nodes.len() - 1
            },
        }
    }

    /// The link of the node `id`.
    pub(crate) fn link_at(&self, id: NodeID) -> (link: NodeLink)
        requires
            self.has(id),
        ensures
            link == self.link(id),
    {
        match &self.nodes[id] {
            Some(s) => s.link,
            None => NodeLink::default(),
        }
    }

    /// Gives the node `id` the link `link`.
    pub(crate) fn set_link(&mut self, id: NodeID, link: NodeLink)
        requires
            old(self).has(id),
        ensures
            final(self).has(id),
            final(self).link(id) == link,
            final(self).payload(id) == old(self).payload(id),
            final(self).same_but(old(self), id),
            final(self).nodes@.len() == old(self).nodes@.len(),
            final(self).empty == old(self).empty,
            final(self).shape == old(self).shape,
            old(self).slots_ok() ==> final(self).slots_ok(),
    {
        match &mut self.nodes[id] {
            Some(s) => {
                s.link = link;
            },
            None => {},
        }
        proof {
            if old(self).slots_ok() {
                assert forall|k: int| 0 <= k < self.empty@.len() implies {
                    let x = #[trigger] self.empty@[k];
                    x != 0 && x < self.nodes@.len() && self.nodes@[x as int] is None
                } by {
                    let x = self.empty@[k];
                    assert(!old(self).has(x));
                    assert(!self.has(x));
                }
                assert forall|x: NodeID| #[trigger] self.is_vacant(x) implies self.empty@.contains(
                    x,
                ) by {
                    assert(!self.has(x));
                    assert(!old(self).has(x));
                    assert(old(self).is_vacant(x));
                }
            }
        }
    }

    /// The link of the node `id`, or a link that names nothing where `id`
    /// names no node.
    pub open spec fn link_or_none(&self, id: NodeID) -> NodeLink {
        if self.has(id) {
            self.link(id)
        } else {
            NodeLink::unlinked()
        }
    }

    /// `self` is a well-formed arena that stands where the well-formed
    /// arena `before` stood.
    pub open spec fn replaces(&self, before: &Self) -> bool {
        before.wf() && self.wf()
    }

    /// The free list of a well-formed arena is sound, which is what the
    /// operations on single slots ask for.
    pub proof fn lemma_slots_ok(&self)
        requires
            self.wf(),
        ensures
            self.slots_ok(),
    {
    }

    /// The tree of `self` is that of `before`, node for node and link for
    /// link; only payloads may differ.
    pub open spec fn same_tree(&self, before: &Self) -> bool {
        &&& self.slot_count() == before.slot_count()
        &&& self.free_ids() == before.free_ids()
        &&& self.shape() == before.shape()
        &&& forall|x: NodeID|
            #![trigger self.has(x)]
            #![trigger before.has(x)]
            self.has(x) == before.has(x)
        &&& forall|x: NodeID| before.has(x) ==> #[trigger] self.link(x) == before.link(x)
    }

    /// An arena with the tree of a well-formed arena is well formed.
    pub proof fn lemma_same_tree(&self, before: &Self)
        requires
            self.same_tree(before),
        ensures
            before.slots_ok() ==> self.slots_ok(),
            before.wf() ==> self.wf(),
    {
        if before.slots_ok() {
            assert forall|k: int| 0 <= k < self.empty@.len() implies {
                let x = #[trigger] self.empty@[k];
                x != 0 && x < self.nodes@.len() && self.nodes@[x as int] is None
            } by {
                let x = self.empty@[k];
                assert(x == before.empty@[k]);
                assert(!before.has(x));
                assert(!self.has(x));
            }
            assert forall|x: NodeID| #[trigger] self.is_vacant(x) implies self.empty@.contains(
                x,
            ) by {
                assert(!self.has(x));
                assert(!before.has(x));
                assert(before.is_vacant(x));
            }
        }
        if before.wf() {
            assert forall|x: NodeID| self.has(x) implies #[trigger] self.node_ok(x) by {
                assert(before.has(x));
                assert(before.node_ok(x));
                if x != 0 {
                    assert(self.has(before.link(x).parent->0));
                }
            }
            assert forall|p: NodeID, i: int|
                self.has(p) && 0 <= i < self.children_of(p).len() implies #[trigger] self.child_ok(
                p,
                i,
            ) by {
                assert(before.has(p));
                assert(before.child_ok(p, i));
                assert(self.has(before.children_of(p)[i]));
            }
        }
    }

    /// Puts the default value in the place of the payload of `node`, and
    /// hands out the payload that was there.
    pub fn take(&mut self, node: NodeID) -> (out: Result<T, TreeError>) where T: Default
        ensures
            match out {
                Ok(v) => {
                    &&& old(self).has(node)
                    &&& v == old(self).payload(node)
                    &&& T::default.ensures((), final(self).payload(node))
                    &&& final(self).same_tree(old(self))
                    &&& final(self).same_but(old(self), node)
                    &&& old(self).wf() ==> final(self).wf()
                },
                Err(e) => !old(self).has(node) && e == TreeError::MissingCurrentNode && *final(self)
                    == *old(self),
            },
    {
        if !self.contains(node) {
            return Err(TreeError::MissingCurrentNode);
        }
        let mut data = T::default();
        match &mut self.nodes[node] {
            Some(s) => {
                core::mem::swap(&mut s.data, &mut data);
            },
            None => {},
        }
        proof {
            self.lemma_same_tree(old(self));
        }
        Ok(data)
    }

    /// Exchanges the payload of `node` with `data`.
    pub fn swap(&mut self, node: NodeID, data: &mut T) -> (out: Result<(), TreeError>)
        ensures
            match out {
                Ok(_) => {
                    &&& old(self).has(node)
                    &&& *final(data) == old(self).payload(node)
                    &&& final(self).payload(node) == *old(data)
                    &&& final(self).same_tree(old(self))
                    &&& final(self).same_but(old(self), node)
                    &&& old(self).wf() ==> final(self).wf()
                },
                Err(e) => !old(self).has(node) && e == TreeError::MissingCurrentNode && *final(self)
                    == *old(self) && *final(data) == *old(data),
            },
    {
        if !self.contains(node) {
            return Err(TreeError::MissingCurrentNode);
        }
        match &mut self.nodes[node] {
            Some(s) => {
                core::mem::swap(&mut s.data, data);
            },
            None => {},
        }
        proof {
            self.lemma_same_tree(old(self));
        }
        Ok(())
    }

    /// Vacates the slot of `id`, puts it on the free list and hands out the
    /// payload. No other slot changes: it is for the caller to have taken
    /// `id` out of the links of its neighbours before. The root, which has
    /// no parent to be taken from, is never freed.
    pub fn free(&mut self, id: NodeID) -> (out: Result<T, TreeError>)
        requires
            old(self).slots_ok(),
        ensures
            match out {
                Ok(v) => {
                    &&& old(self).has(id)
                    &&& id != 0
                    &&& v == old(self).payload(id)
                    &&& !final(self).has(id)
                    &&& final(self).same_but(old(self), id)
                    &&& final(self).free_ids() == old(self).free_ids().push(id)
                    &&& final(self).slot_count() == old(self).slot_count()
                    &&& final(self).shape() == old(self).shape()
                    &&& final(self).slots_ok()
                },
                Err(e) => {
                    &&& *final(self) == *old(self)
                    &&& !old(self).has(id) || id == 0
                    &&& e == (if old(self).has(id) {
                        TreeError::MissingParentNode
                    } else {
                        TreeError::MissingCurrentNode
                    })
                },
            },
    {
        if !self.contains(id) {
            return Err(TreeError::MissingCurrentNode);
        }
        if id == 0 {
            return Err(TreeError::MissingParentNode);
        }
        Ok(self.vacate(id))
    }
}

} // verus!
