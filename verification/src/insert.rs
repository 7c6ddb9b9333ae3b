use vstd::prelude::*;
use crate::arena::{NodeArena, Shape};
use crate::errors::TreeError;
use crate::links::{NodeID, NodeLink};

verus! {

impl<T> NodeArena<T> {
    /// What an arena is once a new leaf `n` with the payload `data` has been
    /// put at index `k` among the children of `p`: the tree that `before`
    /// held and that one node more, in the slot that was next to be given
    /// out.
    pub open spec fn grafted(&self, before: &Self, p: NodeID, k: int, n: NodeID, data: T) -> bool {
        let ks = before.children_of(p);
        &&& self.wf()
        &&& n == before.next_id()
        &&& !before.has(n)
        &&& self.free_ids() == before.next_free_ids()
        &&& self.slot_count() == before.next_slot_count()
        &&& forall|x: NodeID|
            #![trigger self.has(x)]
            #![trigger before.has(x)]
            self.has(x) <==> (before.has(x) || x == n)
        &&& self.payload(n) == data
        &&& forall|x: NodeID| before.has(x) ==> #[trigger] self.payload(x) == before.payload(x)
        &&& self.children_of(p) == ks.insert(k, n)
        &&& self.children_of(n) == Seq::<NodeID>::empty()
        &&& forall|x: NodeID|
            before.has(x) && x != p ==> #[trigger] self.children_of(x) == before.children_of(x)
        &&& self.link(n) == (NodeLink {
            parent: Some(p),
            left_sibling: if k == 0 {
                None
            } else {
                Some(ks[k - 1])
            },
            right_sibling: if k == ks.len() {
                None
            } else {
                Some(ks[k])
            },
            first_child: None,
            last_child: None,
        })
        &&& self.depth_of(n) == before.depth_of(p) + 1
        &&& forall|x: NodeID| before.has(x) ==> #[trigger] self.depth_of(x) == before.depth_of(x)
    }

    /// The ghost of the arena once `n` stands at index `k` under `p`.
    pub(crate) open spec fn shape_grafted(&self, p: NodeID, k: int, n: NodeID) -> Shape {
        let s = self.shape().with_slot(n);
        Shape {
            kids: s.kids.update(p as int, self.children_of(p).insert(k, n)),
            spot: Seq::new(
                s.spot.len(),
                |x: int|
                    if x == n {
                        k as nat
                    } else if self.has(x as NodeID) && self.link(x as NodeID).parent == Some(p)
                        && self.spot_of(x as NodeID) >= k {
                        self.spot_of(x as NodeID) + 1
                    } else {
                        s.spot[x]
                    },
            ),
            depth: s.depth.update(n as int, self.depth_of(p) + 1),
            height: if self.height() > self.depth_of(p) {
                self.height()
            } else {
                self.depth_of(p) + 1
            },
        }
    }

    /// The link of the node `x` once `n` stands at index `k` under `p`.
    pub(crate) open spec fn link_grafted(&self, x: NodeID, p: NodeID, k: int, n: NodeID) -> NodeLink {
        let ks = self.children_of(p);
        let l = self.link(x);
        if x == p {
            NodeLink {
                first_child: if k == 0 {
                    Some(n)
                } else {
                    l.first_child
                },
                last_child: if k == ks.len() {
                    Some(n)
                } else {
                    l.last_child
                },
                ..l
            }
        } else if k > 0 && x == ks[k - 1] {
            NodeLink { right_sibling: Some(n), ..l }
        } else if k < ks.len() && x == ks[k] {
            NodeLink { left_sibling: Some(n), ..l }
        } else {
            l
        }
    }

    /// The slots and the ghost of `self` are those of `before` with `n` put
    /// at index `k` under `p`.
    pub(crate) open spec fn graft_step(&self, before: &Self, p: NodeID, k: int, n: NodeID) -> bool {
        let ks = before.children_of(p);
        &&& self.slots_ok()
        &&& !before.has(n)
        &&& self.has(n)
        &&& self.link(n) == (NodeLink {
            parent: Some(p),
            left_sibling: if k == 0 {
                None
            } else {
                Some(ks[k - 1])
            },
            right_sibling: if k == ks.len() {
                None
            } else {
                Some(ks[k])
            },
            first_child: None,
            last_child: None,
        })
        &&& forall|x: NodeID|
            #![trigger self.has(x)]
            #![trigger before.has(x)]
            x != n ==> self.has(x) == before.has(x)
        &&& forall|x: NodeID|
            before.has(x) ==> #[trigger] self.link(x) == before.link_grafted(x, p, k, n)
        &&& self.shape() == before.shape_grafted(p, k, n)
    }

    proof fn lemma_graft_node_ok(&self, before: &Self, p: NodeID, k: int, n: NodeID, x: NodeID)
        requires
            before.wf(),
            before.has(p),
            0 <= k <= before.children_of(p).len(),
            self.graft_step(before, p, k, n),
            self.has(x),
        ensures
            self.node_ok(x),
    {
        let ks = before.children_of(p);
        assert(before.node_ok(p));
        if k > 0 {
            assert(before.child_ok(p, k - 1));
        }
        if k < ks.len() {
            assert(before.child_ok(p, k));
        }
        if x != n {
            assert(before.has(x));
            assert(before.node_ok(x));
            assert(self.link(x) == before.link_grafted(x, p, k, n));
            if x != 0 {
                let q = before.link(x).parent->0;
                assert(before.child_ok(q, before.spot_of(x) as int));
                assert(self.has(q));
            }
        }
    }

    proof fn lemma_graft_child_ok(
        &self,
        before: &Self,
        p: NodeID,
        k: int,
        n: NodeID,
        q: NodeID,
        i: int,
    )
        requires
            before.wf(),
            before.has(p),
            0 <= k <= before.children_of(p).len(),
            self.graft_step(before, p, k, n),
            self.has(q),
            0 <= i < self.children_of(q).len(),
        ensures
            self.child_ok(q, i),
    {
        let ks = before.children_of(p);
        assert(before.node_ok(p));
        if k > 0 {
            assert(before.child_ok(p, k - 1));
        }
        if k < ks.len() {
            assert(before.child_ok(p, k));
        }
        if q == p {
            if i < k {
                let c = ks[i];
                assert(before.child_ok(p, i));
                assert(self.link(c) == before.link_grafted(c, p, k, n));
                assert(self.has(c));
                if i + 1 < k {
                    assert(before.child_ok(p, i + 1));
                }
            } else if i > k {
                let c = ks[i - 1];
                assert(before.child_ok(p, i - 1));
                assert(self.link(c) == before.link_grafted(c, p, k, n));
                assert(self.has(c));
                if i - 1 > k {
                    assert(before.child_ok(p, i - 2));
                }
            }
        } else if q != n {
            let c = before.children_of(q)[i];
            assert(before.has(q));
            assert(before.child_ok(q, i));
            assert(self.link(c) == before.link_grafted(c, p, k, n));
            assert(self.has(c));
        }
    }

    /// Puts a new leaf between the children `left` and `right` of `p`, which
    /// stand at the indices `k - 1` and `k`.
    pub(crate) fn attach(
        &mut self,
        p: NodeID,
        left: Option<NodeID>,
        right: Option<NodeID>,
        data: T,
        Ghost(k): Ghost<int>,
    ) -> (n: NodeID)
        requires
            old(self).wf(),
            old(self).has(p),
            0 <= k <= old(self).children_of(p).len(),
            left == (if k == 0 {
                None::<NodeID>
            } else {
                Some(old(self).children_of(p)[k - 1])
            }),
            right == (if k == old(self).children_of(p).len() {
                None::<NodeID>
            } else {
                Some(old(self).children_of(p)[k])
            }),
        ensures
            final(self).grafted(old(self), p, k, n, data),
    {
        let ghost a0 = *self;
        let ghost ks = self.children_of(p);
        proof {
            assert(a0.node_ok(p));
            if k > 0 {
                assert(a0.child_ok(p, k - 1));
            }
            if k < ks.len() {
                assert(a0.child_ok(p, k));
            }
        }
        let n = self.create(
            data,
            NodeLink {
                parent: Some(p),
                left_sibling: left,
                right_sibling: right,
                first_child: None,
                last_child: None,
            },
        );
        let ghost a1 = *self;
        match left {
            Some(l) => {
                let link = self.link_at(l);
                self.set_link(l, link.with_sibling_right(n));
            },
            None => {
                let link = self.link_at(p);
                self.set_link(p, link.with_child_first(n));
            },
        }
        let ghost a2 = *self;
        match right {
            Some(r) => {
                let link = self.link_at(r);
                self.set_link(r, link.with_sibling_left(n));
            },
            None => {
                let link = self.link_at(p);
                self.set_link(p, link.with_child_last(n));
            },
        }
        let ghost a3 = *self;
        proof {
            self.shape@ = a0.shape_grafted(p, k, n);
            assert forall|x: NodeID| x != n implies self.has(x) == a0.has(x) by {
                assert(a3.has(x) == a2.has(x));
                assert(a2.has(x) == a1.has(x));
            }
            assert forall|x: NodeID| a0.has(x) implies #[trigger] self.link(x) == a0.link_grafted(
                x,
                p,
                k,
                n,
            ) && self.payload(x) == a0.payload(x) by {
                assert(a1.has(x));
                assert(a2.has(x));
                assert(a3.has(x));
            }
            assert forall|x: NodeID| #[trigger] self.is_vacant(x) implies self.empty@.contains(
                x,
            ) by {
                assert(a3.is_vacant(x));
            }
            assert(self.graft_step(&a0, p, k, n));
            assert forall|x: NodeID| self.has(x) implies #[trigger] self.node_ok(x) by {
                self.lemma_graft_node_ok(&a0, p, k, n, x);
            }
            assert forall|q: NodeID, i: int|
                self.has(q) && 0 <= i < self.children_of(q).len() implies #[trigger] self.child_ok(
                q,
                i,
            ) by {
                self.lemma_graft_child_ok(&a0, p, k, n, q, i);
            }
            assert(self.wf());
        }
        n
    }

    /// Makes a new node with the payload `data` the first child of `node`.
    /// Where `node` had no child, the new node is its last child as well.
    pub fn insert_child_left(&mut self, node: NodeID, data: T) -> (new: Result<NodeID, TreeError>)
        requires
            old(self).wf(),
        ensures
            match new {
                Ok(n) => old(self).has(node) && final(self).grafted(old(self), node, 0, n, data),
                Err(e) => !old(self).has(node) && e == TreeError::MissingCurrentNode && *final(self)
                    == *old(self),
            },
    {
        if !self.contains(node) {
            return Err(TreeError::MissingCurrentNode);
        }
        proof {
            assert(self.node_ok(node));
        }
        let first = self.link_at(node).first_child;
        Ok(self.attach(node, None, first, data, Ghost(0)))
    }

    /// Makes a new node with the payload `data` the last child of `node`.
    /// Where `node` had no child, the new node is its first child as well.
    pub fn insert_child_right(&mut self, node: NodeID, data: T) -> (new: Result<NodeID, TreeError>)
        requires
            old(self).wf(),
        ensures
            match new {
                Ok(n) => old(self).has(node) && final(self).grafted(
                    old(self),
                    node,
                    old(self).children_of(node).len() as int,
                    n,
                    data,
                ),
                Err(e) => !old(self).has(node) && e == TreeError::MissingCurrentNode && *final(self)
                    == *old(self),
            },
    {
        if !self.contains(node) {
            return Err(TreeError::MissingCurrentNode);
        }
        proof {
            assert(self.node_ok(node));
        }
        let last = self.link_at(node).last_child;
        Ok(self.attach(node, last, None, data, Ghost(self.children_of(node).len() as int)))
    }

    /// Makes a new node with the payload `data` a child of `parent`: its
    /// only child where `parent` was a leaf, and its last child otherwise.
    pub fn create_child(&mut self, data: T, parent: NodeID) -> (new: Result<NodeID, TreeError>)
        requires
            old(self).wf(),
        ensures
            match new {
                Ok(n) => old(self).has(parent) && final(self).grafted(
                    old(self),
                    parent,
                    old(self).children_of(parent).len() as int,
                    n,
                    data,
                ),
                Err(e) => !old(self).has(parent) && e == TreeError::MissingCurrentNode
                    && *final(self) == *old(self),
            },
    {
        self.insert_child_right(parent, data)
    }

    /// Makes a new node with the payload `data` the sibling that follows
    /// `after`, under the parent of `after`. The root has no sibling.
    pub fn insert_after(&mut self, after: NodeID, data: T) -> (new: Result<NodeID, TreeError>)
        requires
            old(self).wf(),
        ensures
            match new {
                Ok(n) => {
                    &&& old(self).has(after)
                    &&& after != 0
                    &&& final(self).grafted(
                        old(self),
                        old(self).parent_of(after)->0,
                        old(self).spot_of(after) as int + 1,
                        n,
                        data,
                    )
                },
                Err(e) => {
                    &&& *final(self) == *old(self)
                    &&& e == (if old(self).has(after) {
                        TreeError::RootSiblingOperation
                    } else {
                        TreeError::MissingCurrentNode
                    })
                    &&& !old(self).has(after) || after == 0
                },
            },
    {
        if !self.contains(after) {
            return Err(TreeError::MissingCurrentNode);
        }
        proof {
            assert(self.node_ok(after));
        }
        let link = self.link_at(after);
        match link.parent {
            Some(p) => {
                proof {
                    assert(self.child_ok(p, self.spot_of(after) as int));
                }
                Ok(
                    self.attach(
                        p,
                        Some(after),
                        link.right_sibling,
                        data,
                        Ghost(self.spot_of(after) as int + 1),
                    ),
                )
            },
            None => Err(TreeError::RootSiblingOperation),
        }
    }

    /// Makes a new node with the payload `data` the sibling that precedes
    /// `before`, under the parent of `before`. The root has no sibling.
    pub fn insert_before(&mut self, before: NodeID, data: T) -> (new: Result<NodeID, TreeError>)
        requires
            old(self).wf(),
        ensures
            match new {
                Ok(n) => {
                    &&& old(self).has(before)
                    &&& before != 0
                    &&& final(self).grafted(
                        old(self),
                        old(self).parent_of(before)->0,
                        old(self).spot_of(before) as int,
                        n,
                        data,
                    )
                },
                Err(e) => {
                    &&& *final(self) == *old(self)
                    &&& e == (if old(self).has(before) {
                        TreeError::RootSiblingOperation
                    } else {
                        TreeError::MissingCurrentNode
                    })
                    &&& !old(self).has(before) || before == 0
                },
            },
    {
        if !self.contains(before) {
            return Err(TreeError::MissingCurrentNode);
        }
        proof {
            assert(self.node_ok(before));
        }
        let link = self.link_at(before);
        match link.parent {
            Some(p) => {
                proof {
                    assert(self.child_ok(p, self.spot_of(before) as int));
                }
                Ok(
                    self.attach(
                        p,
                        link.left_sibling,
                        Some(before),
                        data,
                        Ghost(self.spot_of(before) as int),
                    ),
                )
            },
            None => Err(TreeError::RootSiblingOperation),
        }
    }
}

} // verus!
