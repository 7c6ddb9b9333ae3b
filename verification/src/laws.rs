use vstd::prelude::*;
use crate::arena::NodeArena;
use crate::delete::TraversalOrder;
use crate::links::{NodeID, NodeLink};

verus! {

impl<T> NodeArena<T> {
    /// In a well-formed arena only the root is without a parent, every link
    /// of a node names a node, and no link names the node itself as its
    /// parent.
    pub proof fn lemma_links_name_nodes(&self, id: NodeID)
        requires
            self.wf(),
            self.has(id),
        ensures
            self.has(0),
            self.link(id).parent is None <==> id == 0,
            self.link(id).parent matches Some(x) ==> self.has(x) && x != id,
            self.link(id).left_sibling matches Some(x) ==> self.has(x) && x != id,
            self.link(id).right_sibling matches Some(x) ==> self.has(x) && x != id,
            self.link(id).first_child matches Some(x) ==> self.has(x) && x != id,
            self.link(id).last_child matches Some(x) ==> self.has(x) && x != id,
            self.link(id).first_child is None <==> self.link(id).last_child is None,
    {
        self.lemma_place(id);
        self.lemma_children_level(id);
        assert(self.node_ok(id));
        let ks = self.children_of(id);
        if ks.len() > 0 {
            assert(self.child_ok(id, 0));
            assert(self.child_ok(id, ks.len() - 1));
        }
        if id != 0 {
            let p = self.parent_of(id)->0;
            let s = self.spot_of(id) as int;
            self.lemma_children_level(p);
            assert(self.child_ok(p, s));
            if s > 0 {
                assert(self.child_ok(p, s - 1));
            }
            if s + 1 < self.children_of(p).len() {
                assert(self.child_ok(p, s + 1));
            }
        }
    }

    /// In a well-formed arena every node has a slot, the root among them,
    /// and the free list holds the slots that hold no node, each of them
    /// once.
    pub proof fn lemma_free_slots_vacant(&self)
        requires
            self.wf(),
        ensures
            self.free_ids().no_duplicates(),
            forall|k: int|
                0 <= k < self.free_ids().len() ==> !self.has(#[trigger] self.free_ids()[k])
                    && self.free_ids()[k] != 0 && self.free_ids()[k] < self.slot_count(),
            forall|id: NodeID|
                id < self.slot_count() && !self.has(id) ==> #[trigger] self.free_ids().contains(id),
            forall|id: NodeID| #[trigger] self.has(id) ==> id < self.slot_count(),
            self.has(0),
    {
        assert forall|id: NodeID| id < self.slot_count() && !self.has(id) implies #[trigger] self.free_ids().contains(
            id,
        ) by {
            assert(self.is_vacant(id));
        }
        assert forall|j: int, k: int|
            0 <= j < self.free_ids().len() && 0 <= k < self.free_ids().len() && j != k implies self.free_ids()[j]
            != self.free_ids()[k] by {
            if j < k {
                assert(self.empty@[j] != self.empty@[k]);
            } else {
                assert(self.empty@[k] != self.empty@[j]);
            }
        }
    }

    /// In a well-formed arena the children of a node are the chain that its
    /// links spell out: the first and the last child are the ends of the
    /// list, and each child names the node as its parent and the children
    /// beside it as its siblings.
    pub proof fn lemma_child_chain(&self, p: NodeID)
        requires
            self.wf(),
            self.has(p),
        ensures
            self.link(p).first_child == (if self.children_of(p).len() == 0 {
                None::<NodeID>
            } else {
                Some(self.children_of(p).first())
            }),
            self.link(p).last_child == (if self.children_of(p).len() == 0 {
                None::<NodeID>
            } else {
                Some(self.children_of(p).last())
            }),
            forall|i: int|
                0 <= i < self.children_of(p).len() ==> {
                    let c = #[trigger] self.children_of(p)[i];
                    &&& self.has(c)
                    &&& self.link(c).parent == Some(p)
                    &&& self.link(c).left_sibling == (if i == 0 {
                        None::<NodeID>
                    } else {
                        Some(self.children_of(p)[i - 1])
                    })
                    &&& self.link(c).right_sibling == (if i + 1 == self.children_of(p).len() {
                        None::<NodeID>
                    } else {
                        Some(self.children_of(p)[i + 1])
                    })
                },
    {
        assert(self.node_ok(p));
        let ks = self.children_of(p);
        assert forall|i: int| 0 <= i < ks.len() implies {
            let c = #[trigger] ks[i];
            &&& self.has(c)
            &&& self.link(c).parent == Some(p)
            &&& self.link(c).left_sibling == (if i == 0 {
                None::<NodeID>
            } else {
                Some(ks[i - 1])
            })
            &&& self.link(c).right_sibling == (if i + 1 == ks.len() {
                None::<NodeID>
            } else {
                Some(ks[i + 1])
            })
        } by {
            assert(self.child_ok(p, i));
        }
    }

    /// In a well-formed arena every node but the root stands exactly once
    /// among the children of its parent.
    pub proof fn lemma_once_among_children(&self, n: NodeID)
        requires
            self.wf(),
            self.has(n),
            n != 0,
        ensures
            self.parent_of(n) is Some,
            self.has(self.parent_of(n)->0),
            self.children_of(self.parent_of(n)->0).no_duplicates(),
            forall|i: int|
                0 <= i < self.children_of(self.parent_of(n)->0).len() ==> (
                #[trigger] self.children_of(self.parent_of(n)->0)[i] == n <==> i == self.spot_of(n)),
            0 <= self.spot_of(n) < self.children_of(self.parent_of(n)->0).len(),
    {
        self.lemma_place(n);
        let p = self.parent_of(n)->0;
        self.lemma_children_level(p);
    }

    /// In a well-formed arena the sibling links are symmetric: the node that
    /// one names as its right sibling names it as its left sibling, and the
    /// other way round, and both have the same parent.
    pub proof fn lemma_sibling_links_agree(&self, a: NodeID, b: NodeID)
        requires
            self.wf(),
            self.has(a),
            self.has(b),
        ensures
            self.link(a).right_sibling == Some(b) <==> self.link(b).left_sibling == Some(a),
            self.link(a).right_sibling == Some(b) ==> self.link(a).parent == self.link(b).parent,
    {
        self.lemma_place(a);
        self.lemma_place(b);
        if a != 0 {
            let p = self.parent_of(a)->0;
            let s = self.spot_of(a) as int;
            self.lemma_children_level(p);
            if s + 1 < self.children_of(p).len() {
                assert(self.child_ok(p, s + 1));
            }
        }
        if b != 0 {
            let q = self.parent_of(b)->0;
            let t = self.spot_of(b) as int;
            self.lemma_children_level(q);
            if t > 0 {
                assert(self.child_ok(q, t - 1));
            }
        }
    }

    /// The depth of a node is the number of steps up to the root.
    pub proof fn lemma_depth(&self, id: NodeID)
        requires
            self.wf(),
            self.has(id),
        ensures
            id == 0 ==> self.depth_of(id) == 0,
            id != 0 ==> self.depth_of(id) == self.depth_of(self.parent_of(id)->0) + 1,
    {
        assert(self.node_ok(id));
        if id != 0 {
            assert(self.child_ok(self.parent_of(id)->0, self.spot_of(id) as int));
        }
    }

    /// The path from a node up to the root starts at the node, goes from
    /// each node to its parent, ends at the root, and has one node more than
    /// the node is deep.
    pub proof fn lemma_path_up(&self, id: NodeID)
        requires
            self.wf(),
            self.has(id),
        ensures
            self.path_up(id).len() == self.depth_of(id) + 1,
            self.path_up(id).first() == id,
            self.path_up(id).last() == 0,
            forall|i: int|
                0 <= i < self.path_up(id).len() - 1 ==> self.parent_of(#[trigger] self.path_up(id)[i])
                    == Some(self.path_up(id)[i + 1]),
        decreases self.depth_of(id),
    {
        self.lemma_depth(id);
        self.lemma_place(id);
        if id != 0 {
            let p = self.parent_of(id)->0;
            self.lemma_path_up(p);
            let w = self.path_up(id);
            assert(w == seq![id] + self.path_up(p));
            assert forall|i: int| 0 <= i < w.len() - 1 implies self.parent_of(#[trigger] w[i])
                == Some(w[i + 1]) by {
                if i > 0 {
                    assert(w[i] == self.path_up(p)[i - 1]);
                    assert(w[i + 1] == self.path_up(p)[i]);
                } else {
                    assert(w[1] == self.path_up(p)[0]);
                }
            }
        }
    }

    /// The walk from a node is the node, then the walks of its children,
    /// first to last.
    pub proof fn lemma_walk_parts(&self, id: NodeID)
        requires
            self.wf(),
            self.has(id),
        ensures
            self.walk(id) == seq![id] + self.walk_each(self.children_of(id)),
    {
        let ks = self.children_of(id);
        self.lemma_walk_range_each(id, 0, ks.len() as int);
        assert(ks.subrange(0, ks.len() as int) =~= ks);
    }

    /// The level order from a level that is not empty is the level, then
    /// the level order from the children of the level.
    pub proof fn lemma_level_order_parts(&self, f: Seq<NodeID>, d: nat)
        requires
            self.wf(),
            self.level(f, d),
            f.len() > 0,
        ensures
            self.level_order(f, d) == f + self.level_order(self.next_level(f), d + 1),
            self.level(self.next_level(f), d + 1),
    {
        assert(self.has(f[0]));
        assert(self.node_ok(f[0]));
        self.lemma_next_level(f, d);
    }

    /// A walk that starts with one node on its stack has the walk of that
    /// node to come, and a walk back to front the same back to front.
    pub proof fn lemma_walk_start(&self, id: NodeID)
        requires
            self.has(id),
        ensures
            self.to_come(seq![id]) == self.walk(id),
            self.to_come_back(seq![(id, false)]) == self.walk(id).reverse(),
    {
        let one = seq![id];
        assert(one.last() == id);
        assert(one.drop_last() =~= Seq::<NodeID>::empty());
        assert(self.to_come(one.drop_last()) =~= Seq::<NodeID>::empty());
        assert(self.to_come(one) =~= self.walk(id));
        let mark = seq![(id, false)];
        assert(mark.last() == (id, false));
        assert(mark.drop_last() =~= Seq::<(NodeID, bool)>::empty());
        assert(self.to_come_back(mark.drop_last()) =~= Seq::<NodeID>::empty());
        assert(self.to_come_back(mark) =~= self.walk(id).reverse());
    }

    /// Either order of removal starts with the first root: a deletion of
    /// one node and what is below it begins with that node.
    pub proof fn lemma_sweep_first(&self, roots: Seq<NodeID>, order: TraversalOrder)
        requires
            self.wf(),
            roots.len() > 0,
            forall|j: int| 0 <= j < roots.len() ==> self.has(#[trigger] roots[j]),
        ensures
            self.sweep(roots, order).len() >= roots.len(),
            self.sweep(roots, order).first() == roots.first(),
    {
        assert(self.has(roots[0]));
        assert(self.node_ok(roots[0]));
        match order {
            TraversalOrder::DepthFirst => {
                self.lemma_walk_each_long(roots);
            },
            TraversalOrder::BreadthFirst => {},
        }
    }

    /// The walks of a list of nodes hold at least those nodes, the first of
    /// them first.
    pub proof fn lemma_walk_each_long(&self, roots: Seq<NodeID>)
        ensures
            self.walk_each(roots).len() >= roots.len(),
            roots.len() > 0 ==> self.walk_each(roots).first() == roots.first(),
        decreases roots.len(),
    {
        if roots.len() > 0 {
            self.lemma_walk_each_long(roots.drop_first());
        }
    }

    /// The node that a deletion removed first gives its slot to the next
    /// node that is made, and the new node has nothing of the old one: its
    /// links are those of a leaf at its new place.
    pub proof fn lemma_reuse_after_delete(
        &self,
        pruned: &Self,
        grown: &Self,
        above: NodeID,
        roots: Seq<NodeID>,
        order: TraversalOrder,
        p: NodeID,
        k: int,
        n: NodeID,
        data: T,
    )
        requires
            self.wf(),
            roots.len() > 0,
            forall|j: int| 0 <= j < roots.len() ==> self.has(#[trigger] roots[j]),
            pruned.cleared(self, above, roots, self.sweep(roots, order)),
            pruned.has(p),
            0 <= k <= pruned.children_of(p).len(),
            grown.grafted(pruned, p, k, n, data),
        ensures
            n == roots.first(),
            !pruned.has(n),
            grown.has(n),
            grown.payload(n) == data,
            grown.children_of(n) == Seq::<NodeID>::empty(),
            grown.link(n) == (NodeLink {
                parent: Some(p),
                left_sibling: if k == 0 {
                    None
                } else {
                    Some(pruned.children_of(p)[k - 1])
                },
                right_sibling: if k == pruned.children_of(p).len() {
                    None
                } else {
                    Some(pruned.children_of(p)[k])
                },
                first_child: None,
                last_child: None,
            }),
    {
        let gone = self.sweep(roots, order);
        self.lemma_sweep_first(roots, order);
        assert(gone.reverse().last() == gone.first());
        assert(pruned.free_ids().last() == gone.first());
    }

    /// Deleting a leaf that has no sibling removes that one node, and
    /// leaves its parent without children.
    pub proof fn lemma_delete_only_leaf(&self, after: &Self, node: NodeID, order: TraversalOrder)
        requires
            self.wf(),
            self.has(node),
            node != 0,
            self.children_of(node).len() == 0,
            self.siblings_of(node).len() == 1,
            after.cleared(
                self,
                self.parent_of(node)->0,
                seq![node],
                self.sweep(seq![node], order),
            ),
            after.children_of(self.parent_of(node)->0) == self.children_of(
                self.parent_of(node)->0,
            ).remove(self.spot_of(node) as int),
        ensures
            self.sweep(seq![node], order) == seq![node],
            self.payloads(self.sweep(seq![node], order)) == seq![self.payload(node)],
            after.has(self.parent_of(node)->0),
            after.children_of(self.parent_of(node)->0) == Seq::<NodeID>::empty(),
            after.link(self.parent_of(node)->0).first_child is None,
            after.link(self.parent_of(node)->0).last_child is None,
            !after.has(node),
    {
        let one = seq![node];
        let p = self.parent_of(node)->0;
        self.lemma_place(node);
        assert(self.node_ok(node));
        assert(one.first() == node);
        assert(one.drop_first() =~= Seq::<NodeID>::empty());
        assert(one.drop_last() =~= Seq::<NodeID>::empty());
        assert(self.walk_each(Seq::<NodeID>::empty()) =~= Seq::<NodeID>::empty());
        assert(self.walk_range(node, 0, 0) =~= Seq::<NodeID>::empty());
        assert(self.walk(node) =~= one);
        assert(self.walk_each(one) == self.walk(node) + self.walk_each(one.drop_first()));
        assert(self.walk_each(one) =~= one);
        assert(self.next_level(one.drop_last()) =~= Seq::<NodeID>::empty());
        assert(self.next_level(one) =~= Seq::<NodeID>::empty());
        assert(self.level_order(Seq::<NodeID>::empty(), self.depth_of(node) + 1)
            =~= Seq::<NodeID>::empty());
        assert(self.level_order(one, self.depth_of(node)) =~= one);
        assert(self.sweep(one, order) == one);
        assert(self.payloads(one) =~= seq![self.payload(node)]);
        assert(after.children_of(p) =~= Seq::<NodeID>::empty());
        assert(after.node_ok(p));
        assert(one[0] == node);
        assert(one.contains(node));
    }
}

/// Putting an id behind the last of a list is to push it, and putting it
/// before the first is to put it in front: children that are added on the
/// right come out in the order in which they were added, and on the left in
/// the opposite order.
pub proof fn lemma_insert_at_ends(ks: Seq<NodeID>, n: NodeID)
    ensures
        ks.insert(ks.len() as int, n) == ks.push(n),
        ks.insert(0, n) == seq![n] + ks,
{
    assert(ks.insert(ks.len() as int, n) =~= ks.push(n));
    assert(ks.insert(0, n) =~= seq![n] + ks);
}

} // verus!
