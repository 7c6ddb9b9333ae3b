use vstd::prelude::*;
use crate::arena::NodeArena;
use crate::errors::TreeError;
use crate::links::NodeID;
use crate::seqs::{
    flip,
    lemma_without_all,
    lemma_without_block,
    lemma_without_none,
    lemma_without_rest,
    lemma_without_same,
    without,
};

verus! {

/// The order in which a deletion hands out what it removes.
#[derive(Copy, Clone, Debug, PartialEq, Eq, Structural)]
pub enum TraversalOrder {
    /// Each node, then at once all that is below it, child by child.
    DepthFirst,
    /// Level by level, each level first to last.
    BreadthFirst,
}

/// What a deletion gives back: the node at which to go on, and the payloads
/// of the nodes that are gone.
pub struct DeleteNodes<N, T> {
    pub rest: Option<N>,
    pub data: Vec<T>,
}

impl<T> NodeArena<T> {
    /// The nodes of `roots` and all that is below them, in the given order.
    pub open spec fn sweep(&self, roots: Seq<NodeID>, order: TraversalOrder) -> Seq<NodeID> {
        match order {
            TraversalOrder::DepthFirst => self.walk_each(roots),
            TraversalOrder::BreadthFirst => self.level_order(roots, self.depth_of(roots.first())),
        }
    }

    /// What an arena is once the children `roots` of `p` and all that was
    /// below them, `gone` in all, have been taken out of `before`: the nodes
    /// that are left have their payload and their place, `p` has lost the
    /// children `roots` and no other node a child, and the free list has
    /// grown by `gone`, back to front.
    pub open spec fn cleared(
        &self,
        before: &Self,
        p: NodeID,
        roots: Seq<NodeID>,
        gone: Seq<NodeID>,
    ) -> bool {
        &&& self.wf()
        &&& self.free_ids() == before.free_ids() + gone.reverse()
        &&& self.slot_count() == before.slot_count()
        &&& forall|x: NodeID|
            #![trigger self.has(x)]
            #![trigger before.has(x)]
            self.has(x) <==> (before.has(x) && !gone.contains(x))
        &&& forall|x: NodeID| self.has(x) ==> #[trigger] self.payload(x) == before.payload(x)
        &&& forall|x: NodeID| self.has(x) ==> #[trigger] self.parent_of(x) == before.parent_of(x)
        &&& forall|x: NodeID| self.has(x) ==> #[trigger] self.depth_of(x) == before.depth_of(x)
        &&& forall|x: NodeID|
            self.has(x) && x != p ==> #[trigger] self.children_of(x) == before.children_of(x)
        &&& self.has(p)
        &&& self.children_of(p) == without(before.children_of(p), roots.to_set())
    }

    /// Takes the nodes `roots`, which are children of `p` at depth `d`, and
    /// all that is below them out of the tree, and hands out their payloads
    /// in the given order.
    pub(crate) fn fell(
        &mut self,
        roots: Vec<NodeID>,
        order: TraversalOrder,
        Ghost(p): Ghost<NodeID>,
        Ghost(d): Ghost<nat>,
    ) -> (data: Vec<T>)
        requires
            old(self).wf(),
            old(self).level(roots@, d),
            old(self).has(p),
            old(self).depth_of(p) + 1 == d,
            forall|j: int| 0 <= j < roots@.len() ==> old(self).parent_of(#[trigger] roots@[j]) == Some(p),
        ensures
            final(self).cleared(old(self), p, roots@, old(self).sweep(roots@, order)),
            data@ == old(self).payloads(old(self).sweep(roots@, order)),
            old(self).tidy(old(self).sweep(roots@, order), roots@.to_set(), d),
    {
        let ghost a0 = *self;
        let ghost rs = roots@;
        let ghost g = rs.to_set();
        let w = match order {
            TraversalOrder::DepthFirst => {
                proof {
                    self.lemma_walk_each_tidy(rs, d);
                }
                self.sweep_deep(roots)
            },
            TraversalOrder::BreadthFirst => {
                proof {
                    self.lemma_level_order_tidy(rs, d);
                    if rs.len() > 0 {
                        assert(self.depth_of(rs[0]) == d);
                    }
                }
                self.sweep_wide(roots, Ghost(d))
            },
        };
        let ghost gone = w@;
        assert(gone == a0.sweep(rs, order));
        assert(a0.tidy(gone, g, d));
        let data = self.prune(&w, Ghost(g), Ghost(d));
        proof {
            assert(!gone.contains(p)) by {
                if gone.contains(p) {
                    let j = choose|j: int| 0 <= j < gone.len() && gone[j] == p;
                    assert(a0.sound_at(gone, g, d, j));
                }
            }
            assert(self.has(p));
            assert forall|x: NodeID| self.has(x) implies self.children_of(x) == without(
                a0.children_of(x),
                g,
            ) by {
                let ks = a0.children_of(x);
                assert(a0.has(x) && !gone.contains(x));
                assert forall|i: int| 0 <= i < ks.len() implies gone.to_set().contains(
                    #[trigger] ks[i],
                ) == g.contains(ks[i]) by {
                    let c = ks[i];
                    assert(a0.child_ok(x, i));
                    if gone.contains(c) {
                        let j = choose|j: int| 0 <= j < gone.len() && gone[j] == c;
                        assert(a0.led_at(gone, g, j));
                        if !g.contains(c) {
                            let m = choose|m: int|
                                0 <= m < j && #[trigger] gone[m] == a0.parent_of(gone[j])->0;
                            assert(gone.contains(x));
                        }
                    }
                }
                lemma_without_same(ks, gone.to_set(), g);
            }
            assert forall|x: NodeID| self.has(x) && x != p implies #[trigger] self.children_of(x)
                == a0.children_of(x) by {
                let ks = a0.children_of(x);
                assert(a0.has(x));
                assert forall|i: int| 0 <= i < ks.len() implies !g.contains(#[trigger] ks[i]) by {
                    if g.contains(ks[i]) {
                        assert(a0.child_ok(x, i));
                        let j = choose|j: int| 0 <= j < rs.len() && rs[j] == ks[i];
                        assert(a0.parent_of(rs[j]) == Some(p));
                    }
                }
                lemma_without_none(ks, g);
            }
        }
        data
    }

    /// What an arena is once `node` and all that was below it have been
    /// taken out of `before` in the given order, or, where `node` is the
    /// root, all that was below it: `rest` is the parent of `node`, and
    /// `data` holds the payloads of what is gone.
    pub open spec fn current_gone(
        &self,
        before: &Self,
        node: NodeID,
        order: TraversalOrder,
        rest: Option<NodeID>,
        data: Seq<T>,
    ) -> bool {
        let roots = if node == 0 {
            before.children_of(node)
        } else {
            seq![node]
        };
        let p = if node == 0 {
            node
        } else {
            before.parent_of(node)->0
        };
        let gone = before.sweep(roots, order);
        &&& before.has(node)
        &&& self.cleared(before, p, roots, gone)
        &&& data == before.payloads(gone)
        &&& rest == before.parent_of(node)
        &&& self.children_of(p) == (if node == 0 {
            Seq::<NodeID>::empty()
        } else {
            before.children_of(p).remove(before.spot_of(node) as int)
        })
    }

    /// What an arena is once all that was below `node` has been taken out
    /// of `before` in the given order: `rest` is `node`, and `data` holds the
    /// payloads of what is gone.
    pub open spec fn children_gone(
        &self,
        before: &Self,
        node: NodeID,
        order: TraversalOrder,
        rest: Option<NodeID>,
        data: Seq<T>,
    ) -> bool {
        let roots = before.children_of(node);
        let gone = before.sweep(roots, order);
        &&& before.has(node)
        &&& self.cleared(before, node, roots, gone)
        &&& data == before.payloads(gone)
        &&& rest == Some(node)
        &&& self.children_of(node) == Seq::<NodeID>::empty()
    }

    /// What an arena is once the siblings of `node` and all that was below
    /// them have been taken out of `before` in the given order: `rest` is
    /// `node`, and `data` holds the payloads of what is gone.
    pub open spec fn siblings_gone(
        &self,
        before: &Self,
        node: NodeID,
        order: TraversalOrder,
        rest: Option<NodeID>,
        data: Seq<T>,
    ) -> bool {
        let roots = before.siblings_of(node).remove(before.place_of(node));
        let p = if node == 0 {
            node
        } else {
            before.parent_of(node)->0
        };
        let gone = before.sweep(roots, order);
        &&& before.has(node)
        &&& self.has(node)
        &&& self.cleared(before, p, roots, gone)
        &&& data == before.payloads(gone)
        &&& rest == Some(node)
        &&& node != 0 ==> self.children_of(p) == seq![node]
    }

    /// What an arena is once up to `count` siblings before `node`, the
    /// nearest first, and all that was below them have been taken out of
    /// `before`: `rest` is the sibling that then stands before `node`, and
    /// `data` holds the payloads of what is gone.
    pub open spec fn left_gone(
        &self,
        before: &Self,
        node: NodeID,
        count: usize,
        rest: Option<NodeID>,
        data: Seq<T>,
    ) -> bool {
        let sib = before.siblings_of(node);
        let s = before.place_of(node);
        let m = if count <= s {
            count as int
        } else {
            s
        };
        let roots = sib.subrange(s - m, s).reverse();
        let p = if node == 0 {
            node
        } else {
            before.parent_of(node)->0
        };
        let gone = before.sweep(roots, TraversalOrder::DepthFirst);
        &&& before.has(node)
        &&& self.has(node)
        &&& self.cleared(before, p, roots, gone)
        &&& data == before.payloads(gone)
        &&& rest == (if s - m == 0 {
            None::<NodeID>
        } else {
            Some(sib[s - m - 1])
        })
        &&& node != 0 ==> self.children_of(p) == sib.subrange(0, s - m)
            + sib.subrange(s, sib.len() as int)
    }

    /// What an arena is once up to `count` siblings after `node`, the
    /// nearest first, and all that was below them have been taken out of
    /// `before`: `rest` is the sibling that then stands after `node`, and
    /// `data` holds the payloads of what is gone.
    pub open spec fn right_gone(
        &self,
        before: &Self,
        node: NodeID,
        count: usize,
        rest: Option<NodeID>,
        data: Seq<T>,
    ) -> bool {
        let sib = before.siblings_of(node);
        let s = before.place_of(node);
        let m = if count <= sib.len() - 1 - s {
            count as int
        } else {
            sib.len() - 1 - s
        };
        let roots = sib.subrange(s + 1, s + 1 + m);
        let p = if node == 0 {
            node
        } else {
            before.parent_of(node)->0
        };
        let gone = before.sweep(roots, TraversalOrder::DepthFirst);
        &&& before.has(node)
        &&& self.has(node)
        &&& self.cleared(before, p, roots, gone)
        &&& data == before.payloads(gone)
        &&& rest == (if s + 1 + m == sib.len() {
            None::<NodeID>
        } else {
            Some(sib[s + 1 + m])
        })
        &&& node != 0 ==> self.children_of(p) == sib.subrange(0, s + 1)
            + sib.subrange(s + 1 + m, sib.len() as int)
    }

    /// A node at the depth of the roots of a tidy list is in the list only
    /// if it is one of the roots.
    proof fn lemma_tidy_peer(&self, w: Seq<NodeID>, g: Set<NodeID>, d: nat, x: NodeID)
        requires
            self.wf(),
            self.tidy(w, g, d),
            self.has(x),
            self.depth_of(x) == d,
            !g.contains(x),
        ensures
            !w.contains(x),
    {
        if w.contains(x) {
            let j = choose|j: int| 0 <= j < w.len() && w[j] == x;
            assert(self.sound_at(w, g, d, j));
            assert(self.top(x, d) == x);
        }
    }

    /// Removes `node` and all that is below it, and hands out the payloads
    /// of what is gone, in the given order, with the parent of `node` as the
    /// node at which to go on. The root itself is never removed: of the root
    /// only what is below it goes, and there is no node at which to go on.
    /// The slot of `node` is the next to be given out again.
    pub fn delete_current(&mut self, node: NodeID, order: TraversalOrder) -> (out: Result<
        DeleteNodes<NodeID, T>,
        TreeError,
    >)
        requires
            old(self).wf(),
        ensures
            match out {
                Ok(del) => final(self).current_gone(old(self), node, order, del.rest, del.data@),
                Err(e) => !old(self).has(node) && e == TreeError::MissingCurrentNode && *final(self)
                    == *old(self),
            },
    {
        if !self.contains(node) {
            return Err(TreeError::MissingCurrentNode);
        }
        let ghost a0 = *self;
        proof {
            self.lemma_place(node);
        }
        match self.link_at(node).parent {
            Some(p) => {
                let ghost ks = self.children_of(p);
                let ghost s = self.spot_of(node) as int;
                let ghost d = self.depth_of(node);
                let mut roots: Vec<NodeID> = Vec::new();
                roots.push(node);
                proof {
                    self.lemma_children_level(p);
                    assert(roots@ =~= seq![node]);
                    assert(self.level(roots@, d));
                }
                let data = self.fell(roots, order, Ghost(p), Ghost(d));
                proof {
                    let g = seq![node].to_set();
                    assert forall|i: int| 0 <= i < ks.len() implies g.contains(#[trigger] ks[i]) == (s
                        <= i < s + 1) by {
                        if i == s {
                            assert(seq![node][0] == ks[i]);
                        }
                        if g.contains(ks[i]) {
                            let m = choose|m: int| 0 <= m < seq![node].len() && seq![node][m] == ks[i];
                        }
                    }
                    lemma_without_block(ks, s, s + 1, g);
                }
                Ok(DeleteNodes { rest: Some(p), data })
            },
            None => {
                let ghost ks = self.children_of(node);
                let roots = match self.children(node, false) {
                    Ok(v) => v,
                    Err(_) => Vec::new(),
                };
                proof {
                    self.lemma_children_level(node);
                    assert(self.node_ok(node));
                }
                let data = self.fell(roots, order, Ghost(node), Ghost(1));
                proof {
                    assert forall|i: int| 0 <= i < ks.len() implies ks.to_set().contains(
                        #[trigger] ks[i],
                    ) by {
                        assert(ks.contains(ks[i]));
                    }
                    lemma_without_all(ks, ks.to_set());
                }
                Ok(DeleteNodes { rest: None, data })
            },
        }
    }

    /// Removes all that is below `node`, and hands out the payloads of what
    /// is gone, in the given order, with `node` as the node at which to go
    /// on.
    pub fn delete_children(&mut self, node: NodeID, order: TraversalOrder) -> (out: Result<
        DeleteNodes<NodeID, T>,
        TreeError,
    >)
        requires
            old(self).wf(),
        ensures
            match out {
                Ok(del) => final(self).children_gone(old(self), node, order, del.rest, del.data@),
                Err(e) => !old(self).has(node) && e == TreeError::MissingCurrentNode && *final(self)
                    == *old(self),
            },
    {
        let roots = match self.children(node, false) {
            Ok(v) => v,
            Err(e) => {
                return Err(e);
            },
        };
        let ghost ks = self.children_of(node);
        proof {
            self.lemma_children_level(node);
        }
        let data = self.fell(roots, order, Ghost(node), Ghost(self.depth_of(node) + 1));
        proof {
            assert forall|i: int| 0 <= i < ks.len() implies ks.to_set().contains(
                #[trigger] ks[i],
            ) by {
                assert(ks.contains(ks[i]));
            }
            lemma_without_all(ks, ks.to_set());
        }
        Ok(DeleteNodes { rest: Some(node), data })
    }

    /// Removes the siblings of `node` and all that is below them, and hands
    /// out the payloads of what is gone, in the given order, with `node` as
    /// the node at which to go on. The root has no sibling to remove.
    pub fn delete_siblings(&mut self, node: NodeID, order: TraversalOrder) -> (out: Result<
        DeleteNodes<NodeID, T>,
        TreeError,
    >)
        requires
            old(self).wf(),
        ensures
            match out {
                Ok(del) => final(self).siblings_gone(old(self), node, order, del.rest, del.data@),
                Err(e) => !old(self).has(node) && e == TreeError::MissingCurrentNode && *final(self)
                    == *old(self),
            },
    {
        if !self.contains(node) {
            return Err(TreeError::MissingCurrentNode);
        }
        let ghost a0 = *self;
        let ghost sib = self.siblings_of(node);
        let ghost s = self.place_of(node);
        proof {
            self.lemma_place(node);
        }
        let left = match self.left_siblings(node, false) {
            Ok(v) => v,
            Err(_) => Vec::new(),
        };
        let mut right = match self.right_siblings(node, false) {
            Ok(v) => v,
            Err(_) => Vec::new(),
        };
        let mut roots = flip(left);
        roots.append(&mut right);
        proof {
            assert(sib.subrange(0, s).reverse().reverse() =~= sib.subrange(0, s));
            assert(roots@ =~= sib.remove(s));
        }
        match self.link_at(node).parent {
            Some(p) => {
                let ghost d = self.depth_of(node);
                proof {
                    self.lemma_children_level(p);
                    assert forall|j: int| 0 <= j < roots@.len() implies sib.contains(
                        #[trigger] roots@[j],
                    ) && self.parent_of(roots@[j]) == Some(p) && roots@[j] != node by {
                        if j < s {
                            assert(roots@[j] == sib[j]);
                        } else {
                            assert(roots@[j] == sib[j + 1]);
                        }
                    }
                    assert forall|a: int, b: int|
                        0 <= a < roots@.len() && 0 <= b < roots@.len() && a != b implies roots@[a]
                        != roots@[b] by {
                        let a2 = if a < s {
                            a
                        } else {
                            a + 1
                        };
                        let b2 = if b < s {
                            b
                        } else {
                            b + 1
                        };
                        assert(roots@[a] == sib[a2] && roots@[b] == sib[b2]);
                    }
                    self.lemma_level_pick(sib, roots@, d);
                }
                let ghost rs = roots@;
                let data = self.fell(roots, order, Ghost(p), Ghost(d));
                proof {
                    let g = rs.to_set();
                    assert forall|i: int| 0 <= i < sib.len() implies g.contains(#[trigger] sib[i])
                        == !(s <= i < s + 1) by {
                        if i < s {
                            assert(rs[i] == sib[i]);
                            assert(rs.contains(sib[i]));
                        } else if i > s {
                            assert(rs[i - 1] == sib[i]);
                            assert(rs.contains(sib[i]));
                        } else {
                            if g.contains(sib[i]) {
                                let m = choose|m: int| 0 <= m < rs.len() && rs[m] == sib[i];
                            }
                        }
                    }
                    lemma_without_rest(sib, s, s + 1, g);
                    assert(sib.subrange(s, s + 1) =~= seq![node]);
                    a0.lemma_tidy_peer(a0.sweep(rs, order), g, d, node);
                }
                Ok(DeleteNodes { rest: Some(node), data })
            },
            None => {
                proof {
                    assert(roots@ =~= Seq::<NodeID>::empty());
                    assert(self.node_ok(node));
                }
                let ghost rs = roots@;
                let data = self.fell(roots, order, Ghost(node), Ghost(1));
                proof {
                    assert(a0.sweep(rs, order) =~= Seq::<NodeID>::empty());
                }
                Ok(DeleteNodes { rest: Some(node), data })
            },
        }
    }

    /// Removes up to `count` siblings before `node`, the nearest first, and
    /// all that is below them, and hands out the payloads of what is gone:
    /// those of the nearest sibling and of what was below it, then those of
    /// the next. The node at which to go on is the sibling that then stands
    /// before `node`, if there is one.
    pub fn delete_left(&mut self, node: NodeID, count: usize) -> (out: Result<
        DeleteNodes<NodeID, T>,
        TreeError,
    >)
        requires
            old(self).wf(),
        ensures
            match out {
                Ok(del) => final(self).left_gone(old(self), node, count, del.rest, del.data@),
                Err(e) => !old(self).has(node) && e == TreeError::MissingCurrentNode && *final(self)
                    == *old(self),
            },
    {
        if !self.contains(node) {
            return Err(TreeError::MissingCurrentNode);
        }
        let ghost a0 = *self;
        let ghost sib = self.siblings_of(node);
        let ghost s = self.place_of(node);
        let ghost m = if count <= s {
            count as int
        } else {
            s
        };
        proof {
            self.lemma_place(node);
        }
        let mut roots = match self.left_siblings(node, false) {
            Ok(v) => v,
            Err(_) => Vec::new(),
        };
        roots.truncate(count);
        let ghost rs = roots@;
        proof {
            assert(rs =~= sib.subrange(s - m, s).reverse());
        }
        match self.link_at(node).parent {
            Some(p) => {
                let ghost d = self.depth_of(node);
                proof {
                    self.lemma_children_level(p);
                    assert forall|j: int| 0 <= j < rs.len() implies sib.contains(#[trigger] rs[j])
                        && self.parent_of(rs[j]) == Some(p) by {
                        assert(rs[j] == sib[s - 1 - j]);
                    }
                    assert forall|a: int, b: int|
                        0 <= a < rs.len() && 0 <= b < rs.len() && a != b implies rs[a] != rs[b] by {
                        assert(rs[a] == sib[s - 1 - a] && rs[b] == sib[s - 1 - b]);
                    }
                    self.lemma_level_pick(sib, rs, d);
                }
                let data = self.fell(roots, TraversalOrder::DepthFirst, Ghost(p), Ghost(d));
                proof {
                    let g = rs.to_set();
                    assert forall|i: int| 0 <= i < sib.len() implies g.contains(#[trigger] sib[i]) == (
                    s - m <= i < s) by {
                        if s - m <= i < s {
                            assert(rs[s - 1 - i] == sib[i]);
                            assert(rs.contains(sib[i]));
                        } else if g.contains(sib[i]) {
                            let j = choose|j: int| 0 <= j < rs.len() && rs[j] == sib[i];
                            assert(rs[j] == sib[s - 1 - j]);
                        }
                    }
                    lemma_without_block(sib, s - m, s, g);
                    a0.lemma_tidy_peer(
                        a0.sweep(rs, TraversalOrder::DepthFirst),
                        g,
                        d,
                        node,
                    );
                    let kept = self.children_of(p);
                    self.lemma_place(node);
                    self.lemma_children_level(p);
                    assert(kept[s - m] == node);
                    if s - m > 0 {
                        assert(kept[s - m - 1] == sib[s - m - 1]);
                    }
                }
                let rest = match self.left_sibling(node) {
                    Ok(r) => r,
                    Err(_) => None,
                };
                Ok(DeleteNodes { rest, data })
            },
            None => {
                proof {
                    assert(rs =~= Seq::<NodeID>::empty());
                    assert(self.node_ok(node));
                }
                let data = self.fell(roots, TraversalOrder::DepthFirst, Ghost(node), Ghost(1));
                proof {
                    assert(a0.sweep(rs, TraversalOrder::DepthFirst) =~= Seq::<NodeID>::empty());
                }
                Ok(DeleteNodes { rest: None, data })
            },
        }
    }

    /// Removes up to `count` siblings after `node`, the nearest first, and
    /// all that is below them, and hands out the payloads of what is gone:
    /// those of the nearest sibling and of what was below it, then those of
    /// the next. The node at which to go on is the sibling that then stands
    /// after `node`, if there is one.
    pub fn delete_right(&mut self, node: NodeID, count: usize) -> (out: Result<
        DeleteNodes<NodeID, T>,
        TreeError,
    >)
        requires
            old(self).wf(),
        ensures
            match out {
                Ok(del) => final(self).right_gone(old(self), node, count, del.rest, del.data@),
                Err(e) => !old(self).has(node) && e == TreeError::MissingCurrentNode && *final(self)
                    == *old(self),
            },
    {
        if !self.contains(node) {
            return Err(TreeError::MissingCurrentNode);
        }
        let ghost a0 = *self;
        let ghost sib = self.siblings_of(node);
        let ghost s = self.place_of(node);
        let ghost m = if count <= sib.len() - 1 - s {
            count as int
        } else {
            sib.len() - 1 - s
        };
        proof {
            self.lemma_place(node);
        }
        let mut roots = match self.right_siblings(node, false) {
            Ok(v) => v,
            Err(_) => Vec::new(),
        };
        roots.truncate(count);
        let ghost rs = roots@;
        proof {
            assert(rs =~= sib.subrange(s + 1, s + 1 + m));
        }
        match self.link_at(node).parent {
            Some(p) => {
                let ghost d = self.depth_of(node);
                proof {
                    self.lemma_children_level(p);
                    assert forall|j: int| 0 <= j < rs.len() implies sib.contains(#[trigger] rs[j])
                        && self.parent_of(rs[j]) == Some(p) by {
                        assert(rs[j] == sib[s + 1 + j]);
                    }
                    assert forall|a: int, b: int|
                        0 <= a < rs.len() && 0 <= b < rs.len() && a != b implies rs[a] != rs[b] by {
                        assert(rs[a] == sib[s + 1 + a] && rs[b] == sib[s + 1 + b]);
                    }
                    self.lemma_level_pick(sib, rs, d);
                }
                let data = self.fell(roots, TraversalOrder::DepthFirst, Ghost(p), Ghost(d));
                proof {
                    let g = rs.to_set();
                    assert forall|i: int| 0 <= i < sib.len() implies g.contains(#[trigger] sib[i]) == (
                    s + 1 <= i < s + 1 + m) by {
                        if s + 1 <= i < s + 1 + m {
                            assert(rs[i - s - 1] == sib[i]);
                            assert(rs.contains(sib[i]));
                        } else if g.contains(sib[i]) {
                            let j = choose|j: int| 0 <= j < rs.len() && rs[j] == sib[i];
                            assert(rs[j] == sib[s + 1 + j]);
                        }
                    }
                    lemma_without_block(sib, s + 1, s + 1 + m, g);
                    a0.lemma_tidy_peer(
                        a0.sweep(rs, TraversalOrder::DepthFirst),
                        g,
                        d,
                        node,
                    );
                    let kept = self.children_of(p);
                    self.lemma_place(node);
                    self.lemma_children_level(p);
                    assert(kept[s] == node);
                    if s + 1 + m < sib.len() {
                        assert(kept[s + 1] == sib[s + 1 + m]);
                    }
                }
                let rest = match self.right_sibling(node) {
                    Ok(r) => r,
                    Err(_) => None,
                };
                Ok(DeleteNodes { rest, data })
            },
            None => {
                proof {
                    assert(rs =~= Seq::<NodeID>::empty());
                    assert(self.node_ok(node));
                }
                let data = self.fell(roots, TraversalOrder::DepthFirst, Ghost(node), Ghost(1));
                proof {
                    assert(a0.sweep(rs, TraversalOrder::DepthFirst) =~= Seq::<NodeID>::empty());
                }
                Ok(DeleteNodes { rest: None, data })
            },
        }
    }
}

} // verus!
