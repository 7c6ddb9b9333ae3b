use vstd::prelude::*;
use crate::arena::{NodeArena, Shape};
use crate::links::{NodeID, NodeLink};
use crate::seqs::{lemma_without_all, lemma_without_none, lemma_without_remove, lemma_without_same, without};

verus! {

impl<T> NodeArena<T> {
    /// What an arena is once the leaf `y` has been taken out of `before`: the
    /// same tree without that node, whose slot is the last on the free list.
    pub open spec fn plucked(&self, before: &Self, y: NodeID) -> bool {
        let p = before.parent_of(y)->0;
        &&& self.wf()
        &&& self.free_ids() == before.free_ids().push(y)
        &&& self.slot_count() == before.slot_count()
        &&& forall|x: NodeID|
            #![trigger self.has(x)]
            #![trigger before.has(x)]
            self.has(x) <==> (before.has(x) && x != y)
        &&& forall|x: NodeID| self.has(x) ==> #[trigger] self.payload(x) == before.payload(x)
        &&& forall|x: NodeID| self.has(x) ==> #[trigger] self.parent_of(x) == before.parent_of(x)
        &&& forall|x: NodeID| self.has(x) ==> #[trigger] self.depth_of(x) == before.depth_of(x)
        &&& self.children_of(p) == before.children_of(p).remove(before.spot_of(y) as int)
        &&& forall|x: NodeID|
            self.has(x) && x != p ==> #[trigger] self.children_of(x) == before.children_of(x)
        &&& self.height() == before.height()
    }

    /// The ghost of the arena once the leaf `y` is gone.
    pub(crate) open spec fn shape_plucked(&self, y: NodeID) -> Shape {
        let p = self.parent_of(y)->0;
        let s = self.spot_of(y);
        Shape {
            kids: self.shape().kids.update(p as int, self.children_of(p).remove(s as int)),
            spot: Seq::new(
                self.shape().spot.len(),
                |x: int|
                    if self.has(x as NodeID) && self.link(x as NodeID).parent == Some(p)
                        && self.spot_of(x as NodeID) > s {
                        (self.spot_of(x as NodeID) - 1) as nat
                    } else {
                        self.shape().spot[x]
                    },
            ),
            ..self.shape()
        }
    }

    /// The link of the node `x` once the leaf `y` is gone.
    pub(crate) open spec fn link_plucked(&self, x: NodeID, y: NodeID) -> NodeLink {
        let p = self.parent_of(y)->0;
        let ks = self.children_of(p);
        let s = self.spot_of(y) as int;
        let l = self.link(x);
        if x == p {
            NodeLink {
                first_child: if s == 0 {
                    self.link(y).right_sibling
                } else {
                    l.first_child
                },
                last_child: if s + 1 == ks.len() {
                    self.link(y).left_sibling
                } else {
                    l.last_child
                },
                ..l
            }
        } else if s > 0 && x == ks[s - 1] {
            NodeLink { right_sibling: self.link(y).right_sibling, ..l }
        } else if s + 1 < ks.len() && x == ks[s + 1] {
            NodeLink { left_sibling: self.link(y).left_sibling, ..l }
        } else {
            l
        }
    }

    /// The slots and the ghost of `self` are those of `before` with the leaf
    /// `y` taken out.
    pub(crate) open spec fn pluck_step(&self, before: &Self, y: NodeID) -> bool {
        &&& self.slots_ok()
        &&& !self.has(y)
        &&& forall|x: NodeID|
            #![trigger self.has(x)]
            #![trigger before.has(x)]
            x != y ==> self.has(x) == before.has(x)
        &&& forall|x: NodeID|
            before.has(x) && x != y ==> #[trigger] self.link(x) == before.link_plucked(x, y)
        &&& self.shape() == before.shape_plucked(y)
    }

    proof fn lemma_pluck_node_ok(&self, before: &Self, y: NodeID, x: NodeID)
        requires
            before.wf(),
            before.has(y),
            y != 0,
            before.children_of(y).len() == 0,
            self.pluck_step(before, y),
            self.has(x),
        ensures
            self.node_ok(x),
    {
        let p = before.parent_of(y)->0;
        let s = before.spot_of(y) as int;
        let ks = before.children_of(p);
        assert(before.node_ok(y));
        assert(before.node_ok(p));
        assert(before.child_ok(p, s));
        if s > 0 {
            assert(before.child_ok(p, s - 1));
        }
        if s + 1 < ks.len() {
            assert(before.child_ok(p, s + 1));
        }
        assert(before.has(x));
        assert(before.node_ok(x));
        assert(self.link(x) == before.link_plucked(x, y));
        if x != 0 {
            let q = before.link(x).parent->0;
            assert(before.child_ok(q, before.spot_of(x) as int));
            assert(self.has(q));
        }
    }

    proof fn lemma_pluck_child_ok(&self, before: &Self, y: NodeID, q: NodeID, i: int)
        requires
            before.wf(),
            before.has(y),
            y != 0,
            before.children_of(y).len() == 0,
            self.pluck_step(before, y),
            self.has(q),
            0 <= i < self.children_of(q).len(),
        ensures
            self.child_ok(q, i),
    {
        let p = before.parent_of(y)->0;
        let s = before.spot_of(y) as int;
        let ks = before.children_of(p);
        assert(before.node_ok(y));
        assert(before.node_ok(p));
        assert(before.child_ok(p, s));
        if s > 0 {
            assert(before.child_ok(p, s - 1));
        }
        if s + 1 < ks.len() {
            assert(before.child_ok(p, s + 1));
        }
        assert(before.has(q));
        if q == p {
            let j = if i < s {
                i
            } else {
                i + 1
            };
            let c = ks[j];
            assert(before.child_ok(p, j));
            assert(self.link(c) == before.link_plucked(c, y));
            assert(self.has(c));
            if j > 0 {
                assert(before.child_ok(p, j - 1));
            }
            if j + 1 < ks.len() {
                assert(before.child_ok(p, j + 1));
            }
        } else {
            let c = before.children_of(q)[i];
            assert(before.child_ok(q, i));
            assert(self.link(c) == before.link_plucked(c, y));
            assert(self.has(c));
        }
    }

    /// Takes the slot of the node `id` out of use and hands out its payload.
    pub(crate) fn vacate(&mut self, id: NodeID) -> (data: T)
        requires
            old(self).has(id),
            id != 0,
            old(self).slots_ok(),
        ensures
            !final(self).has(id),
            data == old(self).payload(id),
            final(self).same_but(old(self), id),
            final(self).nodes@.len() == old(self).nodes@.len(),
            final(self).empty@ == old(self).empty@.push(id),
            final(self).shape == old(self).shape,
            final(self).slots_ok(),
    {
        let slot = self.nodes[id].take();
        self.empty.push(id);
        proof {
            assert forall|k: int| 0 <= k < self.empty@.len() implies {
                let x = #[trigger] self.empty@[k];
                x != 0 && x < self.nodes@.len() && self.nodes@[x as int] is None
            } by {
                let x = self.empty@[k];
                if k < old(self).empty@.len() {
                    assert(x == old(self).empty@[k]);
                    assert(!old(self).has(x));
                    assert(!self.has(x));
                }
            }
            assert forall|j: int, k: int| 0 <= j < k < self.empty@.len() implies self.empty@[j]
                != self.empty@[k] by {
                if k == old(self).empty@.len() {
                    assert(self.empty@[j] == old(self).empty@[j]);
                    assert(!old(self).has(self.empty@[j]));
                }
            }
            assert forall|x: NodeID| #[trigger] self.is_vacant(x) implies self.empty@.contains(
                x,
            ) by {
                if x == id {
                    assert(self.empty@[self.empty@.len() - 1] == x);
                } else {
                    assert(!self.has(x));
                    assert(!old(self).has(x));
                    assert(old(self).is_vacant(x));
                    let k = choose|k: int|
                        0 <= k < old(self).empty@.len() && old(self).empty@[k] == x;
                    assert(self.empty@[k] == x);
                }
            }
        }
        slot.unwrap().data
    }

    /// Takes the leaf `y` out of the tree and hands out its payload.
    pub(crate) fn pluck(&mut self, y: NodeID) -> (data: T)
        requires
            old(self).wf(),
            old(self).has(y),
            y != 0,
            old(self).children_of(y).len() == 0,
        ensures
            final(self).plucked(old(self), y),
            data == old(self).payload(y),
    {
        let ghost a0 = *self;
        let ghost p = self.parent_of(y)->0;
        let ghost s = self.spot_of(y) as int;
        let ghost ks = self.children_of(p);
        proof {
            assert(a0.node_ok(y));
            assert(a0.node_ok(p));
            assert(a0.child_ok(p, s));
            if s > 0 {
                assert(a0.child_ok(p, s - 1));
            }
            if s + 1 < ks.len() {
                assert(a0.child_ok(p, s + 1));
            }
        }
        let link = self.link_at(y);
        let parent = match link.parent {
            Some(q) => q,
            None => 0,
        };
        match link.left_sibling {
            Some(l) => {
                let ll = self.link_at(l);
                self.set_link(l, NodeLink { right_sibling: link.right_sibling, ..ll });
            },
            None => {
                let pl = self.link_at(parent);
                self.set_link(parent, NodeLink { first_child: link.right_sibling, ..pl });
            },
        }
        let ghost a1 = *self;
        match link.right_sibling {
            Some(r) => {
                let rl = self.link_at(r);
                self.set_link(r, NodeLink { left_sibling: link.left_sibling, ..rl });
            },
            None => {
                let pl = self.link_at(parent);
                self.set_link(parent, NodeLink { last_child: link.left_sibling, ..pl });
            },
        }
        let ghost a2 = *self;
        let data = self.vacate(y);
        let ghost a3 = *self;
        proof {
            self.shape@ = a0.shape_plucked(y);
            assert forall|x: NodeID| x != y implies self.has(x) == a0.has(x) by {
                assert(a3.has(x) == a2.has(x));
                assert(a2.has(x) == a1.has(x));
            }
            assert forall|x: NodeID| a0.has(x) && x != y implies #[trigger] self.link(x)
                == a0.link_plucked(x, y) && self.payload(x) == a0.payload(x) by {
                assert(a1.has(x));
                assert(a2.has(x));
                assert(a3.has(x));
            }
            assert forall|x: NodeID| #[trigger] self.is_vacant(x) implies self.empty@.contains(
                x,
            ) by {
                assert(a3.is_vacant(x));
            }
            assert(self.pluck_step(&a0, y));
            assert forall|x: NodeID| self.has(x) implies #[trigger] self.node_ok(x) by {
                self.lemma_pluck_node_ok(&a0, y, x);
            }
            assert forall|q: NodeID, i: int|
                self.has(q) && 0 <= i < self.children_of(q).len() implies #[trigger] self.child_ok(
                q,
                i,
            ) by {
                self.lemma_pluck_child_ok(&a0, y, q, i);
            }
            assert(self.wf());
            assert forall|x: NodeID| self.has(x) implies #[trigger] self.parent_of(x)
                == a0.parent_of(x) by {
                assert(a0.has(x));
                assert(self.link(x) == a0.link_plucked(x, y));
            }
        }
        data
    }

    /// The payloads of the nodes `ids`, in the order of `ids`.
    pub open spec fn payloads(&self, ids: Seq<NodeID>) -> Seq<T> {
        Seq::new(ids.len(), |i: int| self.payload(ids[i]))
    }

    /// What an arena is once the nodes `gone` have been taken out of
    /// `before`, the last of them first: the nodes that are left are as they
    /// were, but for the children that they have lost, and the free list has
    /// grown by `gone`, back to front.
    pub open spec fn pruned(&self, before: &Self, gone: Seq<NodeID>) -> bool {
        &&& self.wf()
        &&& self.free_ids() == before.free_ids() + gone.reverse()
        &&& self.slot_count() == before.slot_count()
        &&& self.height() == before.height()
        &&& forall|x: NodeID|
            #![trigger self.has(x)]
            #![trigger before.has(x)]
            self.has(x) <==> (before.has(x) && !gone.contains(x))
        &&& forall|x: NodeID| self.has(x) ==> #[trigger] self.payload(x) == before.payload(x)
        &&& forall|x: NodeID| self.has(x) ==> #[trigger] self.parent_of(x) == before.parent_of(x)
        &&& forall|x: NodeID| self.has(x) ==> #[trigger] self.depth_of(x) == before.depth_of(x)
        &&& forall|x: NodeID|
            self.has(x) ==> #[trigger] self.children_of(x) == without(
                before.children_of(x),
                gone.to_set(),
            )
    }

    /// The last node of a tidy list of which all later nodes are gone is a
    /// leaf, and not the root.
    proof fn lemma_prune_ready(&self, before: &Self, w: Seq<NodeID>, g: Set<NodeID>, d: nat, k: int)
        requires
            before.wf(),
            before.tidy(w, g, d),
            d >= 1,
            0 < k <= w.len(),
            self.pruned(before, w.subrange(k, w.len() as int)),
        ensures
            self.has(w[k - 1]),
            w[k - 1] != 0,
            self.children_of(w[k - 1]).len() == 0,
            before.has(w[k - 1]),
    {
        let y = w[k - 1];
        let r = w.subrange(k, w.len() as int);
        assert(before.sound_at(w, g, d, k - 1));
        assert(before.node_ok(y));
        assert(!r.contains(y)) by {
            if r.contains(y) {
                let m = choose|m: int| 0 <= m < r.len() && r[m] == y;
                assert(w[k + m] == y);
            }
        }
        assert(self.has(y));
        let ks = before.children_of(y);
        assert forall|i: int| 0 <= i < ks.len() implies r.to_set().contains(#[trigger] ks[i]) by {
            let c = ks[i];
            assert(before.child_ok(y, i));
            assert(before.closed_at(w, k - 1, i));
            let j = choose|j: int| 0 <= j < w.len() && w[j] == c;
            assert(before.led_at(w, g, j));
            assert(!g.contains(c));
            let m = choose|m: int| 0 <= m < j && #[trigger] w[m] == before.parent_of(w[j])->0;
            assert(m == k - 1);
            assert(r[j - k] == c);
            assert(r.contains(c));
        }
        lemma_without_all(ks, r.to_set());
    }

    /// Plucking the last node that is left of a tidy list keeps the arena
    /// pruned, by one node more.
    proof fn lemma_prune_step(
        &self,
        cur: &Self,
        before: &Self,
        w: Seq<NodeID>,
        g: Set<NodeID>,
        d: nat,
        k: int,
    )
        requires
            before.wf(),
            before.tidy(w, g, d),
            d >= 1,
            0 < k <= w.len(),
            cur.pruned(before, w.subrange(k, w.len() as int)),
            cur.has(w[k - 1]),
            w[k - 1] != 0,
            self.plucked(cur, w[k - 1]),
        ensures
            self.pruned(before, w.subrange(k - 1, w.len() as int)),
    {
        let y = w[k - 1];
        let r = w.subrange(k, w.len() as int);
        let r2 = w.subrange(k - 1, w.len() as int);
        let p = cur.parent_of(y)->0;
        assert(r2 =~= seq![y] + r);
        assert(r2.reverse() =~= r.reverse().push(y));
        assert(self.free_ids() =~= before.free_ids() + r2.reverse());
        assert forall|x: NodeID| r2.contains(x) <==> (r.contains(x) || x == y) by {
            if r2.contains(x) {
                let m = choose|m: int| 0 <= m < r2.len() && r2[m] == x;
                if m > 0 {
                    assert(r[m - 1] == x);
                }
            }
            if r.contains(x) {
                let m = choose|m: int| 0 <= m < r.len() && r[m] == x;
                assert(r2[m + 1] == x);
            }
            if x == y {
                assert(r2[0] == x);
            }
        }
        assert(r2.to_set() =~= r.to_set().insert(y));
        assert forall|x: NodeID|
            #![trigger self.has(x)]
            #![trigger before.has(x)]
            self.has(x) <==> (before.has(x) && !r2.contains(x)) by {
            assert(self.has(x) <==> (cur.has(x) && x != y));
            assert(cur.has(x) <==> (before.has(x) && !r.contains(x)));
        }
        assert forall|x: NodeID| self.has(x) implies #[trigger] self.payload(x) == before.payload(
            x,
        ) by {
            assert(cur.has(x));
            assert(cur.payload(x) == before.payload(x));
        }
        assert forall|x: NodeID| self.has(x) implies #[trigger] self.parent_of(x)
            == before.parent_of(x) by {
            assert(cur.has(x));
            assert(cur.parent_of(x) == before.parent_of(x));
        }
        assert forall|x: NodeID| self.has(x) implies #[trigger] self.depth_of(x) == before.depth_of(
            x,
        ) by {
            assert(cur.has(x));
            assert(cur.depth_of(x) == before.depth_of(x));
        }
        assert(cur.node_ok(y));
        assert(cur.parent_of(y) == before.parent_of(y));
        assert forall|x: NodeID| self.has(x) implies #[trigger] self.children_of(x) == without(
            before.children_of(x),
            r2.to_set(),
        ) by {
            assert(cur.has(x));
            assert(before.has(x));
            let ks = before.children_of(x);
            assert(cur.children_of(x) == without(ks, r.to_set()));
            if x == p {
                before.lemma_children_level(x);
                lemma_without_remove(ks, r.to_set(), cur.spot_of(y) as int, y);
            } else {
                assert(self.children_of(x) == cur.children_of(x));
                assert forall|i: int| 0 <= i < ks.len() implies r.to_set().contains(
                    #[trigger] ks[i],
                ) == r2.to_set().contains(ks[i]) by {
                    if ks[i] == y {
                        assert(before.child_ok(x, i));
                    }
                }
                lemma_without_same(ks, r.to_set(), r2.to_set());
            }
        }
    }

    /// Takes the nodes of `w` out of the tree, the last first, and hands out
    /// their payloads in the order of `w`. The list is tidy, so that each
    /// node is a leaf by the time its turn comes.
    pub(crate) fn prune(&mut self, w: &Vec<NodeID>, Ghost(g): Ghost<Set<NodeID>>, Ghost(d): Ghost<
        nat,
    >) -> (data: Vec<T>)
        requires
            old(self).wf(),
            old(self).tidy(w@, g, d),
            d >= 1,
        ensures
            final(self).pruned(old(self), w@),
            data@ == old(self).payloads(w@),
    {
        let ghost a0 = *self;
        let ghost ws = w@;
        let mut k: usize = w.len();
        let mut tmp: Vec<T> = Vec::new();
        proof {
            let r = ws.subrange(k as int, ws.len() as int);
            assert(r =~= Seq::<NodeID>::empty());
            assert(r.reverse() =~= Seq::<NodeID>::empty());
            assert(self.free_ids() =~= a0.free_ids() + r.reverse());
            assert forall|x: NodeID| self.has(x) implies #[trigger] self.children_of(x) == without(
                a0.children_of(x),
                r.to_set(),
            ) by {
                lemma_without_none(a0.children_of(x), r.to_set());
            }
        }
        while k > 0
            invariant
                0 <= k <= ws.len(),
                ws == w@,
                a0.wf(),
                a0.tidy(ws, g, d),
                d >= 1,
                self.pruned(&a0, ws.subrange(k as int, ws.len() as int)),
                tmp@.len() == ws.len() - k,
                forall|i: int|
                    0 <= i < tmp@.len() ==> #[trigger] tmp@[i] == a0.payload(ws[ws.len() - 1 - i]),
            decreases k,
        {
            let y = w[k - 1];
            let ghost cur = *self;
            proof {
                self.lemma_prune_ready(&a0, ws, g, d, k as int);
            }
            let item = self.pluck(y);
            tmp.push(item);
            proof {
                self.lemma_prune_step(&cur, &a0, ws, g, d, k as int);
            }
            k -= 1;
        }
        proof {
            assert(ws.subrange(0, ws.len() as int) =~= ws);
        }
        let mut data: Vec<T> = Vec::new();
        let ghost full = tmp@;
        while tmp.len() > 0
            invariant
                tmp@.len() <= full.len(),
                tmp@ == full.subrange(0, tmp@.len() as int),
                data@.len() == full.len() - tmp@.len(),
                forall|i: int| 0 <= i < data@.len() ==> #[trigger] data@[i] == full[full.len() - 1 - i],
            decreases tmp@.len(),
        {
            let item = tmp.pop().unwrap();
            data.push(item);
            proof {
                assert(tmp@ =~= full.subrange(0, tmp@.len() as int));
            }
        }
        proof {
            assert(data@ =~= a0.payloads(ws));
        }
        data
    }
}

} // verus!
