use vstd::prelude::*;
use crate::arena::NodeArena;
use crate::links::NodeID;
use crate::seqs::flip;

verus! {

impl<T> NodeArena<T> {
    /// The ancestor of `y` at depth `e`; `y` itself where it is no deeper.
    pub open spec fn top(&self, y: NodeID, e: nat) -> NodeID
        decreases self.depth_of(y),
        when self.wf() && self.has(y)
    {
        if self.depth_of(y) <= e || y == 0 {
            y
        } else {
            proof {
                assert(self.node_ok(y));
                assert(self.child_ok(self.parent_of(y)->0, self.spot_of(y) as int));
            }
            self.top(self.parent_of(y)->0, e)
        }
    }

    /// The nodes of `f` are distinct nodes at depth `d`.
    pub open spec fn level(&self, f: Seq<NodeID>, d: nat) -> bool {
        &&& f.no_duplicates()
        &&& forall|j: int| 0 <= j < f.len() ==> self.has(#[trigger] f[j]) && self.depth_of(f[j]) == d
    }

    /// The children of the nodes of `f`, in the order of `f`.
    pub open spec fn next_level(&self, f: Seq<NodeID>) -> Seq<NodeID>
        decreases f.len(),
    {
        if f.len() == 0 {
            Seq::empty()
        } else {
            self.next_level(f.drop_last()) + self.children_of(f.last())
        }
    }

    /// The nodes below `f`, level by level: the nodes of `f`, which stand at
    /// depth `d`, then their children, then the children of those, each
    /// level in the order of the one above it.
    pub open spec fn level_order(&self, f: Seq<NodeID>, d: nat) -> Seq<NodeID>
        decreases self.height() + 1 - d,
    {
        if f.len() == 0 || d > self.height() {
            f
        } else {
            f + self.level_order(self.next_level(f), d + 1)
        }
    }

    /// The children of `id` at the indices from `k` up to `e`, each followed
    /// at once by all that is below it, in the same way.
    pub open spec fn walk_range(&self, id: NodeID, k: int, e: int) -> Seq<NodeID>
        decreases self.height() - self.depth_of(id), e - k,
        when self.wf() && self.has(id) && 0 <= k && e <= self.children_of(id).len()
    {
        if k >= e {
            Seq::empty()
        } else {
            let c = self.children_of(id)[k];
            proof {
                assert(self.child_ok(id, k));
                assert(self.node_ok(c));
            }
            (seq![c] + self.walk_range(c, 0, self.children_of(c).len() as int)) + self.walk_range(
                id,
                k + 1,
                e,
            )
        }
    }

    /// The node `id` followed by all that is below it, parents before their
    /// children and the children of one node first to last.
    pub open spec fn walk(&self, id: NodeID) -> Seq<NodeID> {
        seq![id] + self.walk_range(id, 0, self.children_of(id).len() as int)
    }

    /// The walks of the nodes of `ids`, one after the other.
    pub open spec fn walk_each(&self, ids: Seq<NodeID>) -> Seq<NodeID>
        decreases ids.len(),
    {
        if ids.len() == 0 {
            Seq::empty()
        } else {
            self.walk(ids.first()) + self.walk_each(ids.drop_first())
        }
    }

    /// The node `w[j]` is in this arena, at depth `d` or deeper, below a node
    /// of `g`.
    pub open spec fn sound_at(&self, w: Seq<NodeID>, g: Set<NodeID>, d: nat, j: int) -> bool {
        &&& self.has(w[j])
        &&& self.depth_of(w[j]) >= d
        &&& g.contains(self.top(w[j], d))
    }

    /// The node `w[j]` is in `g`, or its parent stands before it in `w`.
    pub open spec fn led_at(&self, w: Seq<NodeID>, g: Set<NodeID>, j: int) -> bool {
        g.contains(w[j]) || exists|m: int| 0 <= m < j && #[trigger] w[m] == self.parent_of(w[j])->0
    }

    /// The `i`-th child of `w[j]` is in `w`.
    pub open spec fn closed_at(&self, w: Seq<NodeID>, j: int, i: int) -> bool {
        w.contains(self.children_of(w[j])[i])
    }

    /// `w` lists, each once, the nodes of `g`, which stand at depth `d`, and
    /// all that is below them, and no node before its parent.
    pub open spec fn tidy(&self, w: Seq<NodeID>, g: Set<NodeID>, d: nat) -> bool {
        &&& w.no_duplicates()
        &&& forall|j: int| 0 <= j < w.len() ==> #[trigger] self.sound_at(w, g, d, j)
        &&& forall|j: int| 0 <= j < w.len() ==> #[trigger] self.led_at(w, g, j)
        &&& forall|j: int, i: int|
            0 <= j < w.len() && 0 <= i < self.children_of(w[j]).len() ==> #[trigger] self.closed_at(
                w,
                j,
                i,
            )
        &&& forall|x: NodeID|
            g.contains(x) ==> w.contains(x) && self.has(x) && self.depth_of(x) == d
    }

    /// The ancestor at one depth is the parent of the ancestor one deeper.
    pub proof fn lemma_top_step(&self, y: NodeID, e: nat)
        requires
            self.wf(),
            self.has(y),
            self.depth_of(y) >= e + 1,
        ensures
            self.parent_of(self.top(y, e + 1)) == Some(self.top(y, e)),
        decreases self.depth_of(y),
    {
        assert(self.node_ok(y));
        let p = self.parent_of(y)->0;
        assert(self.child_ok(p, self.spot_of(y) as int));
        assert(self.node_ok(p));
        assert(self.has(p));
        if self.depth_of(y) > e + 1 {
            self.lemma_top_step(p, e);
            assert(self.top(y, e + 1) == self.top(p, e + 1));
            assert(self.top(y, e) == self.top(p, e));
        } else {
            assert(self.top(y, e + 1) == y);
            assert(self.top(p, e) == p);
            assert(self.top(y, e) == self.top(p, e));
        }
    }

    /// The children of a level make up the level below it.
    pub proof fn lemma_next_level(&self, f: Seq<NodeID>, d: nat)
        requires
            self.wf(),
            self.level(f, d),
        ensures
            self.level(self.next_level(f), d + 1),
            forall|j: int|
                0 <= j < self.next_level(f).len() ==> {
                    let x = #[trigger] self.next_level(f)[j];
                    x != 0 && self.parent_of(x) is Some && f.contains(self.parent_of(x)->0)
                },
            forall|j: int, i: int|
                0 <= j < f.len() && 0 <= i < self.children_of(f[j]).len() ==> self.next_level(
                    f,
                ).contains(#[trigger] self.children_of(f[j])[i]),
        decreases f.len(),
    {
        let n = self.next_level(f);
        if f.len() > 0 {
            let f0 = f.drop_last();
            let n0 = self.next_level(f0);
            let c = f.last();
            let ks = self.children_of(c);
            assert(self.level(f0, d)) by {
                assert forall|j: int| 0 <= j < f0.len() implies self.has(#[trigger] f0[j])
                    && self.depth_of(f0[j]) == d by {
                    assert(f0[j] == f[j]);
                }
            }
            self.lemma_next_level(f0, d);
            assert(self.has(c)) by {
                assert(c == f[f.len() - 1]);
            }
            assert(n == n0 + ks);
            assert forall|j: int| 0 <= j < n.len() implies {
                let x = #[trigger] n[j];
                &&& self.has(x)
                &&& self.depth_of(x) == d + 1
                &&& x != 0
                &&& self.parent_of(x) is Some
                &&& f.contains(self.parent_of(x)->0)
                &&& (j < n0.len() ==> f0.contains(self.parent_of(x)->0))
                &&& (j >= n0.len() ==> self.parent_of(x) == Some(c))
            } by {
                if j < n0.len() {
                    assert(n[j] == n0[j]);
                    let q = self.parent_of(n0[j])->0;
                    let m = choose|m: int| 0 <= m < f0.len() && f0[m] == q;
                    assert(f[m] == q);
                } else {
                    assert(n[j] == ks[j - n0.len()]);
                    assert(self.child_ok(c, j - n0.len()));
                    assert(f[f.len() - 1] == c);
                }
            }
            assert(n.no_duplicates()) by {
                assert forall|a: int, b: int| 0 <= a < n.len() && 0 <= b < n.len() && a != b implies n[a]
                    != n[b] by {
                    if a < n0.len() && b < n0.len() {
                        assert(n[a] == n0[a] && n[b] == n0[b]);
                    } else if a >= n0.len() && b >= n0.len() {
                        assert(self.child_ok(c, a - n0.len()));
                        assert(self.child_ok(c, b - n0.len()));
                    } else {
                        let lo = if a < b {
                            a
                        } else {
                            b
                        };
                        let q = self.parent_of(n[lo])->0;
                        let m = choose|m: int| 0 <= m < f0.len() && f0[m] == q;
                        assert(f[m] == q);
                        assert(f[f.len() - 1] == c);
                    }
                }
            }
            assert forall|j: int, i: int|
                0 <= j < f.len() && 0 <= i < self.children_of(f[j]).len() implies n.contains(
                #[trigger] self.children_of(f[j])[i],
            ) by {
                let x = self.children_of(f[j])[i];
                if j < f0.len() {
                    assert(f0[j] == f[j]);
                    let m = choose|m: int| 0 <= m < n0.len() && n0[m] == x;
                    assert(n[m] == x);
                } else {
                    assert(n[n0.len() + i] == x);
                }
            }
        }
    }

    /// A tidy list of what is below a level, put behind that level, is a tidy
    /// list of the level with all that is below it.
    pub proof fn lemma_tidy_lift(&self, f: Seq<NodeID>, z: Seq<NodeID>, d: nat)
        requires
            self.wf(),
            self.level(f, d),
            self.tidy(z, self.next_level(f).to_set(), d + 1),
        ensures
            self.tidy(f + z, f.to_set(), d),
    {
        let n = self.next_level(f);
        let w = f + z;
        let g = f.to_set();
        self.lemma_next_level(f, d);
        assert forall|j: int| 0 <= j < w.len() implies #[trigger] self.sound_at(w, g, d, j) by {
            if j < f.len() {
                assert(w[j] == f[j]);
                assert(self.top(f[j], d) == f[j]);
            } else {
                let x = z[j - f.len()];
                assert(w[j] == x);
                assert(self.sound_at(z, n.to_set(), d + 1, j - f.len()));
                self.lemma_top_step(x, d);
                let t = self.top(x, d + 1);
                assert(n.contains(t));
                let m = choose|m: int| 0 <= m < n.len() && n[m] == t;
                assert(f.contains(self.parent_of(n[m])->0));
            }
        }
        assert(w.no_duplicates()) by {
            assert forall|a: int, b: int| 0 <= a < w.len() && 0 <= b < w.len() && a != b implies w[a]
                != w[b] by {
                if a >= f.len() {
                    assert(self.sound_at(z, n.to_set(), d + 1, a - f.len()));
                }
                if b >= f.len() {
                    assert(self.sound_at(z, n.to_set(), d + 1, b - f.len()));
                }
            }
        }
        assert forall|j: int| 0 <= j < w.len() implies #[trigger] self.led_at(w, g, j) by {
            if j < f.len() {
                assert(w[j] == f[j]);
            } else {
                let x = z[j - f.len()];
                assert(w[j] == x);
                assert(self.led_at(z, n.to_set(), j - f.len()));
                if n.to_set().contains(x) {
                    let a = choose|a: int| 0 <= a < n.len() && n[a] == x;
                    let q = self.parent_of(n[a])->0;
                    let m = choose|m: int| 0 <= m < f.len() && f[m] == q;
                    assert(w[m] == q);
                } else {
                    let m = choose|m: int|
                        0 <= m < j - f.len() && #[trigger] z[m] == self.parent_of(x)->0;
                    assert(w[m + f.len()] == z[m]);
                }
            }
        }
        assert forall|j: int, i: int|
            0 <= j < w.len() && 0 <= i < self.children_of(w[j]).len() implies #[trigger] self.closed_at(
            w,
            j,
            i,
        ) by {
            let c = self.children_of(w[j])[i];
            if j < f.len() {
                assert(w[j] == f[j]);
                assert(n.contains(c));
                assert(n.to_set().contains(c));
                assert(z.contains(c));
            } else {
                assert(w[j] == z[j - f.len()]);
                assert(self.closed_at(z, j - f.len(), i));
            }
            let m = choose|m: int| 0 <= m < z.len() && z[m] == c;
            assert(w[m + f.len()] == c);
        }
        assert forall|x: NodeID| g.contains(x) implies w.contains(x) && self.has(x)
            && self.depth_of(x) == d by {
            let m = choose|m: int| 0 <= m < f.len() && f[m] == x;
            assert(w[m] == x);
        }
    }

    /// Two tidy lists below disjoint sets of nodes, one behind the other,
    /// are a tidy list of what is below both sets.
    pub proof fn lemma_tidy_concat(
        &self,
        x: Seq<NodeID>,
        gx: Set<NodeID>,
        y: Seq<NodeID>,
        gy: Set<NodeID>,
        d: nat,
    )
        requires
            self.tidy(x, gx, d),
            self.tidy(y, gy, d),
            gx.disjoint(gy),
        ensures
            self.tidy(x + y, gx.union(gy), d),
    {
        let w = x + y;
        let g = gx.union(gy);
        assert forall|j: int| 0 <= j < w.len() implies #[trigger] self.sound_at(w, g, d, j) by {
            if j < x.len() {
                assert(w[j] == x[j]);
                assert(self.sound_at(x, gx, d, j));
            } else {
                assert(w[j] == y[j - x.len()]);
                assert(self.sound_at(y, gy, d, j - x.len()));
            }
        }
        assert(w.no_duplicates()) by {
            assert forall|a: int, b: int| 0 <= a < w.len() && 0 <= b < w.len() && a != b implies w[a]
                != w[b] by {
                if a < x.len() {
                    assert(self.sound_at(x, gx, d, a));
                } else {
                    assert(self.sound_at(y, gy, d, a - x.len()));
                }
                if b < x.len() {
                    assert(self.sound_at(x, gx, d, b));
                } else {
                    assert(self.sound_at(y, gy, d, b - x.len()));
                }
            }
        }
        assert forall|j: int| 0 <= j < w.len() implies #[trigger] self.led_at(w, g, j) by {
            if j < x.len() {
                assert(w[j] == x[j]);
                assert(self.led_at(x, gx, j));
                if !gx.contains(x[j]) {
                    let m = choose|m: int| 0 <= m < j && #[trigger] x[m] == self.parent_of(x[j])->0;
                    assert(w[m] == x[m]);
                }
            } else {
                let k = j - x.len();
                assert(w[j] == y[k]);
                assert(self.led_at(y, gy, k));
                if !gy.contains(y[k]) {
                    let m = choose|m: int| 0 <= m < k && #[trigger] y[m] == self.parent_of(y[k])->0;
                    assert(w[m + x.len()] == y[m]);
                }
            }
        }
        assert forall|j: int, i: int|
            0 <= j < w.len() && 0 <= i < self.children_of(w[j]).len() implies #[trigger] self.closed_at(
            w,
            j,
            i,
        ) by {
            let c = self.children_of(w[j])[i];
            if j < x.len() {
                assert(w[j] == x[j]);
                assert(self.closed_at(x, j, i));
                let m = choose|m: int| 0 <= m < x.len() && x[m] == c;
                assert(w[m] == c);
            } else {
                assert(w[j] == y[j - x.len()]);
                assert(self.closed_at(y, j - x.len(), i));
                let m = choose|m: int| 0 <= m < y.len() && y[m] == c;
                assert(w[m + x.len()] == c);
            }
        }
        assert forall|c: NodeID| g.contains(c) implies w.contains(c) && self.has(c)
            && self.depth_of(c) == d by {
            if gx.contains(c) {
                let m = choose|m: int| 0 <= m < x.len() && x[m] == c;
                assert(w[m] == c);
            } else {
                let m = choose|m: int| 0 <= m < y.len() && y[m] == c;
                assert(w[m + x.len()] == c);
            }
        }
    }

    /// The children of a node in a well-formed arena are distinct nodes one
    /// level below it.
    pub proof fn lemma_children_level(&self, id: NodeID)
        requires
            self.wf(),
            self.has(id),
        ensures
            self.level(self.children_of(id), self.depth_of(id) + 1),
            forall|i: int|
                0 <= i < self.children_of(id).len() ==> {
                    let c = #[trigger] self.children_of(id)[i];
                    c != 0 && self.parent_of(c) == Some(id) && self.spot_of(c) == i
                },
    {
        let ks = self.children_of(id);
        assert forall|i: int| 0 <= i < ks.len() implies {
            let c = #[trigger] ks[i];
            &&& self.has(c)
            &&& self.depth_of(c) == self.depth_of(id) + 1
            &&& c != 0
            &&& self.parent_of(c) == Some(id)
            &&& self.spot_of(c) == i
        } by {
            assert(self.child_ok(id, i));
        }
    }

    /// A part of a level is a level.
    pub proof fn lemma_level_part(&self, f: Seq<NodeID>, d: nat, k: int, e: int)
        requires
            self.level(f, d),
            0 <= k <= e <= f.len(),
        ensures
            self.level(f.subrange(k, e), d),
    {
        let r = f.subrange(k, e);
        assert forall|j: int| 0 <= j < r.len() implies self.has(#[trigger] r[j]) && self.depth_of(
            r[j],
        ) == d by {
            assert(r[j] == f[k + j]);
        }
        assert forall|a: int, b: int| 0 <= a < r.len() && 0 <= b < r.len() && a != b implies r[a]
            != r[b] by {
            assert(r[a] == f[k + a] && r[b] == f[k + b]);
        }
    }

    /// Distinct nodes picked from a level are a level.
    pub proof fn lemma_level_pick(&self, f: Seq<NodeID>, r: Seq<NodeID>, d: nat)
        requires
            self.level(f, d),
            r.no_duplicates(),
            forall|j: int| 0 <= j < r.len() ==> f.contains(#[trigger] r[j]),
        ensures
            self.level(r, d),
    {
        assert forall|j: int| 0 <= j < r.len() implies self.has(#[trigger] r[j]) && self.depth_of(
            r[j],
        ) == d by {
            let m = choose|m: int| 0 <= m < f.len() && f[m] == r[j];
            assert(self.has(f[m]));
        }
    }

    /// The walk over a range of the children of a node is a tidy list of
    /// those children and all that is below them.
    pub proof fn lemma_walk_range_tidy(&self, id: NodeID, k: int, e: int)
        requires
            self.wf(),
            self.has(id),
            0 <= k <= e <= self.children_of(id).len(),
        ensures
            self.tidy(
                self.walk_range(id, k, e),
                self.children_of(id).subrange(k, e).to_set(),
                self.depth_of(id) + 1,
            ),
        decreases self.height() - self.depth_of(id), e - k,
    {
        let ks = self.children_of(id);
        let d = self.depth_of(id) + 1;
        let w = self.walk_range(id, k, e);
        let sk = ks.subrange(k, e);
        let sr = ks.subrange(k + 1, e);
        let g = sk.to_set();
        self.lemma_children_level(id);
        if k >= e {
            assert(w =~= Seq::<NodeID>::empty());
            assert forall|x: NodeID| !g.contains(x) by {
                if g.contains(x) {
                    let m = choose|m: int| 0 <= m < sk.len() && sk[m] == x;
                }
            }
            assert(self.tidy(w, g, d as nat));
        } else {
            let c = ks[k];
            assert(self.child_ok(id, k));
            assert(self.node_ok(c));
            let kc = self.children_of(c);
            let z = self.walk_range(c, 0, kc.len() as int);
            let r = self.walk_range(id, k + 1, e);
            self.lemma_walk_range_tidy(c, 0, kc.len() as int);
            assert(kc.subrange(0, kc.len() as int) =~= kc);
            let one = seq![c];
            assert(self.level(one, d as nat));
            assert(one.drop_last() =~= Seq::<NodeID>::empty());
            assert(self.next_level(one.drop_last()) =~= Seq::<NodeID>::empty());
            assert(self.next_level(one) =~= kc);
            self.lemma_tidy_lift(one, z, d as nat);
            self.lemma_walk_range_tidy(id, k + 1, e);
            let gr = sr.to_set();
            assert(one.to_set().disjoint(gr)) by {
                assert forall|x: NodeID| !(one.to_set().contains(x) && gr.contains(x)) by {
                    if one.to_set().contains(x) && gr.contains(x) {
                        let a = choose|a: int| 0 <= a < one.len() && one[a] == x;
                        let m = choose|m: int| 0 <= m < sr.len() && sr[m] == x;
                        assert(ks[k + 1 + m] == x);
                        assert(ks[k] == x);
                    }
                }
            }
            self.lemma_tidy_concat(one + z, one.to_set(), r, gr, d as nat);
            assert(w == (one + z) + r);
            assert(one.to_set().union(gr) =~= g) by {
                assert forall|x: NodeID| one.to_set().union(gr).contains(x) <==> g.contains(x) by {
                    if one.to_set().contains(x) {
                        let a = choose|a: int| 0 <= a < one.len() && one[a] == x;
                        assert(sk[0] == x);
                    }
                    if gr.contains(x) {
                        let m = choose|m: int| 0 <= m < sr.len() && sr[m] == x;
                        assert(sk[m + 1] == x);
                    }
                    if g.contains(x) {
                        let m = choose|m: int| 0 <= m < sk.len() && sk[m] == x;
                        if m == 0 {
                            assert(one[0] == x);
                            assert(one.contains(x));
                        } else {
                            assert(sr[m - 1] == x);
                            assert(sr.contains(x));
                        }
                    }
                }
            }
        }
    }

    /// The walk from a node is a tidy list of the node and all that is below
    /// it.
    pub proof fn lemma_walk_tidy(&self, id: NodeID)
        requires
            self.wf(),
            self.has(id),
        ensures
            self.tidy(self.walk(id), seq![id].to_set(), self.depth_of(id)),
    {
        let kc = self.children_of(id);
        let one = seq![id];
        self.lemma_walk_range_tidy(id, 0, kc.len() as int);
        assert(kc.subrange(0, kc.len() as int) =~= kc);
        assert(self.level(one, self.depth_of(id)));
        assert(one.drop_last() =~= Seq::<NodeID>::empty());
        assert(self.next_level(one.drop_last()) =~= Seq::<NodeID>::empty());
        assert(self.next_level(one) =~= kc);
        self.lemma_tidy_lift(one, self.walk_range(id, 0, kc.len() as int), self.depth_of(id));
    }

    /// The walks of the nodes of a level, one after the other, are a tidy
    /// list of the level and all that is below it.
    pub proof fn lemma_walk_each_tidy(&self, f: Seq<NodeID>, d: nat)
        requires
            self.wf(),
            self.level(f, d),
        ensures
            self.tidy(self.walk_each(f), f.to_set(), d),
        decreases f.len(),
    {
        let w = self.walk_each(f);
        let g = f.to_set();
        if f.len() == 0 {
            assert(self.tidy(w, g, d));
        } else {
            let c = f.first();
            let rest = f.drop_first();
            assert(self.has(c) && self.depth_of(c) == d) by {
                assert(c == f[0]);
            }
            self.lemma_level_part(f, d, 1, f.len() as int);
            self.lemma_walk_tidy(c);
            self.lemma_walk_each_tidy(rest, d);
            let one = seq![c];
            assert(one.to_set().disjoint(rest.to_set())) by {
                assert forall|x: NodeID| !(one.to_set().contains(x) && rest.to_set().contains(x)) by {
                    if one.to_set().contains(x) && rest.to_set().contains(x) {
                        let a = choose|a: int| 0 <= a < one.len() && one[a] == x;
                        let m = choose|m: int| 0 <= m < rest.len() && rest[m] == x;
                        assert(f[m + 1] == x);
                        assert(f[0] == x);
                    }
                }
            }
            self.lemma_tidy_concat(self.walk(c), one.to_set(), self.walk_each(rest), rest.to_set(), d);
            assert(one.to_set().union(rest.to_set()) =~= g) by {
                assert forall|x: NodeID|
                    one.to_set().union(rest.to_set()).contains(x) <==> g.contains(x) by {
                    if one.to_set().contains(x) {
                        let a = choose|a: int| 0 <= a < one.len() && one[a] == x;
                        assert(f[0] == x);
                    }
                    if rest.to_set().contains(x) {
                        let m = choose|m: int| 0 <= m < rest.len() && rest[m] == x;
                        assert(f[m + 1] == x);
                    }
                    if g.contains(x) {
                        let m = choose|m: int| 0 <= m < f.len() && f[m] == x;
                        if m == 0 {
                            assert(one[0] == x);
                            assert(one.contains(x));
                        } else {
                            assert(rest[m - 1] == x);
                            assert(rest.contains(x));
                        }
                    }
                }
            }
        }
    }

    /// The level order from a level is a tidy list of the level and all that
    /// is below it.
    pub proof fn lemma_level_order_tidy(&self, f: Seq<NodeID>, d: nat)
        requires
            self.wf(),
            self.level(f, d),
        ensures
            self.tidy(self.level_order(f, d), f.to_set(), d),
        decreases self.height() + 1 - d,
    {
        if f.len() == 0 {
            assert(self.tidy(f, f.to_set(), d));
        } else {
            assert(self.node_ok(f[0]));
            let n = self.next_level(f);
            self.lemma_next_level(f, d);
            self.lemma_level_order_tidy(n, d + 1);
            self.lemma_tidy_lift(f, self.level_order(n, d + 1), d);
        }
    }

    /// The walks of two lists, one after the other, are the walks of the two
    /// lists joined.
    pub proof fn lemma_walk_each_concat(&self, a: Seq<NodeID>, b: Seq<NodeID>)
        ensures
            self.walk_each(a + b) == self.walk_each(a) + self.walk_each(b),
        decreases a.len(),
    {
        if a.len() == 0 {
            assert(a + b =~= b);
            assert(self.walk_each(a) + self.walk_each(b) =~= self.walk_each(b));
        } else {
            assert((a + b).first() == a.first());
            assert((a + b).drop_first() =~= a.drop_first() + b);
            self.lemma_walk_each_concat(a.drop_first(), b);
            assert(self.walk_each(a + b) =~= self.walk_each(a) + self.walk_each(b));
        }
    }

    /// The walk over a range of the children of a node is made of the walks
    /// of those children.
    pub proof fn lemma_walk_range_each(&self, id: NodeID, k: int, e: int)
        requires
            self.wf(),
            self.has(id),
            0 <= k <= e <= self.children_of(id).len(),
        ensures
            self.walk_range(id, k, e) == self.walk_each(self.children_of(id).subrange(k, e)),
        decreases e - k,
    {
        let ks = self.children_of(id);
        let r = ks.subrange(k, e);
        if k < e {
            self.lemma_walk_range_each(id, k + 1, e);
            let c = ks[k];
            assert(self.child_ok(id, k));
            assert(self.node_ok(c));
            assert(r.first() == c);
            assert(r.drop_first() =~= ks.subrange(k + 1, e));
            assert(self.walk_each(r) == self.walk(c) + self.walk_each(r.drop_first()));
            assert(self.walk_range(id, k, e) == (seq![c] + self.walk_range(
                c,
                0,
                self.children_of(c).len() as int,
            )) + self.walk_range(id, k + 1, e));
        } else {
            assert(self.walk_range(id, k, e) =~= self.walk_each(r));
        }
    }

    /// The nodes of `roots` and all that is below them, each root followed
    /// at once by its own.
    pub(crate) fn sweep_deep(&self, roots: Vec<NodeID>) -> (out: Vec<NodeID>)
        requires
            self.wf(),
            forall|j: int| 0 <= j < roots@.len() ==> self.has(#[trigger] roots@[j]),
        ensures
            out@ == self.walk_each(roots@),
    {
        let ghost goal = self.walk_each(roots@);
        let mut stack = flip(roots);
        let mut out: Vec<NodeID> = Vec::new();
        proof {
            assert(stack@.reverse() =~= roots@);
            assert forall|j: int| 0 <= j < stack@.len() implies self.has(#[trigger] stack@[j]) by {
                assert(stack@[j] == roots@[roots@.len() - 1 - j]);
            }
            self.lemma_to_come_more(Seq::<NodeID>::empty(), stack@);
            assert(Seq::<NodeID>::empty() + stack@ =~= stack@);
            assert(out@ + self.to_come(stack@) =~= goal);
        }
        loop
            invariant
                self.wf(),
                self.all_nodes(stack@),
                out@ + self.to_come(stack@) == goal,
            ensures
                out@ == goal,
            decreases goal.len() - out@.len(),
        {
            let ghost done = out@;
            let ghost before = stack@;
            match self.descend(&mut stack) {
                Some(n) => {
                    out.push(n);
                    proof {
                        assert(out@ + self.to_come(stack@) =~= done + self.to_come(before));
                    }
                },
                None => {
                    proof {
                        assert(out@ =~= goal);
                    }
                    break ;
                },
            }
        }
        out
    }

    /// The nodes of `roots`, which stand at depth `d`, and all that is below
    /// them, level by level.
    pub(crate) fn sweep_wide(&self, roots: Vec<NodeID>, Ghost(d): Ghost<nat>) -> (out: Vec<NodeID>)
        requires
            self.wf(),
            self.level(roots@, d),
        ensures
            out@ == self.level_order(roots@, d),
    {
        let ghost goal = self.level_order(roots@, d);
        let ghost mut dd = d;
        let mut frontier = roots;
        let mut out: Vec<NodeID> = Vec::new();
        proof {
            assert(out@ + self.level_order(frontier@, dd) =~= goal);
        }
        while frontier.len() > 0
            invariant
                self.wf(),
                self.level(frontier@, dd),
                out@ + self.level_order(frontier@, dd) == goal,
            decreases self.height() + 1 - dd,
        {
            let ghost f = frontier@;
            let ghost done = out@;
            proof {
                assert(self.node_ok(f[0]));
                self.lemma_next_level(f, dd);
            }
            let mut next: Vec<NodeID> = Vec::new();
            let mut i: usize = 0;
            proof {
                assert(f.subrange(0, 0) =~= Seq::<NodeID>::empty());
            }
            while i < frontier.len()
                invariant
                    self.wf(),
                    frontier@ == f,
                    self.level(f, dd),
                    0 <= i <= f.len(),
                    next@ == self.next_level(f.subrange(0, i as int)),
                decreases f.len() - i,
            {
                let n = frontier[i];
                let mut cs = match self.children(n, false) {
                    Ok(v) => v,
                    Err(_) => Vec::new(),
                };
                next.append(&mut cs);
                proof {
                    let part = f.subrange(0, i + 1);
                    assert(part.drop_last() =~= f.subrange(0, i as int));
                    assert(part.last() == n);
                }
                i += 1;
            }
            proof {
                assert(f.subrange(0, f.len() as int) =~= f);
            }
            out.append(&mut frontier);
            frontier = next;
            proof {
                dd = dd + 1;
                assert(out@ + self.level_order(frontier@, dd) =~= done + self.level_order(
                    f,
                    (dd - 1) as nat,
                ));
            }
        }
        proof {
            assert(out@ =~= goal);
        }
        out
    }
}

} // verus!
