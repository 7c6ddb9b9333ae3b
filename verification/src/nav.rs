use vstd::prelude::*;
use crate::arena::NodeArena;
use crate::errors::TreeError;
use crate::links::NodeID;
use crate::seqs::flip;

verus! {

/// The sequence `s`, back to front where `reverse` is set.
pub open spec fn turned(s: Seq<NodeID>, reverse: bool) -> Seq<NodeID> {
    if reverse {
        s.reverse()
    } else {
        s
    }
}

impl<T> NodeArena<T> {
    /// The node `id` and its siblings, first to last. The root is alone.
    pub open spec fn siblings_of(&self, id: NodeID) -> Seq<NodeID> {
        if id == 0 {
            seq![id]
        } else {
            self.children_of(self.parent_of(id)->0)
        }
    }

    /// The index of the node `id` in `siblings_of(id)`.
    pub open spec fn place_of(&self, id: NodeID) -> int {
        if id == 0 {
            0
        } else {
            self.spot_of(id) as int
        }
    }

    /// The node `id`, its parent, and so on up to the root.
    pub open spec fn path_up(&self, id: NodeID) -> Seq<NodeID>
        decreases self.depth_of(id),
        when self.wf() && self.has(id)
    {
        if id == 0 {
            seq![id]
        } else {
            proof {
                assert(self.node_ok(id));
                assert(self.child_ok(self.parent_of(id)->0, self.spot_of(id) as int));
            }
            seq![id] + self.path_up(self.parent_of(id)->0)
        }
    }

    /// Whether `node` is the id of the root.
    pub fn is_root(&self, node: NodeID) -> (root: bool)
        ensures
            root == (node == 0),
    {
        node == 0
    }

    /// The parent of `node`. The root has none.
    pub fn parent(&self, node: NodeID) -> (parent: Result<NodeID, TreeError>)
        ensures
            match parent {
                Ok(p) => self.has(node) && self.parent_of(node) == Some(p),
                Err(e) => e == (if self.has(node) {
                    TreeError::MissingParentNode
                } else {
                    TreeError::MissingCurrentNode
                }) && (self.has(node) ==> self.parent_of(node) is None),
            },
            self.wf() && self.has(node) ==> (parent is Err <==> node == 0),
    {
        proof {
            if self.wf() && self.has(node) {
                assert(self.node_ok(node));
            }
        }
        match self.get(node) {
            Ok(slot) => match slot.link.parent {
                Some(p) => Ok(p),
                None => Err(TreeError::MissingParentNode),
            },
            Err(e) => Err(e),
        }
    }

    /// The sibling before `node`, if there is one.
    pub fn left_sibling(&self, node: NodeID) -> (left: Result<Option<NodeID>, TreeError>)
        ensures
            left == (if self.has(node) {
                Ok(self.link(node).left_sibling)
            } else {
                Err(TreeError::MissingCurrentNode)
            }),
    {
        match self.get(node) {
            Ok(slot) => Ok(slot.link.left_sibling),
            Err(e) => Err(e),
        }
    }

    /// The sibling after `node`, if there is one.
    pub fn right_sibling(&self, node: NodeID) -> (right: Result<Option<NodeID>, TreeError>)
        ensures
            right == (if self.has(node) {
                Ok(self.link(node).right_sibling)
            } else {
                Err(TreeError::MissingCurrentNode)
            }),
    {
        match self.get(node) {
            Ok(slot) => Ok(slot.link.right_sibling),
            Err(e) => Err(e),
        }
    }

    /// The first child of `node`, if it has children.
    pub fn first_child(&self, node: NodeID) -> (first: Result<Option<NodeID>, TreeError>)
        ensures
            first == (if self.has(node) {
                Ok(self.link(node).first_child)
            } else {
                Err(TreeError::MissingCurrentNode)
            }),
    {
        match self.get(node) {
            Ok(slot) => Ok(slot.link.first_child),
            Err(e) => Err(e),
        }
    }

    /// The last child of `node`, if it has children.
    pub fn last_child(&self, node: NodeID) -> (last: Result<Option<NodeID>, TreeError>)
        ensures
            last == (if self.has(node) {
                Ok(self.link(node).last_child)
            } else {
                Err(TreeError::MissingCurrentNode)
            }),
    {
        match self.get(node) {
            Ok(slot) => Ok(slot.link.last_child),
            Err(e) => Err(e),
        }
    }

    /// The first of the siblings of `node`, which may be `node` itself, in
    /// one step through the parent. The root is its own first sibling.
    pub fn first_sibling(&self, node: NodeID) -> (first: Result<NodeID, TreeError>)
        requires
            self.wf(),
        ensures
            first == (if self.has(node) {
                Ok(self.siblings_of(node).first())
            } else {
                Err(TreeError::MissingCurrentNode)
            }),
    {
        if !self.contains(node) {
            return Err(TreeError::MissingCurrentNode);
        }
        proof {
            assert(self.node_ok(node));
        }
        match self.link_at(node).parent {
            Some(p) => {
                proof {
                    assert(self.node_ok(p));
                }
                match self.link_at(p).first_child {
                    Some(c) => Ok(c),
                    None => Ok(node),
                }
            },
            None => Ok(node),
        }
    }

    /// The last of the siblings of `node`, which may be `node` itself, in
    /// one step through the parent. The root is its own last sibling.
    pub fn last_sibling(&self, node: NodeID) -> (last: Result<NodeID, TreeError>)
        requires
            self.wf(),
        ensures
            last == (if self.has(node) {
                Ok(self.siblings_of(node).last())
            } else {
                Err(TreeError::MissingCurrentNode)
            }),
    {
        if !self.contains(node) {
            return Err(TreeError::MissingCurrentNode);
        }
        proof {
            assert(self.node_ok(node));
        }
        match self.link_at(node).parent {
            Some(p) => {
                proof {
                    assert(self.node_ok(p));
                }
                match self.link_at(p).last_child {
                    Some(c) => Ok(c),
                    None => Ok(node),
                }
            },
            None => Ok(node),
        }
    }

    /// Whether `node` has no sibling before it.
    pub fn is_leftmost(&self, node: NodeID) -> (leftmost: Result<bool, TreeError>)
        ensures
            leftmost == (if self.has(node) {
                Ok(self.link(node).left_sibling is None)
            } else {
                Err(TreeError::MissingCurrentNode)
            }),
            self.wf() && self.has(node) ==> leftmost == Ok::<bool, TreeError>(
                self.place_of(node) == 0,
            ),
    {
        proof {
            if self.wf() && self.has(node) {
                self.lemma_place(node);
            }
        }
        match self.get(node) {
            Ok(slot) => Ok(slot.link.left_sibling.is_none()),
            Err(e) => Err(e),
        }
    }

    /// Whether `node` has no sibling after it.
    pub fn is_rightmost(&self, node: NodeID) -> (rightmost: Result<bool, TreeError>)
        ensures
            rightmost == (if self.has(node) {
                Ok(self.link(node).right_sibling is None)
            } else {
                Err(TreeError::MissingCurrentNode)
            }),
            self.wf() && self.has(node) ==> rightmost == Ok::<bool, TreeError>(
                self.place_of(node) + 1 == self.siblings_of(node).len(),
            ),
    {
        proof {
            if self.wf() && self.has(node) {
                self.lemma_place(node);
            }
        }
        match self.get(node) {
            Ok(slot) => Ok(slot.link.right_sibling.is_none()),
            Err(e) => Err(e),
        }
    }

    /// Whether `node` has no sibling at all.
    pub fn is_alone(&self, node: NodeID) -> (alone: Result<bool, TreeError>)
        ensures
            alone == (if self.has(node) {
                Ok(self.link(node).left_sibling is None && self.link(node).right_sibling is None)
            } else {
                Err(TreeError::MissingCurrentNode)
            }),
            self.wf() && self.has(node) ==> alone == Ok::<bool, TreeError>(
                self.siblings_of(node).len() == 1,
            ),
    {
        proof {
            if self.wf() && self.has(node) {
                self.lemma_place(node);
            }
        }
        match self.get(node) {
            Ok(slot) => Ok(slot.link.left_sibling.is_none() && slot.link.right_sibling.is_none()),
            Err(e) => Err(e),
        }
    }

    /// Whether `node` has a child.
    pub fn has_child(&self, node: NodeID) -> (parent: Result<bool, TreeError>)
        ensures
            parent == (if self.has(node) {
                Ok(self.link(node).first_child is Some)
            } else {
                Err(TreeError::MissingCurrentNode)
            }),
            self.wf() && self.has(node) ==> parent == Ok::<bool, TreeError>(
                self.children_of(node).len() > 0,
            ),
    {
        proof {
            if self.wf() && self.has(node) {
                assert(self.node_ok(node));
            }
        }
        match self.get(node) {
            Ok(slot) => Ok(slot.link.first_child.is_some()),
            Err(e) => Err(e),
        }
    }

    /// In a well-formed arena a node stands at its place among its siblings,
    /// and its links name the siblings at the places beside it.
    pub proof fn lemma_place(&self, id: NodeID)
        requires
            self.wf(),
            self.has(id),
        ensures
            0 <= self.place_of(id) < self.siblings_of(id).len(),
            self.siblings_of(id)[self.place_of(id)] == id,
            id != 0 ==> self.parent_of(id) is Some && self.has(self.parent_of(id)->0),
            id == 0 ==> self.parent_of(id) is None,
            self.link(id).left_sibling == (if self.place_of(id) == 0 {
                None::<NodeID>
            } else {
                Some(self.siblings_of(id)[self.place_of(id) - 1])
            }),
            self.link(id).right_sibling == (if self.place_of(id) + 1 == self.siblings_of(id).len() {
                None::<NodeID>
            } else {
                Some(self.siblings_of(id)[self.place_of(id) + 1])
            }),
    {
        assert(self.node_ok(id));
        if id != 0 {
            assert(self.child_ok(self.parent_of(id)->0, self.spot_of(id) as int));
        }
    }

    /// The children of `p` from index `i` on, found by following the links
    /// to the right from `start`.
    pub(crate) fn run_right(&self, start: Option<NodeID>, Ghost(p): Ghost<NodeID>, Ghost(i): Ghost<
        int,
    >) -> (out: Vec<NodeID>)
        requires
            self.wf(),
            self.has(p),
            0 <= i <= self.children_of(p).len(),
            start == (if i == self.children_of(p).len() {
                None::<NodeID>
            } else {
                Some(self.children_of(p)[i])
            }),
        ensures
            out@ == self.children_of(p).subrange(i, self.children_of(p).len() as int),
    {
        let ghost ks = self.children_of(p);
        let ghost mut j = i;
        let mut out: Vec<NodeID> = Vec::new();
        let mut cur = start;
        while cur.is_some()
            invariant
                self.wf(),
                self.has(p),
                ks == self.children_of(p),
                0 <= i <= j <= ks.len(),
                cur == (if j == ks.len() {
                    None::<NodeID>
                } else {
                    Some(ks[j])
                }),
                out@ == ks.subrange(i, j),
            decreases ks.len() - j,
        {
            let c = cur.unwrap();
            proof {
                assert(self.child_ok(p, j));
            }
            out.push(c);
            cur = self.link_at(c).right_sibling;
            proof {
                j = j + 1;
                assert(out@ =~= ks.subrange(i, j));
            }
        }
        out
    }

    /// The children of `p` before index `i`, last to first, found by
    /// following the links to the left from `start`.
    pub(crate) fn run_left(&self, start: Option<NodeID>, Ghost(p): Ghost<NodeID>, Ghost(i): Ghost<
        int,
    >) -> (out: Vec<NodeID>)
        requires
            self.wf(),
            self.has(p),
            0 <= i <= self.children_of(p).len(),
            start == (if i == 0 {
                None::<NodeID>
            } else {
                Some(self.children_of(p)[i - 1])
            }),
        ensures
            out@ == self.children_of(p).subrange(0, i).reverse(),
    {
        let ghost ks = self.children_of(p);
        let ghost mut j = i;
        let mut out: Vec<NodeID> = Vec::new();
        let mut cur = start;
        while cur.is_some()
            invariant
                self.wf(),
                self.has(p),
                ks == self.children_of(p),
                0 <= j <= i,
                i <= ks.len(),
                cur == (if j == 0 {
                    None::<NodeID>
                } else {
                    Some(ks[j - 1])
                }),
                out@ == ks.subrange(j, i).reverse(),
            decreases j,
        {
            let c = cur.unwrap();
            proof {
                assert(self.child_ok(p, j - 1));
            }
            out.push(c);
            cur = self.link_at(c).left_sibling;
            proof {
                j = j - 1;
                assert(out@ =~= ks.subrange(j, i).reverse());
            }
        }
        out
    }

    /// The children of `node`, first to last, or last to first where
    /// `reverse` is set.
    pub fn children(&self, node: NodeID, reverse: bool) -> (list: Result<Vec<NodeID>, TreeError>)
        requires
            self.wf(),
        ensures
            match list {
                Ok(v) => self.has(node) && v@ == turned(self.children_of(node), reverse),
                Err(e) => !self.has(node) && e == TreeError::MissingCurrentNode,
            },
    {
        if !self.contains(node) {
            return Err(TreeError::MissingCurrentNode);
        }
        proof {
            assert(self.node_ok(node));
        }
        let ghost ks = self.children_of(node);
        let link = self.link_at(node);
        if reverse {
            let v = self.run_left(link.last_child, Ghost(node), Ghost(ks.len() as int));
            assert(ks.subrange(0, ks.len() as int) =~= ks);
            Ok(v)
        } else {
            let v = self.run_right(link.first_child, Ghost(node), Ghost(0));
            assert(ks.subrange(0, ks.len() as int) =~= ks);
            Ok(v)
        }
    }

    /// The number of children of `node`.
    pub fn count_children(&self, node: NodeID) -> (count: Result<usize, TreeError>)
        requires
            self.wf(),
        ensures
            count == (if self.has(node) {
                Ok(self.children_of(node).len() as usize)
            } else {
                Err(TreeError::MissingCurrentNode)
            }),
    {
        match self.children(node, false) {
            Ok(v) => Ok(v.len()),
            Err(e) => Err(e),
        }
    }

    /// The node `node` and its siblings, first to last, or last to first
    /// where `reverse` is set.
    pub fn siblings(&self, node: NodeID, reverse: bool) -> (list: Result<Vec<NodeID>, TreeError>)
        requires
            self.wf(),
        ensures
            match list {
                Ok(v) => self.has(node) && v@ == turned(self.siblings_of(node), reverse),
                Err(e) => !self.has(node) && e == TreeError::MissingCurrentNode,
            },
    {
        if !self.contains(node) {
            return Err(TreeError::MissingCurrentNode);
        }
        proof {
            assert(self.node_ok(node));
        }
        match self.link_at(node).parent {
            Some(p) => self.children(p, reverse),
            None => {
                let mut v: Vec<NodeID> = Vec::new();
                v.push(node);
                assert(v@ =~= seq![node]);
                assert(seq![node].reverse() =~= seq![node]);
                Ok(v)
            },
        }
    }

    /// The siblings before `node`, the nearest first, with `node` itself in
    /// front where `include_self` is set.
    pub fn left_siblings(&self, node: NodeID, include_self: bool) -> (list: Result<
        Vec<NodeID>,
        TreeError,
    >)
        requires
            self.wf(),
        ensures
            match list {
                Ok(v) => self.has(node) && v@ == self.siblings_of(node).subrange(
                    0,
                    self.place_of(node) + if include_self {
                        1int
                    } else {
                        0int
                    },
                ).reverse(),
                Err(e) => !self.has(node) && e == TreeError::MissingCurrentNode,
            },
    {
        if !self.contains(node) {
            return Err(TreeError::MissingCurrentNode);
        }
        proof {
            self.lemma_place(node);
        }
        let link = self.link_at(node);
        match link.parent {
            Some(p) => {
                if include_self {
                    Ok(self.run_left(Some(node), Ghost(p), Ghost(self.spot_of(node) as int + 1)))
                } else {
                    Ok(self.run_left(link.left_sibling, Ghost(p), Ghost(self.spot_of(node) as int)))
                }
            },
            None => {
                let mut v: Vec<NodeID> = Vec::new();
                if include_self {
                    v.push(node);
                }
                assert(v@ =~= seq![node].subrange(
                    0,
                    if include_self {
                        1int
                    } else {
                        0int
                    },
                ).reverse());
                Ok(v)
            },
        }
    }

    /// The siblings after `node`, the nearest first, with `node` itself in
    /// front where `include_self` is set.
    pub fn right_siblings(&self, node: NodeID, include_self: bool) -> (list: Result<
        Vec<NodeID>,
        TreeError,
    >)
        requires
            self.wf(),
        ensures
            match list {
                Ok(v) => self.has(node) && v@ == self.siblings_of(node).subrange(
                    self.place_of(node) + if include_self {
                        0int
                    } else {
                        1int
                    },
                    self.siblings_of(node).len() as int,
                ),
                Err(e) => !self.has(node) && e == TreeError::MissingCurrentNode,
            },
    {
        if !self.contains(node) {
            return Err(TreeError::MissingCurrentNode);
        }
        proof {
            self.lemma_place(node);
        }
        let link = self.link_at(node);
        match link.parent {
            Some(p) => {
                if include_self {
                    Ok(self.run_right(Some(node), Ghost(p), Ghost(self.spot_of(node) as int)))
                } else {
                    Ok(self.run_right(link.right_sibling, Ghost(p), Ghost(self.spot_of(node) as int + 1)))
                }
            },
            None => {
                let mut v: Vec<NodeID> = Vec::new();
                if include_self {
                    v.push(node);
                }
                assert(v@ =~= seq![node].subrange(
                    if include_self {
                        0int
                    } else {
                        1int
                    },
                    1,
                ));
                Ok(v)
            },
        }
    }

    /// The ancestors of `node`, from its parent up to the root, with `node`
    /// itself in front where `include_self` is set.
    pub fn ancestor(&self, node: NodeID, include_self: bool) -> (list: Result<
        Vec<NodeID>,
        TreeError,
    >)
        requires
            self.wf(),
        ensures
            match list {
                Ok(v) => self.has(node) && v@ == (if include_self {
                    self.path_up(node)
                } else {
                    self.path_up(node).drop_first()
                }),
                Err(e) => !self.has(node) && e == TreeError::MissingCurrentNode,
            },
    {
        if !self.contains(node) {
            return Err(TreeError::MissingCurrentNode);
        }
        let mut out: Vec<NodeID> = Vec::new();
        if include_self {
            out.push(node);
        }
        let ghost goal = if include_self {
            self.path_up(node)
        } else {
            self.path_up(node).drop_first()
        };
        let mut cur = node;
        proof {
            assert(out@ + self.path_up(cur).drop_first() =~= goal);
        }
        loop
            invariant
                self.wf(),
                self.has(cur),
                out@ + self.path_up(cur).drop_first() == goal,
            ensures
                out@ == goal,
            decreases self.depth_of(cur),
        {
            proof {
                self.lemma_place(cur);
                assert(self.node_ok(cur));
            }
            match self.link_at(cur).parent {
                Some(p) => {
                    proof {
                        assert(self.child_ok(p, self.spot_of(cur) as int));
                        assert(self.path_up(cur).drop_first() =~= self.path_up(p));
                        assert(self.path_up(p) =~= seq![p] + self.path_up(p).drop_first());
                    }
                    out.push(p);
                    proof {
                        assert(out@ + self.path_up(p).drop_first() =~= goal);
                    }
                    cur = p;
                },
                None => {
                    proof {
                        assert(self.path_up(cur).drop_first() =~= Seq::<NodeID>::empty());
                        assert(out@ =~= goal);
                    }
                    break ;
                },
            }
        }
        Ok(out)
    }

    /// The node `node` and all that is below it: each node before its
    /// children, and the children of one node first to last, each followed
    /// at once by what is below it. Where `reverse` is set, the same list
    /// back to front.
    pub fn descendants(&self, node: NodeID, reverse: bool) -> (list: Result<Vec<NodeID>, TreeError>)
        requires
            self.wf(),
        ensures
            match list {
                Ok(v) => self.has(node) && v@ == turned(self.walk(node), reverse),
                Err(e) => !self.has(node) && e == TreeError::MissingCurrentNode,
            },
    {
        if !self.contains(node) {
            return Err(TreeError::MissingCurrentNode);
        }
        let mut roots: Vec<NodeID> = Vec::new();
        roots.push(node);
        proof {
            assert(roots@ =~= seq![node]);
            assert(roots@.drop_first() =~= Seq::<NodeID>::empty());
            assert(roots@.first() == node);
            assert(self.walk_each(Seq::<NodeID>::empty()) =~= Seq::<NodeID>::empty());
            assert(self.walk_each(roots@) == self.walk(node) + self.walk_each(roots@.drop_first()));
            assert(self.walk_each(roots@) =~= self.walk(node));
        }
        let v = self.sweep_deep(roots);
        if reverse {
            Ok(flip(v))
        } else {
            Ok(v)
        }
    }

    /// What a walk that has `pending` on its stack has still to visit: the
    /// walk of the node on top, then that of the one below it, and so on. An
    /// id that names no node stands for nothing.
    pub open spec fn to_come(&self, pending: Seq<NodeID>) -> Seq<NodeID>
        decreases pending.len(),
    {
        if pending.len() == 0 {
            Seq::empty()
        } else {
            (if self.has(pending.last()) {
                self.walk(pending.last())
            } else {
                Seq::empty()
            }) + self.to_come(pending.drop_last())
        }
    }

    /// Every id of `ids` names a node.
    pub open spec fn all_nodes(&self, ids: Seq<NodeID>) -> bool {
        forall|j: int| 0 <= j < ids.len() ==> self.has(#[trigger] ids[j])
    }

    /// Nodes that are put on the stack come, the one on top first, before
    /// all that the stack held.
    pub proof fn lemma_to_come_more(&self, pending: Seq<NodeID>, more: Seq<NodeID>)
        requires
            self.all_nodes(more),
        ensures
            self.to_come(pending + more) == self.walk_each(more.reverse()) + self.to_come(pending),
        decreases more.len(),
    {
        if more.len() == 0 {
            assert(pending + more =~= pending);
            assert(more.reverse() =~= Seq::<NodeID>::empty());
            assert(self.walk_each(more.reverse()) + self.to_come(pending) =~= self.to_come(
                pending,
            ));
        } else {
            let n = more.last();
            let rest = more.drop_last();
            assert(self.has(more[more.len() - 1]));
            assert(self.all_nodes(rest)) by {
                assert forall|j: int| 0 <= j < rest.len() implies self.has(#[trigger] rest[j]) by {
                    assert(rest[j] == more[j]);
                }
            }
            self.lemma_to_come_more(pending, rest);
            assert((pending + more).last() == n);
            assert((pending + more).drop_last() =~= pending + rest);
            assert(more.reverse().first() == n);
            assert(more.reverse().drop_first() =~= rest.reverse());
            assert(self.walk_each(more.reverse()) == self.walk(n) + self.walk_each(rest.reverse()));
            assert(self.to_come(pending + more) =~= self.walk_each(more.reverse()) + self.to_come(
                pending,
            ));
        }
    }

    /// Taking the node on top of the stack and putting its children in its
    /// place, the first on top, leaves to come what was to come but that
    /// node.
    pub proof fn lemma_descend(&self, before: Seq<NodeID>)
        requires
            self.wf(),
            before.len() > 0,
            self.has(before.last()),
        ensures
            self.to_come(before) == seq![before.last()] + self.to_come(
                before.drop_last() + self.children_of(before.last()).reverse(),
            ),
            self.all_nodes(before) ==> self.all_nodes(
                before.drop_last() + self.children_of(before.last()).reverse(),
            ),
    {
        let n = before.last();
        let rest = before.drop_last();
        let ks = self.children_of(n);
        let after = rest + ks.reverse();
        self.lemma_children_level(n);
        self.lemma_walk_range_each(n, 0, ks.len() as int);
        assert(ks.subrange(0, ks.len() as int) =~= ks);
        assert(self.all_nodes(ks.reverse())) by {
            assert forall|j: int| 0 <= j < ks.reverse().len() implies self.has(
                #[trigger] ks.reverse()[j],
            ) by {
                assert(ks.reverse()[j] == ks[ks.len() - 1 - j]);
            }
        }
        self.lemma_to_come_more(rest, ks.reverse());
        assert(ks.reverse().reverse() =~= ks);
        assert(self.to_come(before) =~= seq![n] + self.to_come(after));
        if self.all_nodes(before) {
            assert forall|j: int| 0 <= j < after.len() implies self.has(#[trigger] after[j]) by {
                if j >= rest.len() {
                    assert(after[j] == ks.reverse()[j - rest.len()]);
                } else {
                    assert(after[j] == before[j]);
                }
            }
        }
    }

    /// One step of a walk that keeps the nodes it has still to start from on
    /// the stack `pending`: takes the node on top, puts its children in its
    /// place, the first on top, and hands the node out. Ids on the stack
    /// that name no node are dropped. The node handed out is the first of
    /// what was to come, and the rest is still to come.
    pub fn descend(&self, pending: &mut Vec<NodeID>) -> (next: Option<NodeID>)
        requires
            self.wf(),
        ensures
            self.to_come(old(pending)@) == (match next {
                Some(n) => seq![n] + self.to_come(final(pending)@),
                None => Seq::<NodeID>::empty(),
            }),
            next matches Some(n) ==> self.has(n),
            next is None ==> final(pending)@.len() == 0,
            self.all_nodes(old(pending)@) ==> self.all_nodes(final(pending)@),
    {
        while pending.len() > 0
            invariant
                self.wf(),
                self.to_come(pending@) == self.to_come(old(pending)@),
                self.all_nodes(old(pending)@) ==> self.all_nodes(pending@),
            decreases pending@.len(),
        {
            let ghost before = pending@;
            let n = pending.pop().unwrap();
            proof {
                assert(pending@ =~= before.drop_last());
                assert(n == before.last());
                if self.all_nodes(before) {
                    assert forall|j: int| 0 <= j < pending@.len() implies self.has(
                        #[trigger] pending@[j],
                    ) by {
                        assert(pending@[j] == before[j]);
                    }
                }
            }
            match self.children(n, true) {
                Ok(mut cs) => {
                    let ghost ks = cs@;
                    pending.append(&mut cs);
                    proof {
                        assert(ks == self.children_of(n).reverse());
                        assert(pending@ == before.drop_last() + ks);
                        self.lemma_descend(before);
                    }
                    return Some(n);
                },
                Err(_) => {},
            }
        }
        None
    }

    /// Every id on the stack names a node.
    pub open spec fn all_marked_nodes(&self, pending: Seq<(NodeID, bool)>) -> bool {
        forall|j: int| 0 <= j < pending.len() ==> self.has((#[trigger] pending[j]).0)
    }

    /// What a walk back to front that has `pending` on its stack has still
    /// to visit: for the entry on top the node itself where its mark is
    /// set, and otherwise its walk back to front; then the same for the
    /// entry below it, and so on. An id that names no node stands for
    /// nothing.
    pub open spec fn to_come_back(&self, pending: Seq<(NodeID, bool)>) -> Seq<NodeID>
        decreases pending.len(),
    {
        if pending.len() == 0 {
            Seq::empty()
        } else {
            (if !self.has(pending.last().0) {
                Seq::empty()
            } else if pending.last().1 {
                seq![pending.last().0]
            } else {
                self.walk(pending.last().0).reverse()
            }) + self.to_come_back(pending.drop_last())
        }
    }

    /// An entry put on the stack comes before all that the stack held.
    pub proof fn lemma_back_push(&self, pending: Seq<(NodeID, bool)>, id: NodeID, open: bool)
        requires
            self.has(id),
        ensures
            self.to_come_back(pending.push((id, open))) == (if open {
                seq![id]
            } else {
                self.walk(id).reverse()
            }) + self.to_come_back(pending),
    {
        let q = pending.push((id, open));
        assert(q.last() == (id, open));
        assert(q.drop_last() =~= pending);
    }

    /// The walk of a node back to front is the walk of its last child back
    /// to front, then those of the children before it, the last first, and
    /// then the node.
    pub proof fn lemma_walk_back(&self, id: NodeID)
        requires
            self.wf(),
            self.has(id),
        ensures
            self.children_of(id).len() == 0 ==> self.walk(id).reverse() == seq![id],
            self.children_of(id).len() > 0 ==> self.walk(id).reverse() == self.walk(
                self.children_of(id).last(),
            ).reverse() + (self.walk_each(self.children_of(id).drop_last()).reverse() + seq![id]),
    {
        let ks = self.children_of(id);
        self.lemma_walk_range_each(id, 0, ks.len() as int);
        assert(ks.subrange(0, ks.len() as int) =~= ks);
        assert(self.walk(id) == seq![id] + self.walk_each(ks));
        if ks.len() == 0 {
            assert(self.walk(id) =~= seq![id]);
            assert(seq![id].reverse() =~= seq![id]);
        } else {
            let front = ks.drop_last();
            let one = seq![ks.last()];
            assert(ks =~= front + one);
            self.lemma_walk_each_concat(front, one);
            assert(one.first() == ks.last());
            assert(one.drop_first() =~= Seq::<NodeID>::empty());
            assert(self.walk_each(Seq::<NodeID>::empty()) =~= Seq::<NodeID>::empty());
            assert(self.walk_each(one) == self.walk(ks.last()) + self.walk_each(one.drop_first()));
            assert(self.walk_each(one) =~= self.walk(ks.last()));
            let a = self.walk_each(front);
            let b = self.walk(ks.last());
            assert(self.walk(id) =~= (seq![id] + a) + b);
            assert(((seq![id] + a) + b).reverse() =~= b.reverse() + (a.reverse() + seq![id]));
        }
    }

    /// The walks of a list with one more node, back to front, start with
    /// the walk of that node, back to front.
    pub proof fn lemma_walk_each_back(&self, ids: Seq<NodeID>, id: NodeID)
        ensures
            self.walk_each(ids.push(id)).reverse() == self.walk(id).reverse() + self.walk_each(
                ids,
            ).reverse(),
    {
        let one = seq![id];
        assert(ids.push(id) =~= ids + one);
        self.lemma_walk_each_concat(ids, one);
        assert(one.first() == id);
        assert(one.drop_first() =~= Seq::<NodeID>::empty());
        assert(self.walk_each(Seq::<NodeID>::empty()) =~= Seq::<NodeID>::empty());
        assert(self.walk_each(one) == self.walk(id) + self.walk_each(one.drop_first()));
        assert(self.walk_each(one) =~= self.walk(id));
        let a = self.walk_each(ids);
        let b = self.walk(id);
        assert((a + b).reverse() =~= b.reverse() + a.reverse());
    }

    /// One step of a walk back to front, which hands out each node after
    /// all that is below it, the last child first. The stack `pending` holds
    /// the nodes that are still to be handed out, each with a mark that
    /// says whether what is below it has been put on the stack already. Ids
    /// on the stack that name no node are dropped. The node handed out is
    /// the first of what was to come, and the rest is still to come.
    pub fn ascend(&self, pending: &mut Vec<(NodeID, bool)>) -> (next: Option<NodeID>)
        requires
            self.wf(),
        ensures
            self.to_come_back(old(pending)@) == (match next {
                Some(n) => seq![n] + self.to_come_back(final(pending)@),
                None => Seq::<NodeID>::empty(),
            }),
            next matches Some(n) ==> self.has(n),
            next is None ==> final(pending)@.len() == 0,
            self.all_marked_nodes(old(pending)@) ==> self.all_marked_nodes(final(pending)@),
    {
        let ghost start = pending@;
        let ghost all = self.all_marked_nodes(start);
        while pending.len() > 0
            invariant
                self.wf(),
                start == old(pending)@,
                all == self.all_marked_nodes(start),
                self.to_come_back(pending@) == self.to_come_back(start),
                all ==> self.all_marked_nodes(pending@),
            decreases pending@.len(),
        {
            let ghost before = pending@;
            let (top, open) = pending.pop().unwrap();
            proof {
                assert(pending@ =~= before.drop_last());
                assert((top, open) == before.last());
                if all {
                    assert forall|j: int| 0 <= j < pending@.len() implies self.has(
                        (#[trigger] pending@[j]).0,
                    ) by {
                        assert(pending@[j] == before[j]);
                    }
                }
            }
            if self.contains(top) {
                if open {
                    return Some(top);
                }
                let mut cur = top;
                loop
                    invariant
                        self.wf(),
                        self.has(cur),
                        start == old(pending)@,
                        all == self.all_marked_nodes(start),
                        all ==> self.all_marked_nodes(pending@),
                        self.to_come_back(start) == self.walk(cur).reverse() + self.to_come_back(
                            pending@,
                        ),
                    decreases self.height() - self.depth_of(cur),
                {
                    let mut cs = match self.children(cur, false) {
                        Ok(v) => v,
                        Err(_) => Vec::new(),
                    };
                    let ghost ks = cs@;
                    proof {
                        self.lemma_children_level(cur);
                        self.lemma_walk_back(cur);
                        assert(self.node_ok(cur));
                    }
                    match cs.pop() {
                        None => {
                            return Some(cur);
                        },
                        Some(last) => {
                            let ghost base = pending@;
                            let ghost front = cs@;
                            proof {
                                assert(last == ks[ks.len() - 1]);
                                assert(front =~= ks.drop_last());
                                assert(self.node_ok(last));
                            }
                            pending.push((cur, true));
                            proof {
                                self.lemma_back_push(base, cur, true);
                                assert(front.subrange(0, 0) =~= Seq::<NodeID>::empty());
                                assert(self.walk_each(Seq::<NodeID>::empty()).reverse()
                                    =~= Seq::<NodeID>::empty());
                                assert(self.to_come_back(pending@) =~= self.walk_each(
                                    front.subrange(0, 0),
                                ).reverse() + (seq![cur] + self.to_come_back(base)));
                                if all {
                                    assert forall|j: int| 0 <= j < pending@.len() implies self.has(
                                        (#[trigger] pending@[j]).0,
                                    ) by {
                                        if j < base.len() {
                                            assert(pending@[j] == base[j]);
                                        }
                                    }
                                }
                            }
                            let mut i: usize = 0;
                            while i < cs.len()
                                invariant
                                    self.wf(),
                                    self.has(cur),
                                    cs@ == front,
                                    front == self.children_of(cur).drop_last(),
                                    self.children_of(cur).len() > 0,
                                    0 <= i <= front.len(),
                                    all ==> self.all_marked_nodes(pending@),
                                    self.to_come_back(pending@) == self.walk_each(
                                        front.subrange(0, i as int),
                                    ).reverse() + (seq![cur] + self.to_come_back(base)),
                                decreases front.len() - i,
                            {
                                let ghost held = pending@;
                                let c = cs[i];
                                pending.push((c, false));
                                proof {
                                    let part = front.subrange(0, i as int);
                                    assert(c == self.children_of(cur)[i as int]);
                                    self.lemma_children_level(cur);
                                    assert(self.has(c));
                                    self.lemma_back_push(held, c, false);
                                    self.lemma_walk_each_back(part, c);
                                    assert(part.push(c) =~= front.subrange(0, i + 1));
                                    assert(self.to_come_back(pending@) =~= self.walk_each(
                                        front.subrange(0, i + 1),
                                    ).reverse() + (seq![cur] + self.to_come_back(base)));
                                    if all {
                                        assert forall|j: int|
                                            0 <= j < pending@.len() implies self.has(
                                            (#[trigger] pending@[j]).0,
                                        ) by {
                                            if j < held.len() {
                                                assert(pending@[j] == held[j]);
                                            }
                                        }
                                    }
                                }
                                i += 1;
                            }
                            proof {
                                assert(front.subrange(0, front.len() as int) =~= front);
                                assert(self.to_come_back(start) =~= self.walk(last).reverse()
                                    + self.to_come_back(pending@));
                            }
                            cur = last;
                        },
                    }
                }
            }
        }
        None
    }
}

} // verus!
