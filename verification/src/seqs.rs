use vstd::prelude::*;
use crate::links::NodeID;

verus! {

/// The sequence `s` without the ids that are in `gone`.
pub open spec fn without(s: Seq<NodeID>, gone: Set<NodeID>) -> Seq<NodeID>
    decreases s.len(),
{
    if s.len() == 0 {
        s
    } else if gone.contains(s.last()) {
        without(s.drop_last(), gone)
    } else {
        without(s.drop_last(), gone).push(s.last())
    }
}

/// Nothing is left of a sequence whose ids are all gone.
pub proof fn lemma_without_all(s: Seq<NodeID>, gone: Set<NodeID>)
    requires
        forall|i: int| 0 <= i < s.len() ==> gone.contains(#[trigger] s[i]),
    ensures
        without(s, gone) == Seq::<NodeID>::empty(),
    decreases s.len(),
{
    if s.len() > 0 {
        assert(gone.contains(s[s.len() - 1]));
        assert forall|i: int| 0 <= i < s.drop_last().len() implies gone.contains(
            #[trigger] s.drop_last()[i],
        ) by {
            assert(s.drop_last()[i] == s[i]);
        }
        lemma_without_all(s.drop_last(), gone);
    } else {
        assert(s =~= Seq::<NodeID>::empty());
    }
}

/// A sequence of which no id is gone stays as it is.
pub proof fn lemma_without_none(s: Seq<NodeID>, gone: Set<NodeID>)
    requires
        forall|i: int| 0 <= i < s.len() ==> !gone.contains(#[trigger] s[i]),
    ensures
        without(s, gone) == s,
    decreases s.len(),
{
    if s.len() > 0 {
        assert(!gone.contains(s[s.len() - 1]));
        assert forall|i: int| 0 <= i < s.drop_last().len() implies !gone.contains(
            #[trigger] s.drop_last()[i],
        ) by {
            assert(s.drop_last()[i] == s[i]);
        }
        lemma_without_none(s.drop_last(), gone);
        assert(s.drop_last().push(s.last()) =~= s);
    }
}

/// Only the ids of the sequence itself decide what is left of it.
pub proof fn lemma_without_same(s: Seq<NodeID>, a: Set<NodeID>, b: Set<NodeID>)
    requires
        forall|i: int| 0 <= i < s.len() ==> a.contains(#[trigger] s[i]) == b.contains(s[i]),
    ensures
        without(s, a) == without(s, b),
    decreases s.len(),
{
    if s.len() > 0 {
        assert(a.contains(s[s.len() - 1]) == b.contains(s[s.len() - 1]));
        assert forall|i: int| 0 <= i < s.drop_last().len() implies a.contains(
            #[trigger] s.drop_last()[i],
        ) == b.contains(s.drop_last()[i]) by {
            assert(s.drop_last()[i] == s[i]);
        }
        lemma_without_same(s.drop_last(), a, b);
    }
}

/// What is left of a sequence holds only ids of the sequence that are not
/// gone, and holds each of them.
pub proof fn lemma_without_holds(s: Seq<NodeID>, gone: Set<NodeID>)
    ensures
        forall|x: NodeID|
            #[trigger] without(s, gone).contains(x) <==> (s.contains(x) && !gone.contains(x)),
    decreases s.len(),
{
    let t = without(s, gone);
    if s.len() > 0 {
        let s0 = s.drop_last();
        let t0 = without(s0, gone);
        lemma_without_holds(s0, gone);
        assert forall|x: NodeID| #[trigger] t.contains(x) <==> (s.contains(x) && !gone.contains(
            x,
        )) by {
            if t.contains(x) {
                let i = choose|i: int| 0 <= i < t.len() && t[i] == x;
                if gone.contains(s.last()) || i < t0.len() {
                    assert(t0[i] == x);
                    assert(t0.contains(x));
                    let j = choose|j: int| 0 <= j < s0.len() && s0[j] == x;
                    assert(s[j] == x);
                } else {
                    assert(s[s.len() - 1] == x);
                }
            }
            if s.contains(x) && !gone.contains(x) {
                let j = choose|j: int| 0 <= j < s.len() && s[j] == x;
                if j < s0.len() {
                    assert(s0[j] == x);
                    assert(s0.contains(x));
                    assert(t0.contains(x));
                    let i = choose|i: int| 0 <= i < t0.len() && t0[i] == x;
                    assert(t[i] == x);
                } else {
                    assert(t[t.len() - 1] == x);
                }
            }
        }
    } else {
        assert forall|x: NodeID| #[trigger] t.contains(x) <==> (s.contains(x) && !gone.contains(
            x,
        )) by {}
    }
}

/// Taking one more id out of what is left of a sequence without duplicates
/// is the same as letting that id be gone too.
pub proof fn lemma_without_remove(s: Seq<NodeID>, gone: Set<NodeID>, i: int, y: NodeID)
    requires
        s.no_duplicates(),
        0 <= i < without(s, gone).len(),
        without(s, gone)[i] == y,
    ensures
        without(s, gone).remove(i) == without(s, gone.insert(y)),
    decreases s.len(),
{
    let t = without(s, gone);
    let g2 = gone.insert(y);
    lemma_without_holds(s, gone);
    assert(t.contains(y));
    if s.len() > 0 {
        let s0 = s.drop_last();
        let z = s.last();
        let t0 = without(s0, gone);
        assert(s0.no_duplicates()) by {
            assert forall|a: int, b: int| 0 <= a < s0.len() && 0 <= b < s0.len() && a != b implies s0[a]
                != s0[b] by {
                assert(s0[a] == s[a] && s0[b] == s[b]);
            }
        }
        lemma_without_holds(s0, gone);
        if z == y {
            assert(!s0.contains(y)) by {
                if s0.contains(y) {
                    let j = choose|j: int| 0 <= j < s0.len() && s0[j] == y;
                    assert(s[j] == y);
                    assert(s[s.len() - 1] == y);
                }
            }
            assert(!t0.contains(y));
            assert(t == t0.push(y));
            if i < t0.len() {
                assert(t0[i] == y);
            }
            assert(t.remove(i) =~= t0);
            assert forall|k: int| 0 <= k < s0.len() implies gone.contains(#[trigger] s0[k])
                == g2.contains(s0[k]) by {
                if s0[k] == y {
                    assert(s0.contains(y));
                }
            }
            lemma_without_same(s0, gone, g2);
        } else if gone.contains(z) {
            lemma_without_remove(s0, gone, i, y);
        } else {
            assert(t == t0.push(z));
            assert(i < t0.len());
            assert(t0[i] == y);
            lemma_without_remove(s0, gone, i, y);
            assert(t.remove(i) =~= t0.remove(i).push(z));
        }
    }
}

/// What is left of two sequences joined is what is left of each, joined.
pub proof fn lemma_without_concat(a: Seq<NodeID>, b: Seq<NodeID>, gone: Set<NodeID>)
    ensures
        without(a + b, gone) == without(a, gone) + without(b, gone),
    decreases b.len(),
{
    if b.len() == 0 {
        assert(a + b =~= a);
        assert(without(a, gone) + without(b, gone) =~= without(a, gone));
    } else {
        assert((a + b).drop_last() =~= a + b.drop_last());
        assert((a + b).last() == b.last());
        lemma_without_concat(a, b.drop_last(), gone);
        if gone.contains(b.last()) {
        } else {
            assert(without(a + b, gone) =~= without(a, gone) + without(b, gone));
        }
    }
}

/// Where the ids between the indices `a` and `b` of a sequence without
/// duplicates are gone, and no others, the parts before and behind are left.
pub proof fn lemma_without_block(s: Seq<NodeID>, a: int, b: int, gone: Set<NodeID>)
    requires
        s.no_duplicates(),
        0 <= a <= b <= s.len(),
        forall|i: int| 0 <= i < s.len() ==> gone.contains(#[trigger] s[i]) == (a <= i < b),
    ensures
        without(s, gone) == s.subrange(0, a) + s.subrange(b, s.len() as int),
{
    let x = s.subrange(0, a);
    let y = s.subrange(a, b);
    let z = s.subrange(b, s.len() as int);
    assert(s =~= (x + y) + z);
    lemma_without_concat(x + y, z, gone);
    lemma_without_concat(x, y, gone);
    assert forall|i: int| 0 <= i < x.len() implies !gone.contains(#[trigger] x[i]) by {
        assert(x[i] == s[i]);
    }
    assert forall|i: int| 0 <= i < y.len() implies gone.contains(#[trigger] y[i]) by {
        assert(y[i] == s[a + i]);
    }
    assert forall|i: int| 0 <= i < z.len() implies !gone.contains(#[trigger] z[i]) by {
        assert(z[i] == s[b + i]);
    }
    lemma_without_none(x, gone);
    lemma_without_all(y, gone);
    lemma_without_none(z, gone);
    assert(x + Seq::<NodeID>::empty() + z =~= x + z);
}

/// Where all ids of a sequence without duplicates are gone but those
/// between the indices `a` and `b`, that part is left.
pub proof fn lemma_without_rest(s: Seq<NodeID>, a: int, b: int, gone: Set<NodeID>)
    requires
        s.no_duplicates(),
        0 <= a <= b <= s.len(),
        forall|i: int| 0 <= i < s.len() ==> gone.contains(#[trigger] s[i]) == !(a <= i < b),
    ensures
        without(s, gone) == s.subrange(a, b),
{
    let x = s.subrange(0, a);
    let y = s.subrange(a, b);
    let z = s.subrange(b, s.len() as int);
    assert(s =~= (x + y) + z);
    lemma_without_concat(x + y, z, gone);
    lemma_without_concat(x, y, gone);
    assert forall|i: int| 0 <= i < x.len() implies gone.contains(#[trigger] x[i]) by {
        assert(x[i] == s[i]);
    }
    assert forall|i: int| 0 <= i < y.len() implies !gone.contains(#[trigger] y[i]) by {
        assert(y[i] == s[a + i]);
    }
    assert forall|i: int| 0 <= i < z.len() implies gone.contains(#[trigger] z[i]) by {
        assert(z[i] == s[b + i]);
    }
    lemma_without_all(x, gone);
    lemma_without_none(y, gone);
    lemma_without_all(z, gone);
    assert(Seq::<NodeID>::empty() + y + Seq::<NodeID>::empty() =~= y);
}

/// The vector back to front.
pub(crate) fn flip(v: Vec<NodeID>) -> (out: Vec<NodeID>)
    ensures
        out@ == v@.reverse(),
{
    let mut v = v;
    let ghost w = v@;
    let mut out: Vec<NodeID> = Vec::new();
    while v.len() > 0
        invariant
            v@ == w.subrange(0, v@.len() as int),
            v@.len() <= w.len(),
            out@ == w.subrange(v@.len() as int, w.len() as int).reverse(),
        decreases v@.len(),
    {
        let x = v.pop().unwrap();
        out.push(x);
        proof {
            assert(v@ =~= w.subrange(0, v@.len() as int));
            assert(out@ =~= w.subrange(v@.len() as int, w.len() as int).reverse());
        }
    }
    proof {
        assert(w.subrange(0, w.len() as int) =~= w);
    }
    out
}

} // verus!
