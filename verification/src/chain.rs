//! The chain of leaves: every leaf refers to the leaf that follows it in
//! key order, and the steps of an insertion keep it that way.

use vstd::prelude::*;
use crate::increment::Increment;
use crate::layout::{
    depth, first_leaf, halved, inserted_two, kid, last_leaf, lemma_end_leaves, lemma_owned_in_arena,
    low, owns, shaped,
};
use crate::mend::filed;
use crate::node::Node;
use crate::slot::{Either, Slot};

verus! {

/// Node `p` refers to node `q` as the leaf that follows it.
pub open spec fn follows<K: Increment, V: Copy>(a: Seq<Node<K, V>>, p: int, q: int) -> bool {
    a[p].next matches Some(n) && n as int == q
}

/// The last leaf under child `j` of `id` refers to the first leaf under
/// child `j + 1`.
pub open spec fn joined<K: Increment, V: Copy>(a: Seq<Node<K, V>>, id: int, h: nat,
    j: int) -> bool {
    follows(
        a,
        last_leaf(a, kid(a, id, j), (h - 1) as nat),
        first_leaf(a, kid(a, id, j + 1), (h - 1) as nat),
    )
}

/// The leaves under `id` are chained in key order: within each child, and
/// from each child to the next. Where the last leaf refers to is not said.
pub open spec fn chained<K: Increment, V: Copy>(a: Seq<Node<K, V>>, id: int, h: nat) -> bool
    decreases h,
{
    0 <= id < a.len() && a[id].t is Internal && h > 0 ==> {
        &&& forall|j: int|
            0 <= j < a[id].values@.len() ==> chained(a, #[trigger] kid(a, id, j), (h - 1) as nat)
        &&& forall|j: int| 0 <= j < a[id].values@.len() - 1 ==> #[trigger] joined(a, id, h, j)
    }
}

/// Two nodes with the same place in the tree's skeleton: same kind and, for
/// internal nodes, the same slots.
pub open spec fn akin<K: Increment, V: Copy>(n: Node<K, V>, m: Node<K, V>) -> bool {
    n.t == m.t && (n.t is Internal ==> n.values@ == m.values@)
}

/// In arena `b` the subtree under `id` is chained, begins with the leaf it
/// began with in `a`, ends in a leaf that refers to what its last leaf
/// referred to in `a`, and is as deep at its left end.
pub open spec fn linked_one<K: Increment, V: Copy>(
    a: Seq<Node<K, V>>,
    b: Seq<Node<K, V>>,
    id: int,
    h: nat,
) -> bool {
    &&& chained(b, id, h)
    &&& first_leaf(b, id, h) == first_leaf(a, id, h)
    &&& b[last_leaf(b, id, h)].next == a[last_leaf(a, id, h)].next
    &&& depth(b, id, h) == depth(a, id, h)
}

/// In arena `b` the subtrees under `id` and `sib` are chained one after
/// the other in place of what was under `id` in `a`.
pub open spec fn linked_two<K: Increment, V: Copy>(
    a: Seq<Node<K, V>>,
    b: Seq<Node<K, V>>,
    id: int,
    sib: int,
    h: nat,
) -> bool {
    &&& chained(b, id, h)
    &&& chained(b, sib, h)
    &&& first_leaf(b, id, h) == first_leaf(a, id, h)
    &&& follows(b, last_leaf(b, id, h), first_leaf(b, sib, h))
    &&& b[last_leaf(b, sib, h)].next == a[last_leaf(a, id, h)].next
    &&& depth(b, id, h) == depth(a, id, h)
}

/// A chained subtree stays chained, with the same leaves at its ends and
/// the same depth, when its nodes keep their place in the skeleton and its
/// leaves, but for the last one, what they refer to.
pub proof fn lemma_chain_frame<K: Increment, V: Copy>(
    a: Seq<Node<K, V>>,
    b: Seq<Node<K, V>>,
    id: int,
    lo: int,
    hi: int,
    h: nat,
)
    requires
        shaped(a, id, lo, hi, h),
        chained(a, id, h),
        a.len() <= b.len(),
        forall|x: int| owns(a, id, h, x) ==> akin(a[x], #[trigger] b[x]),
        forall|x: int|
            owns(a, id, h, x) && x != last_leaf(a, id, h) ==> (#[trigger] b[x]).next == a[x].next,
    ensures
        chained(b, id, h),
        first_leaf(b, id, h) == first_leaf(a, id, h),
        last_leaf(b, id, h) == last_leaf(a, id, h),
        depth(b, id, h) == depth(a, id, h),
    decreases h,
{
    assert(owns(a, id, h, id));
    assert(akin(a[id], b[id]));
    if a[id].t is Internal {
        let s = a[id].values@;
        let n = s.len() as int;
        let g = (h - 1) as nat;
        lemma_end_leaves(a, id, lo, hi, h);
        assert forall|j: int| 0 <= j < n implies chained(b, #[trigger] kid(b, id, j), g)
            && first_leaf(b, kid(b, id, j), g) == first_leaf(a, kid(a, id, j), g) && last_leaf(
            b,
            kid(b, id, j),
            g,
        ) == last_leaf(a, kid(a, id, j), g) && depth(b, kid(b, id, j), g) == depth(
            a,
            kid(a, id, j),
            g,
        ) && (j < n - 1 ==> b[last_leaf(a, kid(a, id, j), g)].next == a[last_leaf(
            a,
            kid(a, id, j),
            g,
        )].next) by {
            let c = kid(a, id, j);
            assert(s[j].child() as int == c);
            assert(shaped(a, c, low(a, id, lo, j), s[j].rank(), g));
            assert(chained(a, kid(a, id, j), g));
            lemma_end_leaves(a, c, low(a, id, lo, j), s[j].rank(), g);
            assert(owns(a, id, h, last_leaf(a, c, g)));
            assert forall|x: int| owns(a, c, g, x) implies akin(a[x], #[trigger] b[x]) by {
                assert(owns(a, id, h, x));
            }
            if j < n - 1 {
                // the last leaf of the node lies under the last child
                assert(shaped(
                    a,
                    s[n - 1].child() as int,
                    low(a, id, lo, n - 1),
                    s[n - 1].rank(),
                    g,
                ));
                lemma_end_leaves(a, s[n - 1].child() as int, low(a, id, lo, n - 1),
                    s[n - 1].rank(), g);
                assert(s.last() == s[n - 1]);
                assert(owns(a, s[n - 1].child() as int, g, last_leaf(a, id, h)));
                assert forall|x: int| owns(a, c, g, x) implies x != last_leaf(a, id, h) by {
                    assert(!(owns(a, s[j].child() as int, g, x) && owns(
                        a,
                        s[n - 1].child() as int,
                        g,
                        x,
                    )));
                }
            }
            assert forall|x: int| owns(a, c, g, x) && x != last_leaf(a, c, g) implies (
            #[trigger] b[x]).next == a[x].next by {
                assert(owns(a, id, h, x));
            }
            lemma_chain_frame(a, b, c, low(a, id, lo, j), s[j].rank(), g);
        }
        assert forall|j: int| 0 <= j < n - 1 implies #[trigger] joined(b, id, h, j) by {
            assert(joined(a, id, h, j));
            assert(chained(b, kid(b, id, j), g));
            assert(chained(b, kid(b, id, j + 1), g));
        }
        assert(chained(b, kid(b, id, 0), g));
        assert(chained(b, kid(b, id, n - 1), g));
    }
}

/// A leaf that keeps what it refers to keeps its place in the chain.
pub proof fn lemma_chain_leaf<K: Increment, V: Copy>(
    a: Seq<Node<K, V>>,
    b: Seq<Node<K, V>>,
    id: int,
    h: nat,
)
    requires
        0 <= id < a.len() <= b.len(),
        a[id].t is Leaf,
        b[id].t is Leaf,
        b[id].next == a[id].next,
    ensures
        linked_one(a, b, id, h),
{
}

/// The children of an internal node other than child `j` keep their chains
/// and their end leaves, and those end leaves keep what they refer to, when
/// the arena changes only under child `j`.
pub proof fn lemma_chain_others<K: Increment, V: Copy>(
    a: Seq<Node<K, V>>,
    b: Seq<Node<K, V>>,
    id: int,
    lo: int,
    hi: int,
    h: nat,
    j: int,
)
    requires
        shaped(a, id, lo, hi, h),
        chained(a, id, h),
        a[id].t is Internal,
        0 <= j < a[id].values@.len(),
        a.len() <= b.len(),
        forall|x: int|
            0 <= x < a.len() && x != id && !owns(a, kid(a, id, j), (h - 1) as nat, x)
                ==> #[trigger] b[x] == a[x],
    ensures
        forall|i: int|
            0 <= i < a[id].values@.len() && i != j ==> chained(
                b,
                #[trigger] kid(a, id, i),
                (h - 1) as nat,
            ) && first_leaf(b, kid(a, id, i), (h - 1) as nat) == first_leaf(
                a,
                kid(a, id, i),
                (h - 1) as nat,
            ) && last_leaf(b, kid(a, id, i), (h - 1) as nat) == last_leaf(
                a,
                kid(a, id, i),
                (h - 1) as nat,
            ) && depth(b, kid(a, id, i), (h - 1) as nat) == depth(a, kid(a, id, i), (h - 1) as nat)
                && b[last_leaf(a, kid(a, id, i), (h - 1) as nat)] == a[last_leaf(
                a,
                kid(a, id, i),
                (h - 1) as nat,
            )],
{
    let s = a[id].values@;
    let g = (h - 1) as nat;
    assert forall|i: int| 0 <= i < s.len() && i != j implies chained(
        b,
        #[trigger] kid(a, id, i),
        g,
    ) && first_leaf(b, kid(a, id, i), g) == first_leaf(a, kid(a, id, i), g) && last_leaf(
        b,
        kid(a, id, i),
        g,
    ) == last_leaf(a, kid(a, id, i), g) && depth(b, kid(a, id, i), g) == depth(
        a,
        kid(a, id, i),
        g,
    ) && b[last_leaf(a, kid(a, id, i), g)] == a[last_leaf(a, kid(a, id, i), g)] by {
        let d = kid(a, id, i);
        assert(s[i].child() as int == d);
        assert(shaped(a, d, low(a, id, lo, i), s[i].rank(), g));
        assert(!owns(a, s[i].child() as int, g, id));
        assert forall|x: int| owns(a, d, g, x) implies #[trigger] b[x] == a[x] by {
            lemma_owned_in_arena(a, d, low(a, id, lo, i), s[i].rank(), g, x);
            if i < j {
                assert(!(owns(a, s[i].child() as int, g, x) && owns(a, s[j].child() as int, g, x)));
            } else {
                assert(!(owns(a, s[j].child() as int, g, x) && owns(a, s[i].child() as int, g, x)));
            }
        }
        lemma_chain_frame(a, b, d, low(a, id, lo, i), s[i].rank(), g);
        lemma_end_leaves(a, d, low(a, id, lo, i), s[i].rank(), g);
    }
}

/// An insertion under child `j` that did not split the child, and kept the
/// child's place in the chain, keeps the node's place in the chain.
pub proof fn lemma_chain_passed_down<K: Increment, V: Copy>(
    a: Seq<Node<K, V>>,
    b: Seq<Node<K, V>>,
    id: int,
    lo: int,
    hi: int,
    h: nat,
    j: int,
)
    requires
        shaped(a, id, lo, hi, h),
        chained(a, id, h),
        a[id].t is Internal,
        0 <= j < a[id].values@.len(),
        a.len() <= b.len(),
        forall|x: int|
            0 <= x < a.len() && !owns(a, kid(a, id, j), (h - 1) as nat, x) ==> #[trigger] b[x]
                == a[x],
        linked_one(a, b, kid(a, id, j), (h - 1) as nat),
    ensures
        linked_one(a, b, id, h),
{
    let s = a[id].values@;
    let n = s.len() as int;
    let g = (h - 1) as nat;
    let c = kid(a, id, j);
    assert(!owns(a, s[j].child() as int, g, id));
    assert(b[id] == a[id]);
    lemma_chain_others(a, b, id, lo, hi, h, j);
    assert forall|i: int| 0 <= i < n implies chained(b, #[trigger] kid(b, id, i), g) by {
        assert(kid(b, id, i) == kid(a, id, i));
    }
    assert forall|i: int| 0 <= i < n - 1 implies #[trigger] joined(b, id, h, i) by {
        assert(joined(a, id, h, i));
        assert(kid(b, id, i) == kid(a, id, i));
        assert(kid(b, id, i + 1) == kid(a, id, i + 1));
    }
    assert(kid(b, id, 0) == kid(a, id, 0));
    assert(kid(b, id, n - 1) == kid(a, id, n - 1));
    assert(s.last() == s[n - 1]);
}

/// The children of an internal node keep their chains and their end
/// leaves, and those end leaves keep what they refer to, when the arena
/// changes only at the node itself.
pub proof fn lemma_chain_all<K: Increment, V: Copy>(
    a: Seq<Node<K, V>>,
    b: Seq<Node<K, V>>,
    id: int,
    lo: int,
    hi: int,
    h: nat,
)
    requires
        shaped(a, id, lo, hi, h),
        chained(a, id, h),
        a[id].t is Internal,
        a.len() <= b.len(),
        forall|x: int| 0 <= x < a.len() && x != id ==> #[trigger] b[x] == a[x],
    ensures
        forall|i: int|
            0 <= i < a[id].values@.len() ==> chained(b, #[trigger] kid(a, id, i), (h - 1) as nat)
                && first_leaf(b, kid(a, id, i), (h - 1) as nat) == first_leaf(
                a,
                kid(a, id, i),
                (h - 1) as nat,
            ) && last_leaf(b, kid(a, id, i), (h - 1) as nat) == last_leaf(
                a,
                kid(a, id, i),
                (h - 1) as nat,
            ) && depth(b, kid(a, id, i), (h - 1) as nat) == depth(a, kid(a, id, i), (h - 1) as nat)
                && b[last_leaf(a, kid(a, id, i), (h - 1) as nat)] == a[last_leaf(
                a,
                kid(a, id, i),
                (h - 1) as nat,
            )],
{
    let s = a[id].values@;
    let g = (h - 1) as nat;
    assert forall|i: int| 0 <= i < s.len() implies chained(b, #[trigger] kid(a, id, i), g)
        && first_leaf(b, kid(a, id, i), g) == first_leaf(a, kid(a, id, i), g) && last_leaf(
        b,
        kid(a, id, i),
        g,
    ) == last_leaf(a, kid(a, id, i), g) && depth(b, kid(a, id, i), g) == depth(
        a,
        kid(a, id, i),
        g,
    ) && b[last_leaf(a, kid(a, id, i), g)] == a[last_leaf(a, kid(a, id, i), g)] by {
        let d = kid(a, id, i);
        assert(s[i].child() as int == d);
        assert(shaped(a, d, low(a, id, lo, i), s[i].rank(), g));
        assert(!owns(a, s[i].child() as int, g, id));
        assert forall|x: int| owns(a, d, g, x) implies #[trigger] b[x] == a[x] by {
            lemma_owned_in_arena(a, d, low(a, id, lo, i), s[i].rank(), g, x);
        }
        lemma_chain_frame(a, b, d, low(a, id, lo, i), s[i].rank(), g);
        lemma_end_leaves(a, d, low(a, id, lo, i), s[i].rank(), g);
    }
}

/// Splitting a node keeps the chain: a leaf refers to its new sibling,
/// which refers to what the leaf referred to; the halves of an internal
/// node meet where two of its children met.
pub proof fn lemma_chain_split<K: Increment, V: Copy>(
    a: Seq<Node<K, V>>,
    b: Seq<Node<K, V>>,
    id: int,
    lo: int,
    hi: int,
    h: nat,
)
    requires
        shaped(a, id, lo, hi, h),
        chained(a, id, h),
        a[id].values@.len() >= 2,
        b.len() == a.len() + 1,
        forall|x: int| 0 <= x < a.len() && x != id ==> #[trigger] b[x] == a[x],
        b[id].t == a[id].t,
        b[a.len() as int].t == a[id].t,
        b[id].values@ == a[id].values@.subrange(0, a[id].values@.len() as int / 2),
        b[a.len() as int].values@ == a[id].values@.subrange(
            a[id].values@.len() as int / 2,
            a[id].values@.len() as int,
        ),
        b[a.len() as int].next == a[id].next,
        a[id].t is Leaf ==> follows(b, id, a.len() as int),
    ensures
        linked_two(a, b, id, a.len() as int, h),
{
    let s = a[id].values@;
    let n = s.len() as int;
    let m = n / 2;
    let sib = a.len() as int;
    let ls = b[id].values@;
    let us = b[sib].values@;
    if a[id].t is Internal {
        let g = (h - 1) as nat;
        lemma_chain_all(a, b, id, lo, hi, h);
        assert forall|i: int| 0 <= i < ls.len() implies #[trigger] kid(b, id, i) == kid(a, id, i)
            by {
            assert(ls[i] == s[i]);
        }
        assert forall|i: int| 0 <= i < us.len() implies #[trigger] kid(b, sib, i) == kid(
            a,
            id,
            i + m,
        ) by {
            assert(us[i] == s[i + m]);
        }
        assert forall|i: int| 0 <= i < ls.len() implies chained(b, #[trigger] kid(b, id, i), g) by {
            assert(kid(b, id, i) == kid(a, id, i));
        }
        assert forall|i: int| 0 <= i < us.len() implies chained(b, #[trigger] kid(b, sib, i), g)
            by {
            assert(kid(b, sib, i) == kid(a, id, i + m));
        }
        assert forall|i: int| 0 <= i < ls.len() - 1 implies #[trigger] joined(b, id, h, i) by {
            assert(joined(a, id, h, i));
            assert(kid(b, id, i) == kid(a, id, i));
            assert(kid(b, id, i + 1) == kid(a, id, i + 1));
        }
        assert forall|i: int| 0 <= i < us.len() - 1 implies #[trigger] joined(b, sib, h, i) by {
            assert(joined(a, id, h, i + m));
            assert(kid(b, sib, i) == kid(a, id, i + m));
            assert(kid(b, sib, i + 1) == kid(a, id, i + m + 1));
        }
        assert(kid(b, id, 0) == kid(a, id, 0));
        assert(kid(b, id, m - 1) == kid(a, id, m - 1));
        assert(kid(b, sib, 0) == kid(a, id, m));
        assert(kid(b, sib, n - m - 1) == kid(a, id, n - 1));
        assert(joined(a, id, h, m - 1));
        assert(ls.last() == ls[m - 1]);
        assert(us.last() == us[n - m - 1]);
        assert(s.last() == s[n - 1]);
    }
}

/// Hanging a new chained subtree at the end of an internal node keeps the
/// chain, provided the node's last leaf now refers to the first leaf of the
/// new subtree, whose last leaf refers to what the node's last leaf
/// referred to.
pub proof fn lemma_chain_child_added<K: Increment, V: Copy>(
    a: Seq<Node<K, V>>,
    b: Seq<Node<K, V>>,
    id: int,
    lo: int,
    hi: int,
    h: nat,
    c: int,
    ns: Slot<K, V>,
)
    requires
        shaped(a, id, lo, hi, h),
        chained(a, id, h),
        a[id].t is Internal,
        a.len() < b.len(),
        forall|x: int|
            0 <= x < a.len() && x != id && x != last_leaf(a, id, h) ==> #[trigger] b[x] == a[x],
        akin(a[last_leaf(a, id, h)], b[last_leaf(a, id, h)]),
        b[id].t == a[id].t,
        b[id].values@ == a[id].values@.push(ns),
        ns.1 == Either::<V, usize>::Right(c as usize),
        a.len() <= c < b.len(),
        c <= usize::MAX,
        chained(b, c, (h - 1) as nat),
        follows(b, last_leaf(a, id, h), first_leaf(b, c, (h - 1) as nat)),
        b[last_leaf(b, c, (h - 1) as nat)].next == a[last_leaf(a, id, h)].next,
    ensures
        linked_one(a, b, id, h),
{
    let s = a[id].values@;
    let t = b[id].values@;
    let n = s.len() as int;
    let g = (h - 1) as nat;
    let p = last_leaf(a, id, h);
    lemma_end_leaves(a, id, lo, hi, h);
    assert(s.last() == s[n - 1]);
    assert(t.last() == t[n]);
    assert(kid(b, id, n) == c);
    assert(shaped(a, s[n - 1].child() as int, low(a, id, lo, n - 1), s[n - 1].rank(), g));
    lemma_end_leaves(a, s[n - 1].child() as int, low(a, id, lo, n - 1), s[n - 1].rank(), g);
    assert forall|i: int| 0 <= i < n implies chained(b, #[trigger] kid(b, id, i), g)
        && first_leaf(b, kid(b, id, i), g) == first_leaf(a, kid(a, id, i), g) && last_leaf(
        b,
        kid(b, id, i),
        g,
    ) == last_leaf(a, kid(a, id, i), g) && depth(b, kid(b, id, i), g) == depth(
        a,
        kid(a, id, i),
        g,
    ) && (i < n - 1 ==> b[last_leaf(a, kid(a, id, i), g)] == a[last_leaf(a, kid(a, id, i), g)]) by {
        assert(t[i] == s[i]);
        let d = kid(a, id, i);
        assert(s[i].child() as int == d);
        assert(shaped(a, d, low(a, id, lo, i), s[i].rank(), g));
        assert(chained(a, kid(a, id, i), g));
        assert(!owns(a, s[i].child() as int, g, id));
        lemma_end_leaves(a, d, low(a, id, lo, i), s[i].rank(), g);
        assert forall|x: int| owns(a, d, g, x) implies akin(a[x], #[trigger] b[x]) && (x
            != last_leaf(a, d, g) ==> b[x].next == a[x].next) by {
            lemma_owned_in_arena(a, d, low(a, id, lo, i), s[i].rank(), g, x);
            if i < n - 1 {
                assert(!(owns(a, s[i].child() as int, g, x) && owns(
                    a,
                    s[n - 1].child() as int,
                    g,
                    x,
                )));
            }
        }
        if i < n - 1 {
            assert(!(owns(a, s[i].child() as int, g, last_leaf(a, d, g)) && owns(
                a,
                s[n - 1].child() as int,
                g,
                last_leaf(a, d, g),
            )));
        }
        lemma_chain_frame(a, b, d, low(a, id, lo, i), s[i].rank(), g);
    }
    assert forall|i: int| 0 <= i < t.len() implies chained(b, #[trigger] kid(b, id, i), g) by {}
    assert forall|i: int| 0 <= i < t.len() - 1 implies #[trigger] joined(b, id, h, i) by {
        assert(chained(b, kid(b, id, i), g));
        if i < n - 1 {
            assert(joined(a, id, h, i));
            assert(chained(b, kid(b, id, i + 1), g));
            assert(t[i] == s[i] && t[i + 1] == s[i + 1]);
        } else {
            assert(t[n - 1] == s[n - 1]);
        }
    }
    assert(chained(b, kid(b, id, 0), g));
    assert(t[0] == s[0]);
}

/// Filing the two halves of a split child keeps the chain: the halves
/// stand one after the other where the child stood.
pub proof fn lemma_chain_filed<K: Increment, V: Copy>(
    a: Seq<Node<K, V>>,
    m: Seq<Node<K, V>>,
    b: Seq<Node<K, V>>,
    id: int,
    lo: int,
    hi: int,
    h: nat,
    j: int,
    sib: int,
    r: int,
    v: V,
    sl: Slot<K, V>,
    os: Slot<K, V>,
)
    requires
        shaped(a, id, lo, hi, h),
        chained(a, id, h),
        a[id].t is Internal,
        0 <= j < a[id].values@.len(),
        inserted_two(
            a,
            m,
            kid(a, id, j),
            sib,
            low(a, id, lo, j),
            a[id].values@[j].rank(),
            (h - 1) as nat,
            r,
            v,
        ),
        linked_two(a, m, kid(a, id, j), sib, (h - 1) as nat),
        b.len() == m.len(),
        forall|x: int| 0 <= x < m.len() && x != id ==> #[trigger] b[x] == m[x],
        b[id].t == a[id].t,
        b[id].values@ == filed(a[id].values@, j, sl, os),
        sl.1 == Either::<V, usize>::Right(kid(a, id, j) as usize),
        os.1 == Either::<V, usize>::Right(sib as usize),
        sib <= usize::MAX,
    ensures
        linked_one(a, b, id, h),
{
    let s = a[id].values@;
    let t = b[id].values@;
    let n = s.len() as int;
    let g = (h - 1) as nat;
    let c = kid(a, id, j);
    let lj = low(a, id, lo, j);
    let bnd = m[c].bound();
    assert(s[j].child() as int == c);
    assert(shaped(a, c, lj, s[j].rank(), g));
    assert(!owns(a, s[j].child() as int, g, id));
    // the children that the insertion did not touch
    assert forall|x: int|
        0 <= x < a.len() && x != id && !owns(a, kid(a, id, j), g, x) implies #[trigger] b[x]
        == a[x] by {
        assert(m[x] == a[x]);
    }
    lemma_chain_others(a, b, id, lo, hi, h, j);
    // the two halves
    assert forall|x: int| owns(m, c, g, x) implies #[trigger] b[x] == m[x] by {
        lemma_owned_in_arena(m, c, lj, bnd, g, x);
    }
    lemma_chain_frame(m, b, c, lj, bnd, g);
    assert forall|x: int| owns(m, sib, g, x) implies #[trigger] b[x] == m[x] by {
        lemma_owned_in_arena(m, sib, bnd, s[j].rank(), g, x);
    }
    lemma_chain_frame(m, b, sib, bnd, s[j].rank(), g);
    lemma_end_leaves(m, c, lj, bnd, g);
    lemma_end_leaves(m, sib, bnd, s[j].rank(), g);
    assert(b[last_leaf(m, c, g)] == m[last_leaf(m, c, g)]);
    assert(b[last_leaf(m, sib, g)] == m[last_leaf(m, sib, g)]);
    // where the children stand now
    assert(t.len() == n + 1);
    assert forall|i: int| 0 <= i < t.len() implies #[trigger] kid(b, id, i) == (if i < j {
        kid(a, id, i)
    } else if i == j {
        c
    } else if i == j + 1 {
        sib
    } else {
        kid(a, id, i - 1)
    }) by {
        if i < j {
            assert(t[i] == s[i]);
        } else if i > j + 1 {
            assert(t[i] == s[i - 1]);
        }
    }
    assert forall|i: int| 0 <= i < t.len() implies chained(b, #[trigger] kid(b, id, i), g) by {
        if i < j {
            assert(chained(b, kid(a, id, i), g));
        } else if i > j + 1 {
            assert(chained(b, kid(a, id, i - 1), g));
        }
    }
    assert forall|i: int| 0 <= i < t.len() - 1 implies #[trigger] joined(b, id, h, i) by {
        let x = kid(b, id, i);
        let y = kid(b, id, i + 1);
        if i + 1 < j {
            assert(joined(a, id, h, i));
            assert(x == kid(a, id, i) && y == kid(a, id, i + 1));
        } else if i + 1 == j {
            assert(joined(a, id, h, i));
            assert(x == kid(a, id, i) && y == c);
        } else if i == j {
            assert(x == c && y == sib);
        } else if i == j + 1 {
            assert(joined(a, id, h, j));
            assert(x == sib && y == kid(a, id, j + 1));
        } else {
            assert(joined(a, id, h, i - 1));
            assert(x == kid(a, id, i - 1) && y == kid(a, id, i));
        }
    }
    assert(chained(b, kid(b, id, 0), g));
    assert(chained(b, kid(b, id, n), g));
    assert(t.last() == t[n]);
    assert(s.last() == s[n - 1]);
    if j > 0 {
        assert(kid(b, id, 0) == kid(a, id, 0));
    }
    if j < n - 1 {
        assert(kid(b, id, n) == kid(a, id, n - 1));
    }
}

/// A node was split and the entry then stored in the lower half, which
/// kept its place in the chain: the two halves still stand one after the
/// other.
pub proof fn lemma_chain_settled_lower<K: Increment, V: Copy>(
    a: Seq<Node<K, V>>,
    m: Seq<Node<K, V>>,
    b: Seq<Node<K, V>>,
    id: int,
    sib: int,
    lo: int,
    hi: int,
    h: nat,
)
    requires
        halved(a, m, id, sib, lo, hi, h),
        linked_two(a, m, id, sib, h),
        linked_one(m, b, id, h),
        m.len() <= b.len(),
        forall|x: int| 0 <= x < m.len() && !owns(m, id, h, x) ==> #[trigger] b[x] == m[x],
    ensures
        linked_two(a, b, id, sib, h),
{
    let b0 = m[id].bound();
    assert forall|x: int| owns(m, sib, h, x) implies #[trigger] b[x] == m[x] by {
        lemma_owned_in_arena(m, sib, b0, hi, h, x);
        assert(!(owns(m, id, h, x) && owns(m, sib, h, x)));
    }
    lemma_chain_frame(m, b, sib, b0, hi, h);
    lemma_end_leaves(m, sib, b0, hi, h);
    assert(b[last_leaf(m, sib, h)] == m[last_leaf(m, sib, h)]);
}

/// A node was split and the entry then stored in the upper half, which
/// kept its place in the chain: the two halves still stand one after the
/// other.
pub proof fn lemma_chain_settled_upper<K: Increment, V: Copy>(
    a: Seq<Node<K, V>>,
    m: Seq<Node<K, V>>,
    b: Seq<Node<K, V>>,
    id: int,
    sib: int,
    lo: int,
    hi: int,
    h: nat,
)
    requires
        halved(a, m, id, sib, lo, hi, h),
        linked_two(a, m, id, sib, h),
        linked_one(m, b, sib, h),
        m.len() <= b.len(),
        forall|x: int| 0 <= x < m.len() && !owns(m, sib, h, x) ==> #[trigger] b[x] == m[x],
    ensures
        linked_two(a, b, id, sib, h),
{
    let b0 = m[id].bound();
    assert forall|x: int| owns(m, id, h, x) implies #[trigger] b[x] == m[x] by {
        lemma_owned_in_arena(m, id, lo, b0, h, x);
        assert(!(owns(m, id, h, x) && owns(m, sib, h, x)));
    }
    lemma_chain_frame(m, b, id, lo, b0, h);
    lemma_end_leaves(m, id, lo, b0, h);
    assert(b[last_leaf(m, id, h)] == m[last_leaf(m, id, h)]);
}

/// A new top node over the two halves of the old one heads a chained tree
/// that begins and ends as the old tree did and is one level deeper.
pub proof fn lemma_chain_root_grown<K: Increment, V: Copy>(
    a: Seq<Node<K, V>>,
    m: Seq<Node<K, V>>,
    b: Seq<Node<K, V>>,
    root: int,
    sib: int,
    lo: int,
    hi: int,
    h: nat,
    r: int,
    v: V,
    sl: Slot<K, V>,
    os: Slot<K, V>,
)
    requires
        inserted_two(a, m, root, sib, lo, hi, h, r, v),
        linked_two(a, m, root, sib, h),
        b.len() == m.len() + 1,
        forall|x: int|
            0 <= x < m.len() ==> akin(m[x], #[trigger] b[x]) && b[x].next == m[x].next,
        b[m.len() as int].t is Internal,
        b[m.len() as int].values@ == Seq::<Slot<K, V>>::empty().push(sl).push(os),
        sl.1 == Either::<V, usize>::Right(root as usize),
        os.1 == Either::<V, usize>::Right(sib as usize),
        sib <= usize::MAX,
    ensures
        chained(b, m.len() as int, h + 1),
        first_leaf(b, m.len() as int, h + 1) == first_leaf(a, root, h),
        b[last_leaf(b, m.len() as int, h + 1)].next == a[last_leaf(a, root, h)].next,
        depth(b, m.len() as int, h + 1) == depth(a, root, h) + 1,
{
    let nr = m.len() as int;
    let t = b[nr].values@;
    let b0 = m[root].bound();
    assert(t.len() == 2 && t[0] == sl && t[1] == os);
    assert(t.last() == t[1]);
    assert(kid(b, nr, 0) == root);
    assert(kid(b, nr, 1) == sib);
    assert forall|x: int| owns(m, root, h, x) implies akin(m[x], #[trigger] b[x]) && b[x].next
        == m[x].next by {
        lemma_owned_in_arena(m, root, lo, b0, h, x);
    }
    lemma_chain_frame(m, b, root, lo, b0, h);
    assert forall|x: int| owns(m, sib, h, x) implies akin(m[x], #[trigger] b[x]) && b[x].next
        == m[x].next by {
        lemma_owned_in_arena(m, sib, b0, hi, h, x);
    }
    lemma_chain_frame(m, b, sib, b0, hi, h);
    lemma_end_leaves(m, root, lo, b0, h);
    lemma_end_leaves(m, sib, b0, hi, h);
    assert forall|i: int| 0 <= i < t.len() implies chained(b, #[trigger] kid(b, nr, i), h) by {
        if i == 0 {
            assert(kid(b, nr, i) == root);
        } else {
            assert(kid(b, nr, i) == sib);
        }
    }
    assert forall|i: int| 0 <= i < t.len() - 1 implies #[trigger] joined(b, nr, h + 1, i) by {
        assert(i == 0);
    }
}

} // verus!
