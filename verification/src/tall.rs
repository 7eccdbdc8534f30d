//! The height of a subtree: the longest way down from its top node. The
//! steps of an insertion never make a subtree taller, and the way to the
//! first leaf stays a longest one.

use vstd::prelude::*;
use crate::chain::akin;
use crate::increment::Increment;
use crate::layout::{
    depth, first_leaf, halved, inserted_two, kid, lemma_owned_in_arena, low, owns, shaped,
};
use crate::mend::{filed, refiled};
use crate::node::Node;
use crate::slot::{Either, Slot};

verus! {

/// The number of levels on the longest way from `id` down to a leaf.
pub open spec fn height<K: Increment, V: Copy>(a: Seq<Node<K, V>>, id: int, h: nat) -> nat
    decreases h, a[id].values@.len() + 1,
{
    if 0 <= id < a.len() && a[id].t is Internal && h > 0 {
        1 + tallest(a, id, h, a[id].values@.len())
    } else {
        1
    }
}

/// The greatest height among the first `n` children of `id`.
pub open spec fn tallest<K: Increment, V: Copy>(
    a: Seq<Node<K, V>>,
    id: int,
    h: nat,
    n: nat,
) -> nat
    decreases h, n,
{
    if n == 0 || h == 0 {
        0
    } else {
        let before = tallest(a, id, h, (n - 1) as nat);
        let last = height(a, kid(a, id, n - 1), (h - 1) as nat);
        if before >= last {
            before
        } else {
            last
        }
    }
}

/// The way from `id` down to the first leaf is a longest one, and so it is
/// from each node on that way.
pub open spec fn spine<K: Increment, V: Copy>(a: Seq<Node<K, V>>, id: int, h: nat) -> bool
    decreases h,
{
    &&& height(a, id, h) == depth(a, id, h)
    &&& (0 <= id < a.len() && a[id].t is Internal && h > 0 && a[id].values@.len() > 0 ==> spine(
        a,
        kid(a, id, 0),
        (h - 1) as nat,
    ))
}

/// None of the first `n` children is taller than the tallest of them, and
/// a bound on each of them bounds the tallest.
pub proof fn lemma_tallest<K: Increment, V: Copy>(
    a: Seq<Node<K, V>>,
    id: int,
    h: nat,
    n: nat,
    bound: nat,
)
    requires
        h > 0,
    ensures
        forall|j: int|
            0 <= j < n ==> height(a, #[trigger] kid(a, id, j), (h - 1) as nat) <= tallest(
                a,
                id,
                h,
                n,
            ),
        (forall|j: int|
            0 <= j < n ==> height(a, #[trigger] kid(a, id, j), (h - 1) as nat) <= bound)
            ==> tallest(a, id, h, n) <= bound,
        n > 0 ==> tallest(a, id, h, n) >= 1,
    decreases n,
{
    if n > 0 {
        lemma_tallest(a, id, h, (n - 1) as nat, bound);
        assert(height(a, kid(a, id, n - 1), (h - 1) as nat) >= 1);
    }
}

/// The tallest of the first `n` children is the same in two arenas in
/// which these children are the same nodes with the same heights.
pub proof fn lemma_tallest_same<K: Increment, V: Copy>(
    a: Seq<Node<K, V>>,
    b: Seq<Node<K, V>>,
    id: int,
    nid: int,
    h: nat,
    n: nat,
)
    requires
        h > 0,
        forall|j: int|
            0 <= j < n ==> #[trigger] kid(b, nid, j) == kid(a, id, j) && height(
                b,
                kid(a, id, j),
                (h - 1) as nat,
            ) == height(a, kid(a, id, j), (h - 1) as nat),
    ensures
        tallest(b, nid, h, n) == tallest(a, id, h, n),
    decreases n,
{
    if n > 0 {
        lemma_tallest_same(a, b, id, nid, h, (n - 1) as nat);
        assert(kid(b, nid, n - 1) == kid(a, id, n - 1));
    }
}

/// A subtree keeps its height, and its way to the first leaf stays a
/// longest one, when its nodes keep their place in the skeleton.
pub proof fn lemma_tall_frame<K: Increment, V: Copy>(
    a: Seq<Node<K, V>>,
    b: Seq<Node<K, V>>,
    id: int,
    lo: int,
    hi: int,
    h: nat,
)
    requires
        shaped(a, id, lo, hi, h),
        a.len() <= b.len(),
        forall|x: int| owns(a, id, h, x) ==> akin(a[x], #[trigger] b[x]),
    ensures
        height(b, id, h) == height(a, id, h),
        depth(b, id, h) == depth(a, id, h),
        spine(a, id, h) ==> spine(b, id, h),
    decreases h,
{
    assert(owns(a, id, h, id));
    assert(akin(a[id], b[id]));
    if a[id].t is Internal {
        let s = a[id].values@;
        let n = s.len();
        let g = (h - 1) as nat;
        assert forall|j: int| 0 <= j < n implies #[trigger] kid(b, id, j) == kid(a, id, j)
            && height(b, kid(a, id, j), g) == height(a, kid(a, id, j), g) && depth(
            b,
            kid(a, id, j),
            g,
        ) == depth(a, kid(a, id, j), g) && (spine(a, kid(a, id, j), g) ==> spine(
            b,
            kid(a, id, j),
            g,
        )) by {
            let c = kid(a, id, j);
            assert(s[j].child() as int == c);
            assert(shaped(a, c, low(a, id, lo, j), s[j].rank(), g));
            assert forall|x: int| owns(a, c, g, x) implies akin(a[x], #[trigger] b[x]) by {
                assert(owns(a, id, h, x));
            }
            lemma_tall_frame(a, b, c, low(a, id, lo, j), s[j].rank(), g);
        }
        lemma_tallest_same(a, b, id, id, h, n);
        assert(kid(b, id, 0) == kid(a, id, 0));
    }
}

/// In arena `b` the subtree under `id` is no taller than it was in `a`,
/// and its way to the first leaf is a longest one if it was.
pub open spec fn lowered_one<K: Increment, V: Copy>(
    a: Seq<Node<K, V>>,
    b: Seq<Node<K, V>>,
    id: int,
    h: nat,
) -> bool {
    &&& height(b, id, h) <= height(a, id, h)
    &&& (spine(a, id, h) ==> spine(b, id, h))
}

/// In arena `b` neither of the subtrees under `id` and `sib` is taller
/// than the subtree under `id` was in `a`, and the way from `id` to the
/// first leaf is a longest one if it was.
pub open spec fn lowered_two<K: Increment, V: Copy>(
    a: Seq<Node<K, V>>,
    b: Seq<Node<K, V>>,
    id: int,
    sib: int,
    h: nat,
) -> bool {
    &&& height(b, id, h) <= height(a, id, h)
    &&& height(b, sib, h) <= height(a, id, h)
    &&& (spine(a, id, h) ==> spine(b, id, h))
}

/// The children of an internal node keep their heights when the arena
/// changes, for the skeleton, at that node only.
pub proof fn lemma_tall_kids<K: Increment, V: Copy>(
    a: Seq<Node<K, V>>,
    b: Seq<Node<K, V>>,
    id: int,
    lo: int,
    hi: int,
    h: nat,
)
    requires
        shaped(a, id, lo, hi, h),
        a[id].t is Internal,
        a.len() <= b.len(),
        forall|x: int| 0 <= x < a.len() && x != id ==> akin(a[x], #[trigger] b[x]),
    ensures
        forall|j: int|
            0 <= j < a[id].values@.len() ==> height(b, #[trigger] kid(a, id, j), (h - 1) as nat)
                == height(a, kid(a, id, j), (h - 1) as nat) && depth(
                b,
                kid(a, id, j),
                (h - 1) as nat,
            ) == depth(a, kid(a, id, j), (h - 1) as nat) && (spine(
                a,
                kid(a, id, j),
                (h - 1) as nat,
            ) ==> spine(b, kid(a, id, j), (h - 1) as nat)),
{
    let s = a[id].values@;
    let g = (h - 1) as nat;
    assert forall|j: int| 0 <= j < s.len() implies height(b, #[trigger] kid(a, id, j), g)
        == height(a, kid(a, id, j), g) && depth(b, kid(a, id, j), g) == depth(
        a,
        kid(a, id, j),
        g,
    ) && (spine(a, kid(a, id, j), g) ==> spine(b, kid(a, id, j), g)) by {
        let c = kid(a, id, j);
        assert(s[j].child() as int == c);
        assert(shaped(a, c, low(a, id, lo, j), s[j].rank(), g));
        assert(!owns(a, s[j].child() as int, g, id));
        assert forall|x: int| owns(a, c, g, x) implies akin(a[x], #[trigger] b[x]) by {
            lemma_owned_in_arena(a, c, low(a, id, lo, j), s[j].rank(), g, x);
        }
        lemma_tall_frame(a, b, c, low(a, id, lo, j), s[j].rank(), g);
    }
}

/// An internal node whose way to the first leaf is a longest one is one
/// level taller than its first child, which is as tall as any.
pub proof fn lemma_spine_top<K: Increment, V: Copy>(a: Seq<Node<K, V>>, id: int, h: nat)
    requires
        0 <= id < a.len(),
        a[id].t is Internal,
        h > 0,
        a[id].values@.len() > 0,
        spine(a, id, h),
    ensures
        height(a, id, h) == 1 + height(a, kid(a, id, 0), (h - 1) as nat),
        tallest(a, id, h, a[id].values@.len()) == height(a, kid(a, id, 0), (h - 1) as nat),
        spine(a, kid(a, id, 0), (h - 1) as nat),
{
    let g = (h - 1) as nat;
    assert(spine(a, kid(a, id, 0), g));
    assert(height(a, kid(a, id, 0), g) == depth(a, kid(a, id, 0), g));
    assert(depth(a, id, h) == 1 + depth(a, kid(a, id, 0), g));
}

/// An internal node none of whose children is taller than the first one,
/// which has its longest way at its left, has its longest way at its left.
pub proof fn lemma_spine_made<K: Increment, V: Copy>(a: Seq<Node<K, V>>, id: int, h: nat)
    requires
        0 <= id < a.len(),
        a[id].t is Internal,
        h > 0,
        a[id].values@.len() > 0,
        spine(a, kid(a, id, 0), (h - 1) as nat),
        tallest(a, id, h, a[id].values@.len()) <= height(a, kid(a, id, 0), (h - 1) as nat),
    ensures
        spine(a, id, h),
        height(a, id, h) == 1 + height(a, kid(a, id, 0), (h - 1) as nat),
{
    lemma_tallest(a, id, h, a[id].values@.len(), 0);
}

/// Neither half of a split node is taller than the node was, and the lower
/// half keeps the longest way at its left.
pub proof fn lemma_tall_split<K: Increment, V: Copy>(
    a: Seq<Node<K, V>>,
    b: Seq<Node<K, V>>,
    id: int,
    lo: int,
    hi: int,
    h: nat,
)
    requires
        shaped(a, id, lo, hi, h),
        a[id].values@.len() >= 2,
        b.len() == a.len() + 1,
        forall|x: int| 0 <= x < a.len() && x != id ==> #[trigger] b[x] == a[x],
        b[id].t == a[id].t,
        b[a.len() as int].t == a[id].t,
        b[id].values@ == a[id].values@.subrange(0, a[id].values@.len() as int / 2),
        b[a.len() as int].values@ == a[id].values@.subrange(
            a[id].values@.len() as int / 2,
            a[id].values@.len() as int,
        ),
    ensures
        lowered_two(a, b, id, a.len() as int, h),
{
    let s = a[id].values@;
    let n = s.len();
    let m = (n / 2) as nat;
    let sib = a.len() as int;
    let ls = b[id].values@;
    let us = b[sib].values@;
    if a[id].t is Internal {
        let g = (h - 1) as nat;
        let top = tallest(a, id, h, n);
        lemma_tall_kids(a, b, id, lo, hi, h);
        lemma_tallest(a, id, h, n, 0);
        assert forall|j: int| 0 <= j < m implies #[trigger] kid(b, id, j) == kid(a, id, j) by {
            assert(ls[j] == s[j]);
        }
        assert forall|j: int| 0 <= j < n - m implies #[trigger] kid(b, sib, j) == kid(
            a,
            id,
            j + m,
        ) by {
            assert(us[j] == s[j + m]);
        }
        assert forall|j: int| 0 <= j < m implies height(b, #[trigger] kid(b, id, j), g)
            <= top by {
            assert(kid(b, id, j) == kid(a, id, j));
            assert(height(b, kid(a, id, j), g) == height(a, kid(a, id, j), g));
        }
        lemma_tallest(b, id, h, m, top);
        assert forall|j: int| 0 <= j < n - m implies height(b, #[trigger] kid(b, sib, j), g)
            <= top by {
            assert(kid(b, sib, j) == kid(a, id, j + m));
            assert(height(b, kid(a, id, j + m), g) == height(a, kid(a, id, j + m), g));
        }
        lemma_tallest(b, sib, h, (n - m) as nat, top);
        if spine(a, id, h) {
            lemma_spine_top(a, id, h);
            assert(kid(b, id, 0) == kid(a, id, 0));
            assert(height(b, kid(a, id, 0), g) == height(a, kid(a, id, 0), g));
            lemma_spine_made(b, id, h);
        }
    }
}

/// A new child that is no taller than the first child leaves the node as
/// tall as it was.
pub proof fn lemma_tall_child_added<K: Increment, V: Copy>(
    a: Seq<Node<K, V>>,
    b: Seq<Node<K, V>>,
    id: int,
    lo: int,
    hi: int,
    h: nat,
    c: int,
    ns: Slot<K, V>,
)
    requires
        shaped(a, id, lo, hi, h),
        a[id].t is Internal,
        a.len() < b.len(),
        forall|x: int| 0 <= x < a.len() && x != id ==> akin(a[x], #[trigger] b[x]),
        b[id].t == a[id].t,
        b[id].values@ == a[id].values@.push(ns),
        ns.1 == Either::<V, usize>::Right(c as usize),
        a.len() <= c < b.len(),
        c <= usize::MAX,
        height(b, c, (h - 1) as nat) <= height(a, kid(a, id, 0), (h - 1) as nat),
    ensures
        lowered_one(a, b, id, h),
{
    let s = a[id].values@;
    let t = b[id].values@;
    let n = s.len();
    let g = (h - 1) as nat;
    let top = tallest(a, id, h, n);
    lemma_tall_kids(a, b, id, lo, hi, h);
    lemma_tallest(a, id, h, n, 0);
    assert forall|j: int| 0 <= j < n implies #[trigger] kid(b, id, j) == kid(a, id, j) by {
        assert(t[j] == s[j]);
    }
    assert(kid(b, id, n as int) == c);
    assert forall|j: int| 0 <= j < n + 1 implies height(b, #[trigger] kid(b, id, j), g)
        <= top by {
        if j < n {
            assert(kid(b, id, j) == kid(a, id, j));
            assert(height(b, kid(a, id, j), g) == height(a, kid(a, id, j), g));
        } else {
            assert(height(a, kid(a, id, 0), g) <= top);
        }
    }
    lemma_tallest(b, id, h, (n + 1) as nat, top);
    if spine(a, id, h) {
        lemma_spine_top(a, id, h);
        assert(kid(b, id, 0) == kid(a, id, 0));
        assert(height(b, kid(a, id, 0), g) == height(a, kid(a, id, 0), g));
        lemma_spine_made(b, id, h);
    }
}

/// A node is no taller after an insertion under child `j` that did not
/// split the child nor make it taller.
pub proof fn lemma_tall_passed_down<K: Increment, V: Copy>(
    a: Seq<Node<K, V>>,
    b: Seq<Node<K, V>>,
    id: int,
    lo: int,
    hi: int,
    h: nat,
    j: int,
)
    requires
        shaped(a, id, lo, hi, h),
        a[id].t is Internal,
        0 <= j < a[id].values@.len(),
        a.len() <= b.len(),
        forall|x: int|
            0 <= x < a.len() && !owns(a, kid(a, id, j), (h - 1) as nat, x) ==> #[trigger] b[x]
                == a[x],
        lowered_one(a, b, kid(a, id, j), (h - 1) as nat),
        depth(b, kid(a, id, j), (h - 1) as nat) == depth(a, kid(a, id, j), (h - 1) as nat),
    ensures
        lowered_one(a, b, id, h),
{
    let s = a[id].values@;
    let n = s.len();
    let g = (h - 1) as nat;
    let c = kid(a, id, j);
    let top = tallest(a, id, h, n);
    assert(!owns(a, s[j].child() as int, g, id));
    assert(b[id] == a[id]);
    lemma_tallest(a, id, h, n, 0);
    assert forall|i: int| 0 <= i < n implies height(b, #[trigger] kid(b, id, i), g) <= height(
        a,
        kid(a, id, i),
        g,
    ) && (i != j ==> height(b, kid(a, id, i), g) == height(a, kid(a, id, i), g) && (spine(
        a,
        kid(a, id, i),
        g,
    ) ==> spine(b, kid(a, id, i), g))) && height(a, kid(a, id, i), g) <= top by {
        assert(kid(b, id, i) == kid(a, id, i));
        if i != j {
            let d = kid(a, id, i);
            assert(s[i].child() as int == d);
            assert(shaped(a, d, low(a, id, lo, i), s[i].rank(), g));
            assert forall|x: int| owns(a, d, g, x) implies akin(a[x], #[trigger] b[x]) by {
                lemma_owned_in_arena(a, d, low(a, id, lo, i), s[i].rank(), g, x);
                if i < j {
                    assert(!(owns(a, s[i].child() as int, g, x) && owns(
                        a,
                        s[j].child() as int,
                        g,
                        x,
                    )));
                } else {
                    assert(!(owns(a, s[j].child() as int, g, x) && owns(
                        a,
                        s[i].child() as int,
                        g,
                        x,
                    )));
                }
            }
            lemma_tall_frame(a, b, d, low(a, id, lo, i), s[i].rank(), g);
        }
    }
    lemma_tallest(b, id, h, n, top);
    if spine(a, id, h) {
        lemma_spine_top(a, id, h);
        assert(kid(b, id, 0) == kid(a, id, 0));
        assert(spine(b, kid(a, id, 0), g));
        assert(height(b, kid(a, id, 0), g) == height(a, kid(a, id, 0), g));
        lemma_spine_made(b, id, h);
    }
}

/// A node is no taller after the two halves of a split child, neither of
/// them taller than the child was, were filed.
pub proof fn lemma_tall_filed<K: Increment, V: Copy>(
    a: Seq<Node<K, V>>,
    m: Seq<Node<K, V>>,
    b: Seq<Node<K, V>>,
    id: int,
    lo: int,
    hi: int,
    h: nat,
    j: int,
    sib: int,
    r: int,
    v: V,
    sl: Slot<K, V>,
    os: Slot<K, V>,
)
    requires
        refiled(a, m, b, id, lo, hi, h, j, sib, r, v, sl, os),
        lowered_two(a, m, kid(a, id, j), sib, (h - 1) as nat),
        depth(m, kid(a, id, j), (h - 1) as nat) == depth(a, kid(a, id, j), (h - 1) as nat),
    ensures
        lowered_one(a, b, id, h),
{
    let s = a[id].values@;
    let t = b[id].values@;
    let n = s.len();
    let g = (h - 1) as nat;
    let c = kid(a, id, j);
    let lj = low(a, id, lo, j);
    let bnd = m[c].bound();
    let top = tallest(a, id, h, n);
    assert(s[j].child() as int == c);
    assert(shaped(a, c, lj, s[j].rank(), g));
    assert(!owns(a, s[j].child() as int, g, id));
    lemma_tallest(a, id, h, n, 0);
    // the untouched children
    assert forall|i: int| 0 <= i < n && i != j implies height(b, #[trigger] kid(a, id, i), g)
        == height(a, kid(a, id, i), g) && (spine(a, kid(a, id, i), g) ==> spine(
        b,
        kid(a, id, i),
        g,
    )) by {
        let d = kid(a, id, i);
        assert(s[i].child() as int == d);
        assert(shaped(a, d, low(a, id, lo, i), s[i].rank(), g));
        assert(!owns(a, s[i].child() as int, g, id));
        assert forall|x: int| owns(a, d, g, x) implies akin(a[x], #[trigger] b[x]) by {
            lemma_owned_in_arena(a, d, low(a, id, lo, i), s[i].rank(), g, x);
            if i < j {
                assert(!(owns(a, s[i].child() as int, g, x) && owns(a, s[j].child() as int, g, x)));
            } else {
                assert(!(owns(a, s[j].child() as int, g, x) && owns(a, s[i].child() as int, g, x)));
            }
            assert(m[x] == a[x]);
            assert(b[x] == m[x]);
        }
        lemma_tall_frame(a, b, d, low(a, id, lo, i), s[i].rank(), g);
    }
    // the two halves
    assert forall|x: int| owns(m, c, g, x) implies akin(m[x], #[trigger] b[x]) by {
        lemma_owned_in_arena(m, c, lj, bnd, g, x);
    }
    lemma_tall_frame(m, b, c, lj, bnd, g);
    assert forall|x: int| owns(m, sib, g, x) implies akin(m[x], #[trigger] b[x]) by {
        lemma_owned_in_arena(m, sib, bnd, s[j].rank(), g, x);
    }
    lemma_tall_frame(m, b, sib, bnd, s[j].rank(), g);
    // where the children stand now
    assert(t.len() == n + 1);
    assert forall|i: int| 0 <= i < n + 1 implies height(b, #[trigger] kid(b, id, i), g)
        <= top by {
        if i < j {
            assert(t[i] == s[i]);
            assert(kid(b, id, i) == kid(a, id, i));
            assert(height(a, kid(a, id, i), g) <= top);
        } else if i == j {
            assert(kid(b, id, i) == c);
            assert(height(a, kid(a, id, j), g) <= top);
        } else if i == j + 1 {
            assert(kid(b, id, i) == sib);
            assert(height(a, kid(a, id, j), g) <= top);
        } else {
            assert(t[i] == s[i - 1]);
            assert(kid(b, id, i) == kid(a, id, i - 1));
            assert(height(a, kid(a, id, i - 1), g) <= top);
        }
    }
    lemma_tallest(b, id, h, (n + 1) as nat, top);
    if spine(a, id, h) {
        lemma_spine_top(a, id, h);
        if j == 0 {
            assert(kid(b, id, 0) == c);
        } else {
            assert(t[0] == s[0]);
            assert(kid(b, id, 0) == kid(a, id, 0));
        }
        assert(spine(b, kid(b, id, 0), g));
        assert(height(b, kid(b, id, 0), g) == height(a, kid(a, id, 0), g));
        lemma_spine_made(b, id, h);
    }
}

/// A node was split and the entry then stored in the lower half without
/// making it taller: neither half is taller than the node was.
pub proof fn lemma_tall_settled_lower<K: Increment, V: Copy>(
    a: Seq<Node<K, V>>,
    m: Seq<Node<K, V>>,
    b: Seq<Node<K, V>>,
    id: int,
    sib: int,
    lo: int,
    hi: int,
    h: nat,
)
    requires
        halved(a, m, id, sib, lo, hi, h),
        lowered_two(a, m, id, sib, h),
        lowered_one(m, b, id, h),
        m.len() <= b.len(),
        forall|x: int| 0 <= x < m.len() && !owns(m, id, h, x) ==> #[trigger] b[x] == m[x],
    ensures
        lowered_two(a, b, id, sib, h),
{
    let b0 = m[id].bound();
    assert forall|x: int| owns(m, sib, h, x) implies akin(m[x], #[trigger] b[x]) by {
        lemma_owned_in_arena(m, sib, b0, hi, h, x);
        assert(!(owns(m, id, h, x) && owns(m, sib, h, x)));
    }
    lemma_tall_frame(m, b, sib, b0, hi, h);
}

/// A node was split and the entry then stored in the upper half without
/// making it taller: neither half is taller than the node was.
pub proof fn lemma_tall_settled_upper<K: Increment, V: Copy>(
    a: Seq<Node<K, V>>,
    m: Seq<Node<K, V>>,
    b: Seq<Node<K, V>>,
    id: int,
    sib: int,
    lo: int,
    hi: int,
    h: nat,
)
    requires
        halved(a, m, id, sib, lo, hi, h),
        lowered_two(a, m, id, sib, h),
        lowered_one(m, b, sib, h),
        m.len() <= b.len(),
        forall|x: int| 0 <= x < m.len() && !owns(m, sib, h, x) ==> #[trigger] b[x] == m[x],
    ensures
        lowered_two(a, b, id, sib, h),
{
    let b0 = m[id].bound();
    assert forall|x: int| owns(m, id, h, x) implies akin(m[x], #[trigger] b[x]) by {
        lemma_owned_in_arena(m, id, lo, b0, h, x);
        assert(!(owns(m, id, h, x) && owns(m, sib, h, x)));
    }
    lemma_tall_frame(m, b, id, lo, b0, h);
}

/// A new top node over the two halves of the old one is one level taller
/// than the old one was, and has its longest way at its left.
pub proof fn lemma_tall_root_grown<K: Increment, V: Copy>(
    a: Seq<Node<K, V>>,
    m: Seq<Node<K, V>>,
    b: Seq<Node<K, V>>,
    root: int,
    sib: int,
    lo: int,
    hi: int,
    h: nat,
    r: int,
    v: V,
    sl: Slot<K, V>,
    os: Slot<K, V>,
)
    requires
        inserted_two(a, m, root, sib, lo, hi, h, r, v),
        lowered_two(a, m, root, sib, h),
        spine(a, root, h),
        b.len() == m.len() + 1,
        forall|x: int| 0 <= x < m.len() ==> akin(m[x], #[trigger] b[x]),
        b[m.len() as int].t is Internal,
        b[m.len() as int].values@ == Seq::<Slot<K, V>>::empty().push(sl).push(os),
        sl.1 == Either::<V, usize>::Right(root as usize),
        os.1 == Either::<V, usize>::Right(sib as usize),
        sib <= usize::MAX,
        depth(m, root, h) == depth(a, root, h),
    ensures
        spine(b, m.len() as int, h + 1),
        height(b, m.len() as int, h + 1) == height(a, root, h) + 1,
{
    let nr = m.len() as int;
    let t = b[nr].values@;
    let b0 = m[root].bound();
    assert(t.len() == 2 && t[0] == sl && t[1] == os);
    assert(kid(b, nr, 0) == root);
    assert(kid(b, nr, 1) == sib);
    assert forall|x: int| owns(m, root, h, x) implies akin(m[x], #[trigger] b[x]) by {
        lemma_owned_in_arena(m, root, lo, b0, h, x);
    }
    lemma_tall_frame(m, b, root, lo, b0, h);
    assert forall|x: int| owns(m, sib, h, x) implies akin(m[x], #[trigger] b[x]) by {
        lemma_owned_in_arena(m, sib, b0, hi, h, x);
    }
    lemma_tall_frame(m, b, sib, b0, hi, h);
    assert(spine(b, root, h));
    assert(height(b, root, h) == depth(b, root, h));
    assert(height(b, root, h) == height(a, root, h));
    let top = height(b, root, h);
    assert forall|j: int| 0 <= j < 2 implies height(b, #[trigger] kid(b, nr, j), h) <= top by {
        if j == 0 {
            assert(kid(b, nr, j) == root);
        } else {
            assert(kid(b, nr, j) == sib);
        }
    }
    lemma_tallest(b, nr, h + 1, 2, top);
    lemma_spine_made(b, nr, h + 1);
}

/// A child of `id` that reaches node `x`.
pub open spec fn pick<K: Increment, V: Copy>(a: Seq<Node<K, V>>, id: int, h: nat, x: int) -> int {
    choose|j: int|
        0 <= j < a[id].values@.len() && owns(a, #[trigger] kid(a, id, j), (h - 1) as nat, x)
}

/// The number of levels from `id` down to the node `x` that it owns.
pub open spec fn far<K: Increment, V: Copy>(a: Seq<Node<K, V>>, id: int, h: nat, x: int) -> nat
    decreases h,
{
    if x != id && 0 <= id < a.len() && a[id].t is Internal && h > 0 {
        1 + far(a, kid(a, id, pick(a, id, h, x)), (h - 1) as nat, x)
    } else {
        1
    }
}

/// A node that lies under child `j` lies one level farther from the parent
/// than from that child.
pub proof fn lemma_far_step<K: Increment, V: Copy>(
    a: Seq<Node<K, V>>,
    id: int,
    lo: int,
    hi: int,
    h: nat,
    j: int,
    x: int,
)
    requires
        shaped(a, id, lo, hi, h),
        a[id].t is Internal,
        0 <= j < a[id].values@.len(),
        owns(a, kid(a, id, j), (h - 1) as nat, x),
    ensures
        x != id,
        pick(a, id, h, x) == j,
        far(a, id, h, x) == 1 + far(a, kid(a, id, j), (h - 1) as nat, x),
{
    let s = a[id].values@;
    let g = (h - 1) as nat;
    assert(!owns(a, s[j].child() as int, g, id));
    let p = pick(a, id, h, x);
    assert(0 <= p < s.len() && owns(a, kid(a, id, p), g, x));
    if p < j {
        assert(!(owns(a, s[p].child() as int, g, x) && owns(a, s[j].child() as int, g, x)));
    }
    if j < p {
        assert(!(owns(a, s[j].child() as int, g, x) && owns(a, s[p].child() as int, g, x)));
    }
}

/// No node that a subtree owns lies farther down than the subtree is tall.
pub proof fn lemma_far<K: Increment, V: Copy>(
    a: Seq<Node<K, V>>,
    id: int,
    lo: int,
    hi: int,
    h: nat,
    x: int,
)
    requires
        shaped(a, id, lo, hi, h),
        owns(a, id, h, x),
    ensures
        1 <= far(a, id, h, x) <= height(a, id, h),
    decreases h,
{
    if x != id {
        let s = a[id].values@;
        let g = (h - 1) as nat;
        let j = choose|j: int| 0 <= j < s.len() && owns(a, (#[trigger] s[j]).child() as int, g, x);
        assert(owns(a, kid(a, id, j), g, x));
        lemma_far_step(a, id, lo, hi, h, j, x);
        assert(shaped(a, s[j].child() as int, low(a, id, lo, j), s[j].rank(), g));
        lemma_far(a, kid(a, id, j), low(a, id, lo, j), s[j].rank(), g, x);
        lemma_tallest(a, id, h, s.len(), 0);
    }
}

/// A child of an internal node that a subtree owns is owned by the subtree
/// and lies one level farther down than the node.
pub proof fn lemma_far_child<K: Increment, V: Copy>(
    a: Seq<Node<K, V>>,
    id: int,
    lo: int,
    hi: int,
    h: nat,
    x: int,
    i: int,
)
    requires
        shaped(a, id, lo, hi, h),
        owns(a, id, h, x),
        0 <= x < a.len(),
        a[x].t is Internal,
        0 <= i < a[x].values@.len(),
    ensures
        owns(a, id, h, kid(a, x, i)),
        far(a, id, h, kid(a, x, i)) == far(a, id, h, x) + 1,
    decreases h,
{
    let s = a[id].values@;
    let g = (h - 1) as nat;
    let c = kid(a, x, i);
    if x == id {
        assert(owns(a, kid(a, id, i), g, c));
        assert(owns(a, s[i].child() as int, g, c));
        lemma_far_step(a, id, lo, hi, h, i, c);
    } else {
        let j = choose|j: int| 0 <= j < s.len() && owns(a, (#[trigger] s[j]).child() as int, g, x);
        assert(owns(a, kid(a, id, j), g, x));
        assert(shaped(a, s[j].child() as int, low(a, id, lo, j), s[j].rank(), g));
        lemma_far_child(a, kid(a, id, j), low(a, id, lo, j), s[j].rank(), g, x, i);
        assert(owns(a, s[j].child() as int, g, c));
        lemma_far_step(a, id, lo, hi, h, j, x);
        lemma_far_step(a, id, lo, hi, h, j, c);
    }
}

/// The first leaf lies as far down as the way to it is deep.
pub proof fn lemma_far_first<K: Increment, V: Copy>(
    a: Seq<Node<K, V>>,
    id: int,
    lo: int,
    hi: int,
    h: nat,
)
    requires
        shaped(a, id, lo, hi, h),
    ensures
        owns(a, id, h, first_leaf(a, id, h)),
        far(a, id, h, first_leaf(a, id, h)) == depth(a, id, h),
    decreases h,
{
    if a[id].t is Internal {
        let s = a[id].values@;
        let g = (h - 1) as nat;
        assert(shaped(a, s[0].child() as int, low(a, id, lo, 0), s[0].rank(), g));
        lemma_far_first(a, kid(a, id, 0), lo, s[0].rank(), g);
        assert(owns(a, s[0].child() as int, g, first_leaf(a, id, h)));
        lemma_far_step(a, id, lo, hi, h, 0, first_leaf(a, id, h));
    }
}

} // verus!
