//! The leaves of a tree in key order, what they hold together, and why a
//! walk along the chain reads exactly that.

use vstd::prelude::*;
use crate::chain::{chained, follows, joined};
use crate::increment::Increment;
use crate::layout::{first_leaf, kid, last_leaf, lookup, low, owns, shaped};
use crate::node::Node;
use crate::run::{
    above, rising, lemma_above, lemma_above_unique, lemma_stored_is, lemma_stored_some,
};

verus! {

/// The leaves under `id`, from left to right.
pub open spec fn leaves<K: Increment, V: Copy>(a: Seq<Node<K, V>>, id: int, h: nat) -> Seq<int>
    decreases h, a[id].values@.len() + 1,
{
    if 0 <= id < a.len() && a[id].t is Internal && h > 0 {
        leaves_upto(a, id, h, a[id].values@.len())
    } else {
        seq![id]
    }
}

/// The leaves under the first `n` children of `id`, from left to right.
pub open spec fn leaves_upto<K: Increment, V: Copy>(
    a: Seq<Node<K, V>>,
    id: int,
    h: nat,
    n: nat,
) -> Seq<int>
    decreases h, n,
{
    if n == 0 || h == 0 {
        Seq::empty()
    } else {
        leaves_upto(a, id, h, (n - 1) as nat) + leaves(a, kid(a, id, n - 1), (h - 1) as nat)
    }
}

/// The keys of a leaf with their values, in the leaf's order.
pub open spec fn pairs<K: Increment, V: Copy>(n: Node<K, V>) -> Seq<(K, V)> {
    Seq::new(n.values@.len(), |i: int| (n.values@[i].0, n.values@[i].value()))
}

/// What the leaves `ls` hold, one leaf after the other.
pub open spec fn gather<K: Increment, V: Copy>(a: Seq<Node<K, V>>, ls: Seq<int>) -> Seq<(K, V)>
    decreases ls.len(),
{
    if ls.len() == 0 {
        Seq::empty()
    } else {
        gather(a, ls.drop_last()) + pairs(a[ls.last()])
    }
}

/// What one run of leaves holds after another is what the first holds
/// followed by what the second holds.
pub proof fn lemma_gather_add<K: Increment, V: Copy>(
    a: Seq<Node<K, V>>,
    xs: Seq<int>,
    ys: Seq<int>,
)
    ensures
        gather(a, xs + ys) == gather(a, xs) + gather(a, ys),
    decreases ys.len(),
{
    if ys.len() == 0 {
        assert(xs + ys =~= xs);
        assert(gather(a, xs) + gather(a, ys) =~= gather(a, xs));
    } else {
        lemma_gather_add(a, xs, ys.drop_last());
        assert((xs + ys).drop_last() =~= xs + ys.drop_last());
        assert((xs + ys).last() == ys.last());
        assert(gather(a, xs + ys) =~= gather(a, xs) + gather(a, ys));
    }
}

/// The pairs `c` are what a search finds under `id` among the ranks from
/// `lo` up to, but not including, `hi`: they ascend within that range, each
/// is found, and whatever is found in the range among them.
pub open spec fn reads<K: Increment, V: Copy>(
    a: Seq<Node<K, V>>,
    id: int,
    h: nat,
    lo: int,
    hi: int,
    c: Seq<(K, V)>,
) -> bool {
    &&& rising(c)
    &&& forall|i: int| 0 <= i < c.len() ==> lo <= (#[trigger] c[i]).0.rank() < hi
    &&& forall|i: int|
        0 <= i < c.len() ==> lookup(a, id, h, (#[trigger] c[i]).0.rank()) == Some(c[i].1)
    &&& forall|q: int|
        lo <= q < hi && (#[trigger] lookup(a, id, h, q)) is Some ==> exists|i: int|
            0 <= i < c.len() && (#[trigger] c[i]).0.rank() == q
}

/// What the leaves under `id` hold, in order.
pub open spec fn content<K: Increment, V: Copy>(a: Seq<Node<K, V>>, id: int, h: nat) -> Seq<
    (K, V),
> {
    gather(a, leaves(a, id, h))
}

/// A rank between the separator before child `j` and the separator of
/// child `j` is routed to that child.
pub proof fn lemma_routed<K: Increment, V: Copy>(
    a: Seq<Node<K, V>>,
    id: int,
    lo: int,
    hi: int,
    h: nat,
    j: int,
    q: int,
)
    requires
        shaped(a, id, lo, hi, h),
        a[id].t is Internal,
        0 <= j < a[id].values@.len(),
        low(a, id, lo, j) <= q < a[id].values@[j].rank(),
    ensures
        above(a[id].values@, q) == j,
        lookup(a, id, h, q) == lookup(a, kid(a, id, j), (h - 1) as nat, q),
{
    let s = a[id].values@;
    assert forall|i: int| 0 <= i < j implies (#[trigger] s[i]).rank() <= q by {
        assert(s[i].rank() <= s[j - 1].rank());
    }
    assert forall|i: int| j <= i < s.len() implies (#[trigger] s[i]).rank() > q by {
        assert(s[j].rank() <= s[i].rank());
    }
    lemma_above_unique(s, q, j);
}

/// The leaves under a node hold, in ascending order, exactly what a search
/// finds under it.
pub proof fn lemma_reads<K: Increment, V: Copy>(
    a: Seq<Node<K, V>>,
    id: int,
    lo: int,
    hi: int,
    h: nat,
)
    requires
        shaped(a, id, lo, hi, h),
    ensures
        reads(a, id, h, lo, hi, content(a, id, h)),
    decreases h, a[id].values@.len() + 1,
{
    let s = a[id].values@;
    let c = content(a, id, h);
    if a[id].t is Leaf {
        let ls = leaves(a, id, h);
        assert(ls.drop_last() =~= Seq::<int>::empty());
        assert(gather(a, ls.drop_last()) =~= Seq::<(K, V)>::empty());
        assert(c =~= pairs(a[id]));
        assert forall|i: int| 0 <= i < c.len() implies lookup(
            a,
            id,
            h,
            (#[trigger] c[i]).0.rank(),
        ) == Some(c[i].1) && lo <= c[i].0.rank() < hi by {
            lemma_stored_is(s, i);
            assert(lo <= s[i].rank() < hi);
        }
        assert forall|q: int| lo <= q < hi && (#[trigger] lookup(a, id, h, q)) is Some
            implies exists|
            i: int,
        |
            0 <= i < c.len() && (#[trigger] c[i]).0.rank() == q by {
            lemma_stored_some(s, q);
            let i = above(s, q) - 1;
            assert(c[i].0.rank() == q);
        }
        assert(rising(c)) by {
            assert forall|i: int, j: int| 0 <= i < j < c.len() implies c[i].0.rank()
                < c[j].0.rank() by {
                assert(s[i].rank() < s[j].rank());
            }
        }
    } else {
        let n = s.len();
        lemma_reads_upto(a, id, lo, hi, h, n);
        assert(s.last() == s[n - 1]);
        assert forall|q: int| lo <= q < hi && (#[trigger] lookup(a, id, h, q)) is Some
            implies exists|
            i: int,
        |
            0 <= i < c.len() && (#[trigger] c[i]).0.rank() == q by {
            lemma_above(s, q);
            if q >= s[n - 1].rank() {
                assert(above(s, q) == n) by {
                    if above(s, q) < n {
                        assert(s[above(s, q)].rank() <= s[n - 1].rank());
                    }
                }
            }
        }
    }
}

/// The leaves under the first `n` children of an internal node hold, in
/// ascending order, exactly what a search finds under the node below the
/// separator of child `n - 1`.
pub proof fn lemma_reads_upto<K: Increment, V: Copy>(
    a: Seq<Node<K, V>>,
    id: int,
    lo: int,
    hi: int,
    h: nat,
    n: nat,
)
    requires
        shaped(a, id, lo, hi, h),
        a[id].t is Internal,
        0 < n <= a[id].values@.len(),
    ensures
        reads(
            a,
            id,
            h,
            lo,
            a[id].values@[n - 1].rank(),
            gather(a, leaves_upto(a, id, h, n)),
        ),
    decreases h, n,
{
    let s = a[id].values@;
    let g = (h - 1) as nat;
    let d = kid(a, id, n - 1);
    let lw = low(a, id, lo, n - 1);
    let up = s[n - 1].rank();
    assert(s[n - 1].child() as int == d);
    assert(shaped(a, d, lw, up, g));
    lemma_reads(a, d, lw, up, g);
    let pre = gather(a, leaves_upto(a, id, h, (n - 1) as nat));
    let cur = content(a, d, g);
    let c = gather(a, leaves_upto(a, id, h, n));
    lemma_gather_add(a, leaves_upto(a, id, h, (n - 1) as nat), leaves(a, d, g));
    assert(c == pre + cur);
    assert(shaped(a, s[0].child() as int, lo, s[0].rank(), g));
    if n > 1 {
        lemma_reads_upto(a, id, lo, hi, h, (n - 1) as nat);
        assert(s[n - 2].rank() < s[n - 1].rank());
        assert(s[0].rank() <= s[n - 2].rank());
    } else {
        assert(pre =~= Seq::<(K, V)>::empty());
    }
    assert forall|i: int| 0 <= i < c.len() implies lo <= (#[trigger] c[i]).0.rank() < up && lookup(
        a,
        id,
        h,
        c[i].0.rank(),
    ) == Some(c[i].1) && (i < pre.len() ==> c[i] == pre[i] && c[i].0.rank() < lw) && (i
        >= pre.len() ==> c[i] == cur[i - pre.len()] && lw <= c[i].0.rank()) by {
        if i < pre.len() {
            assert(c[i] == pre[i]);
            assert(lo <= pre[i].0.rank() < s[n - 2].rank());
        } else {
            let k = i - pre.len();
            assert(c[i] == cur[k]);
            assert(lw <= cur[k].0.rank() < up);
            assert(lookup(a, d, g, cur[k].0.rank()) == Some(cur[k].1));
            lemma_routed(a, id, lo, hi, h, n - 1, cur[k].0.rank());
        }
    }
    assert(rising(c)) by {
        assert forall|i: int, j: int| 0 <= i < j < c.len() implies c[i].0.rank()
            < c[j].0.rank() by {
            if j < pre.len() {
                assert(pre[i].0.rank() < pre[j].0.rank());
            } else if i >= pre.len() {
                assert(cur[i - pre.len()].0.rank() < cur[j - pre.len()].0.rank());
            }
        }
    }
    assert forall|q: int| lo <= q < up && (#[trigger] lookup(a, id, h, q)) is Some implies exists|
        i: int,
    |
        0 <= i < c.len() && (#[trigger] c[i]).0.rank() == q by {
        if q < lw {
            let i = choose|i: int| 0 <= i < pre.len() && (#[trigger] pre[i]).0.rank() == q;
            assert(c[i].0.rank() == q);
        } else {
            lemma_routed(a, id, lo, hi, h, n - 1, q);
            let k = choose|k: int| 0 <= k < cur.len() && (#[trigger] cur[k]).0.rank() == q;
            assert(c[pre.len() + k].0.rank() == q);
        }
    }
}

/// The run `ls` consists of leaves of the arena, each of which refers to
/// the one after it.
pub open spec fn strung<K: Increment, V: Copy>(a: Seq<Node<K, V>>, ls: Seq<int>) -> bool {
    &&& ls.len() >= 1
    &&& forall|p: int|
        0 <= p < ls.len() ==> 0 <= #[trigger] ls[p] < a.len() && a[ls[p]].t is Leaf
            && a[ls[p]].wf()
    &&& forall|p: int| 0 <= p < ls.len() - 1 ==> follows(a, #[trigger] ls[p], ls[p + 1])
}

/// Whether one of the first `n` children of `id` reaches node `x`.
pub open spec fn under<K: Increment, V: Copy>(
    a: Seq<Node<K, V>>,
    id: int,
    h: nat,
    n: int,
    x: int,
) -> bool {
    exists|j: int| 0 <= j < n && owns(a, #[trigger] kid(a, id, j), (h - 1) as nat, x)
}

/// In a chained subtree the leaves under a node, from left to right, are
/// leaves of the arena, each of which refers to the next, from the first
/// leaf to the last.
pub proof fn lemma_leaves<K: Increment, V: Copy>(
    a: Seq<Node<K, V>>,
    id: int,
    lo: int,
    hi: int,
    h: nat,
)
    requires
        shaped(a, id, lo, hi, h),
        chained(a, id, h),
    ensures
        strung(a, leaves(a, id, h)),
        leaves(a, id, h)[0] == first_leaf(a, id, h),
        leaves(a, id, h).last() == last_leaf(a, id, h),
    decreases h, a[id].values@.len() + 1,
{
    let ls = leaves(a, id, h);
    let s = a[id].values@;
    if a[id].t is Leaf {
        assert(ls[0] == id);
    } else {
        let n = s.len();
        lemma_leaves_upto(a, id, lo, hi, h, n);
        assert(s.last() == s[n - 1]);
        assert(kid(a, id, n - 1) == s[n - 1].child() as int);
        assert(kid(a, id, 0) == s[0].child() as int);
    }
}

/// In a chained subtree the leaves under the first `n` children of an
/// internal node, from left to right, are leaves of the arena, each of
/// which refers to the next, from the first leaf of the first child to the
/// last leaf of child `n - 1`.
pub proof fn lemma_leaves_upto<K: Increment, V: Copy>(
    a: Seq<Node<K, V>>,
    id: int,
    lo: int,
    hi: int,
    h: nat,
    n: nat,
)
    requires
        shaped(a, id, lo, hi, h),
        chained(a, id, h),
        a[id].t is Internal,
        0 < n <= a[id].values@.len(),
    ensures
        strung(a, leaves_upto(a, id, h, n)),
        leaves_upto(a, id, h, n)[0] == first_leaf(a, kid(a, id, 0), (h - 1) as nat),
        leaves_upto(a, id, h, n).last() == last_leaf(a, kid(a, id, n - 1), (h - 1) as nat),
    decreases h, n,
{
    let s = a[id].values@;
    let g = (h - 1) as nat;
    let d = kid(a, id, n - 1);
    assert(s[n - 1].child() as int == d);
    assert(shaped(a, d, low(a, id, lo, n - 1), s[n - 1].rank(), g));
    assert(chained(a, kid(a, id, n - 1), g));
    lemma_leaves(a, d, low(a, id, lo, n - 1), s[n - 1].rank(), g);
    let pre = leaves_upto(a, id, h, (n - 1) as nat);
    let cur = leaves(a, d, g);
    let u = leaves_upto(a, id, h, n);
    assert(u == pre + cur);
    if n > 1 {
        lemma_leaves_upto(a, id, lo, hi, h, (n - 1) as nat);
        assert(joined(a, id, h, n - 2));
        assert forall|p: int| 0 <= p < u.len() implies 0 <= #[trigger] u[p] < a.len()
            && a[u[p]].t is Leaf && a[u[p]].wf() by {
            if p < pre.len() {
                assert(u[p] == pre[p]);
            } else {
                assert(u[p] == cur[p - pre.len()]);
            }
        }
        assert forall|p: int| 0 <= p < u.len() - 1 implies follows(a, #[trigger] u[p], u[p + 1])
            by {
            if p + 1 < pre.len() {
                assert(u[p] == pre[p] && u[p + 1] == pre[p + 1]);
            } else if p + 1 == pre.len() {
                assert(u[p] == pre.last());
                assert(u[p + 1] == cur[0]);
            } else {
                assert(u[p] == cur[p - pre.len()] && u[p + 1] == cur[p - pre.len() + 1]);
            }
        }
        assert(u[0] == pre[0]);
    } else {
        assert(pre =~= Seq::<int>::empty());
        assert(u =~= cur);
    }
    assert(u.last() == cur.last());
}

/// The leaves under a node, from left to right, are nodes that it owns,
/// each once, and all the leaves that it owns.
pub proof fn lemma_leaves_owned<K: Increment, V: Copy>(
    a: Seq<Node<K, V>>,
    id: int,
    lo: int,
    hi: int,
    h: nat,
)
    requires
        shaped(a, id, lo, hi, h),
    ensures
        forall|p: int|
            0 <= p < leaves(a, id, h).len() ==> owns(a, id, h, #[trigger] leaves(a, id, h)[p]),
        leaves(a, id, h).no_duplicates(),
        forall|x: int|
            #[trigger] owns(a, id, h, x) && a[x].t is Leaf ==> leaves(a, id, h).contains(x),
    decreases h, a[id].values@.len() + 1,
{
    let ls = leaves(a, id, h);
    let s = a[id].values@;
    if a[id].t is Leaf {
        assert(ls[0] == id);
    } else {
        let n = s.len();
        let g = (h - 1) as nat;
        lemma_leaves_owned_upto(a, id, lo, hi, h, n);
        assert forall|p: int| 0 <= p < ls.len() implies owns(a, id, h, #[trigger] ls[p]) by {
            assert(under(a, id, h, n as int, ls[p]));
            let j = choose|j: int| 0 <= j < n && owns(a, #[trigger] kid(a, id, j), g, ls[p]);
            assert(owns(a, s[j].child() as int, g, ls[p]));
        }
        assert forall|x: int| #[trigger] owns(a, id, h, x) && a[x].t is Leaf implies ls.contains(
            x,
        ) by {
            let j = choose|j: int|
                0 <= j < n && owns(a, (#[trigger] s[j]).child() as int, g, x);
            assert(owns(a, kid(a, id, j), g, x));
        }
    }
}

/// The leaves under the first `n` children of an internal node, from left
/// to right, are nodes that these children own, each once, and all the
/// leaves that they own.
pub proof fn lemma_leaves_owned_upto<K: Increment, V: Copy>(
    a: Seq<Node<K, V>>,
    id: int,
    lo: int,
    hi: int,
    h: nat,
    n: nat,
)
    requires
        shaped(a, id, lo, hi, h),
        a[id].t is Internal,
        0 < n <= a[id].values@.len(),
    ensures
        forall|p: int|
            0 <= p < leaves_upto(a, id, h, n).len() ==> under(
                a,
                id,
                h,
                n as int,
                #[trigger] leaves_upto(a, id, h, n)[p],
            ),
        leaves_upto(a, id, h, n).no_duplicates(),
        forall|j: int, x: int|
            0 <= j < n && #[trigger] owns(a, kid(a, id, j), (h - 1) as nat, x) && a[x].t is Leaf
                ==> leaves_upto(a, id, h, n).contains(x),
    decreases h, n,
{
    let s = a[id].values@;
    let g = (h - 1) as nat;
    let d = kid(a, id, n - 1);
    assert(s[n - 1].child() as int == d);
    assert(shaped(a, d, low(a, id, lo, n - 1), s[n - 1].rank(), g));
    lemma_leaves_owned(a, d, low(a, id, lo, n - 1), s[n - 1].rank(), g);
    let pre = leaves_upto(a, id, h, (n - 1) as nat);
    let cur = leaves(a, d, g);
    let u = leaves_upto(a, id, h, n);
    assert(u == pre + cur);
    if n > 1 {
        lemma_leaves_owned_upto(a, id, lo, hi, h, (n - 1) as nat);
    } else {
        assert(pre =~= Seq::<int>::empty());
    }
    assert forall|p: int| 0 <= p < u.len() implies under(a, id, h, n as int, #[trigger] u[p]) && (
    if p < pre.len() {
        u[p] == pre[p] && under(a, id, h, n - 1, u[p])
    } else {
        u[p] == cur[p - pre.len()] && owns(a, d, g, u[p])
    }) by {
        if p < pre.len() {
            assert(u[p] == pre[p]);
            assert(under(a, id, h, n - 1, pre[p]));
            let j = choose|j: int| 0 <= j < n - 1 && owns(a, #[trigger] kid(a, id, j), g, pre[p]);
            assert(owns(a, kid(a, id, j), g, u[p]));
        } else {
            assert(u[p] == cur[p - pre.len()]);
            assert(owns(a, kid(a, id, n - 1), g, u[p]));
        }
    }
    assert(u.no_duplicates()) by {
        assert forall|p: int, q: int| 0 <= p < q < u.len() implies u[p] != u[q] by {
            if q < pre.len() {
                assert(pre[p] != pre[q]);
            } else if p >= pre.len() {
                assert(cur[p - pre.len()] != cur[q - pre.len()]);
            } else {
                assert(under(a, id, h, n - 1, u[p]));
                let j = choose|j: int|
                    0 <= j < n - 1 && owns(a, #[trigger] kid(a, id, j), g, u[p]);
                assert(owns(a, d, g, u[q]));
                assert(!(owns(a, s[j].child() as int, g, u[p]) && owns(
                    a,
                    s[n - 1].child() as int,
                    g,
                    u[p],
                )));
            }
        }
    }
    assert forall|j: int, x: int|
        0 <= j < n && #[trigger] owns(a, kid(a, id, j), g, x) && a[x].t is Leaf implies u.contains(
        x,
    ) by {
        if j < n - 1 {
            assert(pre.contains(x));
            let p = choose|p: int| 0 <= p < pre.len() && pre[p] == x;
            assert(u[p] == x);
        } else {
            assert(cur.contains(x));
            let p = choose|p: int| 0 <= p < cur.len() && cur[p] == x;
            assert(u[pre.len() + p] == x);
        }
    }
}

} // verus!
