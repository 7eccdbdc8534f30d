//! Why the steps of an insertion keep a subtree a search tree: storing a
//! slot in a leaf, hanging a new child at the end of an internal node, and
//! filing the two halves of a child that was split.

use vstd::prelude::*;
use crate::increment::Increment;
use crate::layout::{
    alike, halved, inserted_one, inserted_two, lemma_child_replaced, lemma_frame,
    lemma_owned_in_arena, lemma_range, lemma_tighten, lemma_widen, lookup, low, owns, shaped,
};
use crate::node::Node;
use crate::run::{
    above, holds, lemma_above, lemma_above_push, lemma_stored_insert, lemma_stored_is,
    lemma_stored_none, lemma_stored_update, stored,
};
use crate::slot::{Either, Slot};

verus! {

/// Storing a slot in a leaf, in place of the one with the same key or at
/// its place in the order, gives its rank the new value and changes nothing
/// else.
pub proof fn lemma_leaf_put<K: Increment, V: Copy>(
    a: Seq<Node<K, V>>,
    b: Seq<Node<K, V>>,
    id: int,
    lo: int,
    hi: int,
    h: nat,
    slot: Slot<K, V>,
)
    requires
        shaped(a, id, lo, hi, h),
        a[id].t is Leaf,
        slot.1 is Left,
        lo <= slot.rank() < hi,
        b.len() == a.len(),
        forall|x: int| 0 <= x < a.len() && x != id ==> #[trigger] b[x] == a[x],
        b[id].t == a[id].t,
        b[id].next == a[id].next,
        b[id].values@ == if holds(a[id].values@, slot.rank()) {
            a[id].values@.update(above(a[id].values@, slot.rank()) - 1, slot)
        } else {
            a[id].values@.insert(above(a[id].values@, slot.rank()), slot)
        },
    ensures
        inserted_one(a, b, id, lo, hi, h, slot.rank(), slot.value()),
{
    let s = a[id].values@;
    let t = b[id].values@;
    let r = slot.rank();
    let p = above(s, r);
    lemma_above(s, r);
    if holds(s, r) {
        lemma_stored_update(s, p - 1, slot);
        assert forall|i: int| 0 <= i < t.len() implies lo <= (#[trigger] t[i]).rank() < hi && (
        t[i].1 is Left) by {
            if i != p - 1 {
                assert(t[i] == s[i]);
            }
        }
    } else {
        lemma_stored_insert(s, slot);
        assert forall|i: int| 0 <= i < t.len() implies lo <= (#[trigger] t[i]).rank() < hi && (
        t[i].1 is Left) by {
            if i < p {
                assert(t[i] == s[i]);
            } else if i > p {
                assert(t[i] == s[i - 1]);
            }
        }
    }
    assert(b[id].wf());
    assert(shaped(b, id, lo, hi, h));
    assert forall|q: int|
        #[trigger] lookup(b, id, h, q) == if q == r {
            Some(slot.value())
        } else {
            lookup(a, id, h, q)
        } by {
        assert(stored(t, q) == if q == r {
            Some(slot)
        } else {
            stored(s, q)
        });
    }
}

/// Hanging a fresh subtree that holds rank `r` alone at the end of an
/// internal node, behind a separator one above `r`, gives `r` its value
/// and changes nothing else. It applies when `r` lies at or above every
/// separator of the node.
pub proof fn lemma_child_added<K: Increment, V: Copy>(
    a: Seq<Node<K, V>>,
    b: Seq<Node<K, V>>,
    id: int,
    lo: int,
    hi: int,
    h: nat,
    c: int,
    r: int,
    v: V,
    ns: Slot<K, V>,
)
    requires
        shaped(a, id, lo, hi, h),
        a[id].t is Internal,
        lo <= r < hi,
        a[id].values@.last().rank() <= r,
        a.len() < b.len(),
        forall|x: int| 0 <= x < a.len() && x != id ==> alike(a[x], #[trigger] b[x]),
        forall|x: int| 0 <= x < a.len() && !owns(a, id, h, x) ==> #[trigger] b[x] == a[x],
        b[id].t == a[id].t,
        b[id].next == a[id].next,
        b[id].values@ == a[id].values@.push(ns),
        ns.rank() == r + 1,
        ns.1 == Either::<V, usize>::Right(c as usize),
        a.len() <= c < b.len(),
        c <= usize::MAX,
        shaped(b, c, a[id].values@.last().rank(), r + 1, (h - 1) as nat),
        b[c].t == a[a[id].values@[0].child() as int].t,
        forall|x: int| #[trigger] owns(b, c, (h - 1) as nat, x) <==> a.len() <= x < b.len(),
        forall|q: int|
            #[trigger] lookup(b, c, (h - 1) as nat, q) == if q == r {
                Some(v)
            } else {
                None
            },
    ensures
        inserted_one(a, b, id, lo, hi, h, r, v),
{
    let s = a[id].values@;
    let t = b[id].values@;
    let g = (h - 1) as nat;
    let n = s.len() as int;
    lemma_above_push(s, ns, 0);
    assert(t[n] == ns);
    assert forall|i: int| 0 <= i < n implies (#[trigger] t[i]) == s[i] by {}
    assert(b[id].wf()) by {
        assert forall|i: int| 0 <= i < t.len() implies ((#[trigger] t[i]).1 is Left) == (b[id].t
            is Leaf) by {
            if i < n {
                assert(t[i] == s[i]);
            }
        }
    }
    assert forall|i: int| 0 <= i < n implies shaped(
        b,
        (#[trigger] s[i]).child() as int,
        low(a, id, lo, i),
        s[i].rank(),
        g,
    ) && (forall|x: int| owns(b, s[i].child() as int, g, x) == owns(a, s[i].child() as int, g, x))
        && (forall|q: int|
        lookup(b, s[i].child() as int, g, q) == lookup(a, s[i].child() as int, g, q))
            && b[s[i].child() as int].t
        == a[s[i].child() as int].t by {
        let d = s[i].child() as int;
        assert(shaped(a, d, low(a, id, lo, i), s[i].rank(), g));
        assert(!owns(a, d, g, id));
        assert forall|x: int| owns(a, d, g, x) implies alike(a[x], #[trigger] b[x]) by {
            lemma_owned_in_arena(a, d, low(a, id, lo, i), s[i].rank(), g, x);
        }
        lemma_frame(a, b, d, low(a, id, lo, i), s[i].rank(), g);
        assert(owns(a, d, g, d));
    }
    assert forall|i: int, x: int|
        0 <= i < n && #[trigger] owns(a, s[i].child() as int, g, x) implies 0 <= x < a.len()
        && x != id by {
        assert(shaped(a, s[i].child() as int, low(a, id, lo, i), s[i].rank(), g));
        lemma_owned_in_arena(a, s[i].child() as int, low(a, id, lo, i), s[i].rank(), g, x);
        assert(!owns(a, s[i].child() as int, g, id));
    }
    assert forall|i: int| 0 <= i < t.len() implies shaped(
        b,
        (#[trigger] t[i]).child() as int,
        low(b, id, lo, i),
        t[i].rank(),
        g,
    ) by {
        if i < n {
            assert(t[i] == s[i]);
            if i > 0 {
                assert(t[i - 1] == s[i - 1]);
            }
            assert(shaped(b, s[i].child() as int, low(a, id, lo, i), s[i].rank(), g));
        } else {
            assert(t[n - 1] == s[n - 1]);
        }
    }
    assert forall|i: int| 0 <= i < t.len() implies b[(#[trigger] t[i]).child() as int].t
        == b[t[0].child() as int].t by {
        assert(t[0] == s[0]);
        assert(b[s[0].child() as int].t == a[s[0].child() as int].t);
        if i < n {
            assert(t[i] == s[i]);
            assert(a[s[i].child() as int].t == a[s[0].child() as int].t);
            assert(b[s[i].child() as int].t == a[s[i].child() as int].t);
        }
    }
    assert forall|i: int| 0 <= i < t.len() implies !owns(
        b,
        (#[trigger] t[i]).child() as int,
        g,
        id,
    ) by {
        if i < n {
            assert(t[i] == s[i]);
            assert(!owns(a, s[i].child() as int, g, id));
        }
    }
    assert forall|i1: int, i2: int, x: int| 0 <= i1 < i2 < t.len() implies !(#[trigger] owns(
        b,
        t[i1].child() as int,
        g,
        x,
    ) && #[trigger] owns(b, t[i2].child() as int, g, x)) by {
        assert(t[i1] == s[i1]);
        if i2 < n {
            assert(t[i2] == s[i2]);
            assert(!(owns(a, s[i1].child() as int, g, x) && owns(a, s[i2].child() as int, g, x)));
        } else if owns(b, t[i1].child() as int, g, x) {
            assert(owns(a, s[i1].child() as int, g, x));
        }
    }
    assert(shaped(b, id, lo, hi, h));
    assert forall|x: int| #[trigger] owns(b, id, h, x) implies owns(a, id, h, x) || a.len()
        <= x by {
        if x != id {
            let i = choose|i: int|
                0 <= i < t.len() && owns(b, (#[trigger] t[i]).child() as int, g, x);
            if i < n {
                assert(t[i] == s[i]);
                assert(owns(a, s[i].child() as int, g, x));
            }
        }
    }
    assert forall|x: int| #[trigger] owns(a, id, h, x) implies owns(b, id, h, x) by {
        if x != id {
            let i = choose|i: int|
                0 <= i < n && owns(a, (#[trigger] s[i]).child() as int, g, x);
            assert(t[i] == s[i]);
            assert(owns(b, t[i].child() as int, g, x));
        }
    }
    assert forall|x: int| a.len() <= x < b.len() implies #[trigger] owns(b, id, h, x) by {
        assert(owns(b, c, g, x));
        assert(owns(b, t[n].child() as int, g, x));
    }
    assert forall|q: int|
        #[trigger] lookup(b, id, h, q) == if q == r {
            Some(v)
        } else {
            lookup(a, id, h, q)
        } by {
        lemma_above_push(s, ns, q);
        lemma_above(s, q);
        let p = above(s, q);
        if q < r + 1 {
            if p < n {
                assert(s[p].rank() <= s.last().rank());
                assert(t[p] == s[p]);
                assert(lookup(b, s[p].child() as int, g, q) == lookup(
                    a,
                    s[p].child() as int,
                    g,
                    q,
                ));
            } else {
                assert(lookup(b, c, g, q) == if q == r {
                    Some(v)
                } else {
                    None::<V>
                });
            }
        }
    }
}

/// A node was split and the rank then given its value in the lower half:
/// together that is an insertion with a split. The lower half may end
/// earlier than at the split; the upper half then covers the gap, in which
/// nothing is stored.
pub proof fn lemma_settled_lower<K: Increment, V: Copy>(
    a: Seq<Node<K, V>>,
    m: Seq<Node<K, V>>,
    b: Seq<Node<K, V>>,
    id: int,
    sib: int,
    lo: int,
    hi: int,
    h: nat,
    r: int,
    v: V,
)
    requires
        halved(a, m, id, sib, lo, hi, h),
        lo <= r < m[id].bound(),
        inserted_one(m, b, id, lo, m[id].bound(), h, r, v),
    ensures
        inserted_two(a, b, id, sib, lo, hi, h, r, v),
{
    let b0 = m[id].bound();
    assert(owns(m, id, h, id));
    assert(owns(b, id, h, id));
    assert(owns(m, sib, h, sib));
    assert forall|x: int| owns(m, sib, h, x) implies alike(m[x], #[trigger] b[x]) by {
        lemma_owned_in_arena(m, sib, b0, hi, h, x);
        assert(!(owns(m, id, h, x) && owns(m, sib, h, x)));
        assert(b[x] == m[x]);
    }
    lemma_frame(m, b, sib, b0, hi, h);
    assert(b[id].values@.len() > 0) by {
        if b[id].values@.len() == 0 {
            assert(lookup(b, id, h, r) == Some(v));
            lemma_above(b[id].values@, r);
        }
    }
    lemma_tighten(b, id, lo, b0, h);
    let b1 = b[id].bound();
    lemma_widen(b, sib, b0, hi, h, b1, hi);
    assert(r < b1) by {
        if r >= b1 {
            lemma_range(b, id, lo, b1, h, r);
            assert(lookup(b, id, h, r) == Some(v));
        }
    }
    assert forall|x: int| 0 <= x < a.len() && !owns(a, id, h, x) implies #[trigger] b[x]
        == a[x] by {
        assert(owns(a, id, h, id));
        assert(m[x] == a[x]);
        assert(owns(m, id, h, x) ==> owns(a, id, h, x));
        assert(b[x] == m[x]);
    }
    assert forall|x: int| #[trigger] owns(b, id, h, x) implies owns(a, id, h, x) || a.len()
        <= x by {
        assert(owns(m, id, h, x) || m.len() <= x);
        assert(owns(m, id, h, x) ==> owns(a, id, h, x));
    }
    assert forall|x: int| #[trigger] owns(b, sib, h, x) implies owns(a, id, h, x) || a.len()
        <= x by {
        assert(owns(m, sib, h, x));
    }
    assert forall|x: int| #[trigger] owns(a, id, h, x) implies owns(b, id, h, x) || owns(
        b,
        sib,
        h,
        x,
    ) by {
        assert(owns(m, id, h, x) || owns(m, sib, h, x));
        if owns(m, id, h, x) {
            assert(owns(b, id, h, x));
        } else {
            assert(owns(b, sib, h, x));
        }
    }
    assert forall|x: int| a.len() <= x < b.len() implies #[trigger] owns(b, id, h, x) || owns(
        b,
        sib,
        h,
        x,
    ) by {
        if x == sib {
            assert(owns(b, sib, h, x));
        } else {
            assert(owns(b, id, h, x));
        }
    }
    assert forall|x: int| !(#[trigger] owns(b, id, h, x) && owns(b, sib, h, x)) by {
        if owns(b, id, h, x) && owns(b, sib, h, x) {
            assert(owns(m, sib, h, x));
            lemma_owned_in_arena(m, sib, b0, hi, h, x);
            assert(owns(m, id, h, x) || m.len() <= x);
            assert(!(owns(m, id, h, x) && owns(m, sib, h, x)));
        }
    }
    assert forall|q: int|
        (if q < b[id].bound() {
            #[trigger] lookup(b, id, h, q)
        } else {
            lookup(b, sib, h, q)
        }) == if q == r {
            Some(v)
        } else {
            lookup(a, id, h, q)
        } by {
        assert(lookup(b, id, h, q) == if q == r {
            Some(v)
        } else {
            lookup(m, id, h, q)
        });
        assert((if q < b0 {
            lookup(m, id, h, q)
        } else {
            lookup(m, sib, h, q)
        }) == lookup(a, id, h, q));
        assert(lookup(b, sib, h, q) == lookup(m, sib, h, q));
        if b1 <= q < b0 {
            lemma_range(m, sib, b0, hi, h, q);
            lemma_range(b, id, lo, b1, h, q);
        }
    }
}

/// A node was split and the rank then given its value in the upper half:
/// together that is an insertion with a split.
pub proof fn lemma_settled_upper<K: Increment, V: Copy>(
    a: Seq<Node<K, V>>,
    m: Seq<Node<K, V>>,
    b: Seq<Node<K, V>>,
    id: int,
    sib: int,
    lo: int,
    hi: int,
    h: nat,
    r: int,
    v: V,
)
    requires
        halved(a, m, id, sib, lo, hi, h),
        m[id].bound() <= r < hi,
        inserted_one(m, b, sib, m[id].bound(), hi, h, r, v),
    ensures
        inserted_two(a, b, id, sib, lo, hi, h, r, v),
{
    let b0 = m[id].bound();
    assert(owns(m, id, h, id));
    assert(owns(m, sib, h, sib));
    assert(owns(b, sib, h, sib));
    assert(!(owns(m, id, h, id) && owns(m, sib, h, id)));
    assert(b[id] == m[id]);
    assert forall|x: int| owns(m, id, h, x) implies alike(m[x], #[trigger] b[x]) by {
        lemma_owned_in_arena(m, id, lo, b0, h, x);
        assert(!(owns(m, id, h, x) && owns(m, sib, h, x)));
        assert(b[x] == m[x]);
    }
    lemma_frame(m, b, id, lo, b0, h);
    assert(b[sib].values@.len() > 0) by {
        if b[sib].values@.len() == 0 {
            assert(lookup(b, sib, h, r) == Some(v));
            lemma_above(b[sib].values@, r);
        }
    }
    assert forall|x: int| 0 <= x < a.len() && !owns(a, id, h, x) implies #[trigger] b[x]
        == a[x] by {
        assert(owns(a, id, h, id));
        assert(m[x] == a[x]);
        assert(owns(m, sib, h, x) ==> owns(a, id, h, x) || x == sib);
        assert(b[x] == m[x]);
    }
    assert forall|x: int| #[trigger] owns(b, id, h, x) implies owns(a, id, h, x) || a.len()
        <= x by {
        assert(owns(m, id, h, x));
    }
    assert forall|x: int| #[trigger] owns(b, sib, h, x) implies owns(a, id, h, x) || a.len()
        <= x by {
        assert(owns(m, sib, h, x) || m.len() <= x);
        assert(owns(m, sib, h, x) ==> owns(a, id, h, x) || x == sib);
    }
    assert forall|x: int| #[trigger] owns(a, id, h, x) implies owns(b, id, h, x) || owns(
        b,
        sib,
        h,
        x,
    ) by {
        assert(owns(m, id, h, x) || owns(m, sib, h, x));
        if owns(m, id, h, x) {
            assert(owns(b, id, h, x));
        } else {
            assert(owns(b, sib, h, x));
        }
    }
    assert forall|x: int| a.len() <= x < b.len() implies #[trigger] owns(b, id, h, x) || owns(
        b,
        sib,
        h,
        x,
    ) by {
        if x == sib {
            assert(owns(b, sib, h, x));
        } else {
            assert(owns(b, sib, h, x));
        }
    }
    assert forall|x: int| !(#[trigger] owns(b, id, h, x) && owns(b, sib, h, x)) by {
        if owns(b, id, h, x) && owns(b, sib, h, x) {
            assert(owns(m, id, h, x));
            lemma_owned_in_arena(m, id, lo, b0, h, x);
            assert(owns(m, sib, h, x) || m.len() <= x);
            assert(!(owns(m, id, h, x) && owns(m, sib, h, x)));
        }
    }
    assert forall|q: int|
        (if q < b[id].bound() {
            #[trigger] lookup(b, id, h, q)
        } else {
            lookup(b, sib, h, q)
        }) == if q == r {
            Some(v)
        } else {
            lookup(a, id, h, q)
        } by {
        assert(lookup(b, sib, h, q) == if q == r {
            Some(v)
        } else {
            lookup(m, sib, h, q)
        });
        assert((if q < b0 {
            lookup(m, id, h, q)
        } else {
            lookup(m, sib, h, q)
        }) == lookup(a, id, h, q));
        assert(lookup(b, id, h, q) == lookup(m, id, h, q));
    }
}

/// An insertion under child `j` that did not split the child is an
/// insertion under the node.
pub proof fn lemma_passed_down<K: Increment, V: Copy>(
    a: Seq<Node<K, V>>,
    b: Seq<Node<K, V>>,
    id: int,
    lo: int,
    hi: int,
    h: nat,
    j: int,
    r: int,
    v: V,
)
    requires
        shaped(a, id, lo, hi, h),
        a[id].t is Internal,
        0 <= j < a[id].values@.len(),
        j == above(a[id].values@, r),
        inserted_one(
            a,
            b,
            a[id].values@[j].child() as int,
            low(a, id, lo, j),
            a[id].values@[j].rank(),
            (h - 1) as nat,
            r,
            v,
        ),
    ensures
        inserted_one(a, b, id, lo, hi, h, r, v),
{
    let s = a[id].values@;
    let g = (h - 1) as nat;
    let c = s[j].child() as int;
    assert(shaped(a, c, low(a, id, lo, j), s[j].rank(), g));
    assert(!owns(a, c, g, id));
    assert forall|x: int| 0 <= x < a.len() && !owns(a, c, g, x) implies alike(
        a[x],
        #[trigger] b[x],
    ) by {
        assert(b[x] == a[x]);
    }
    lemma_child_replaced(a, b, id, lo, hi, h, j);
    assert forall|x: int| 0 <= x < a.len() && !owns(a, id, h, x) implies #[trigger] b[x]
        == a[x] by {
        assert(!owns(a, s[j].child() as int, g, x));
    }
    assert forall|x: int| #[trigger] owns(b, id, h, x) implies owns(a, id, h, x) || a.len()
        <= x by {
        if owns(b, c, g, x) {
            assert(owns(a, c, g, x) || a.len() <= x);
            assert(owns(a, s[j].child() as int, g, x) ==> owns(a, id, h, x));
        }
    }
    assert forall|x: int| #[trigger] owns(a, id, h, x) implies owns(b, id, h, x) by {
        if owns(a, c, g, x) {
            assert(owns(b, c, g, x));
        }
        assert(owns(b, id, h, x) <==> owns(b, c, g, x) || (owns(a, id, h, x) && !owns(
            a,
            c,
            g,
            x,
        )));
    }
    assert forall|x: int| a.len() <= x < b.len() implies #[trigger] owns(b, id, h, x) by {
        assert(owns(b, c, g, x));
        assert(owns(b, id, h, x) <==> owns(b, c, g, x) || (owns(a, id, h, x) && !owns(
            a,
            c,
            g,
            x,
        )));
    }
    assert forall|q: int|
        #[trigger] lookup(b, id, h, q) == if q == r {
            Some(v)
        } else {
            lookup(a, id, h, q)
        } by {
        lemma_above(s, q);
        if above(s, q) == j {
            assert(lookup(b, c, g, q) == if q == r {
                Some(v)
            } else {
                lookup(a, c, g, q)
            });
        }
    }
}

/// A new leaf with one slot is a subtree for every range around its key.
/// It owns itself alone, and a search finds its one value.
pub proof fn lemma_fresh_leaf<K: Increment, V: Copy>(
    b: Seq<Node<K, V>>,
    li: int,
    lo: int,
    hi: int,
    h: nat,
    entry: Slot<K, V>,
)
    requires
        0 <= li < b.len(),
        b[li].t is Leaf,
        b[li].values@ == Seq::<Slot<K, V>>::empty().push(entry),
        entry.1 is Left,
        lo <= entry.rank() < hi,
    ensures
        shaped(b, li, lo, hi, h),
        forall|x: int| #[trigger] owns(b, li, h, x) <==> x == li,
        forall|q: int|
            #[trigger] lookup(b, li, h, q) == if q == entry.rank() {
                Some(entry.value())
            } else {
                None
            },
{
    let t = b[li].values@;
    assert(t.len() == 1 && t[0] == entry);
    assert forall|q: int|
        #[trigger] lookup(b, li, h, q) == if q == entry.rank() {
            Some(entry.value())
        } else {
            None
        } by {
        lemma_above(t, q);
        if q == entry.rank() {
            lemma_stored_is(t, 0);
        } else {
            lemma_stored_none(t, q);
        }
    }
}

/// A new internal node whose one child is a new leaf with one slot is a
/// subtree for every range that reaches from the key's rank or below to the
/// rank after it. It owns the two nodes, and a search finds the one value.
pub proof fn lemma_fresh_inner<K: Increment, V: Copy>(
    b: Seq<Node<K, V>>,
    ci: int,
    li: int,
    lo: int,
    h: nat,
    entry: Slot<K, V>,
    ns: Slot<K, V>,
)
    requires
        0 <= li < b.len(),
        0 <= ci < b.len(),
        li != ci,
        li <= usize::MAX,
        h > 0,
        b[li].t is Leaf,
        b[li].values@ == Seq::<Slot<K, V>>::empty().push(entry),
        entry.1 is Left,
        lo <= entry.rank(),
        b[ci].t is Internal,
        b[ci].next is None,
        b[ci].values@ == Seq::<Slot<K, V>>::empty().push(ns),
        ns.rank() == entry.rank() + 1,
        ns.1 == Either::<V, usize>::Right(li as usize),
    ensures
        shaped(b, ci, lo, entry.rank() + 1, h),
        forall|x: int| #[trigger] owns(b, ci, h, x) <==> x == li || x == ci,
        forall|q: int|
            #[trigger] lookup(b, ci, h, q) == if q == entry.rank() {
                Some(entry.value())
            } else {
                None
            },
{
    let g = (h - 1) as nat;
    let t = b[ci].values@;
    let r = entry.rank();
    assert(t.len() == 1 && t[0] == ns);
    lemma_fresh_leaf(b, li, lo, r + 1, g, entry);
    assert(owns(b, li, g, li));
    assert forall|x: int| #[trigger] owns(b, ci, h, x) <==> x == li || x == ci by {
        if x == li {
            assert(owns(b, t[0].child() as int, g, x));
        }
        if owns(b, ci, h, x) && x != ci {
            let j = choose|j: int|
                0 <= j < t.len() && owns(b, (#[trigger] b[ci].values@[j]).child() as int, g, x);
            assert(j == 0);
            assert(owns(b, li, g, x));
        }
    }
    assert forall|q: int|
        #[trigger] lookup(b, ci, h, q) == if q == r {
            Some(entry.value())
        } else {
            None
        } by {
        lemma_above(t, q);
        assert(above(t, q) == if q < r + 1 {
            0int
        } else {
            1int
        });
        assert(lookup(b, li, g, q) == if q == r {
            Some(entry.value())
        } else {
            None::<V>
        });
    }
}

/// After the top node of a tree was split by an insertion, a new internal
/// node over the two halves, each filed under its bound, is the top of a
/// tree one level higher that owns the whole arena, in which the rank has
/// its value and nothing else has changed.
///
/// `a` is the arena before the insertion, `m` after it, `b` with the new
/// top node at its end.
pub proof fn lemma_root_grown<K: Increment, V: Copy>(
    a: Seq<Node<K, V>>,
    m: Seq<Node<K, V>>,
    b: Seq<Node<K, V>>,
    root: int,
    sib: int,
    lo: int,
    hi: int,
    h: nat,
    r: int,
    v: V,
    sl: Slot<K, V>,
    os: Slot<K, V>,
)
    requires
        shaped(a, root, lo, hi, h),
        forall|x: int| 0 <= x < a.len() ==> #[trigger] owns(a, root, h, x),
        inserted_two(a, m, root, sib, lo, hi, h, r, v),
        b.len() == m.len() + 1,
        forall|x: int| 0 <= x < m.len() ==> alike(m[x], #[trigger] b[x]),
        b[m.len() as int].t is Internal,
        b[m.len() as int].next is None,
        b[m.len() as int].values@ == Seq::<Slot<K, V>>::empty().push(sl).push(os),
        sl.rank() == m[root].bound(),
        sl.1 == Either::<V, usize>::Right(root as usize),
        os.rank() == m[sib].bound(),
        os.1 == Either::<V, usize>::Right(sib as usize),
        sib <= usize::MAX,
    ensures
        shaped(b, m.len() as int, lo, hi, h + 1),
        forall|x: int| 0 <= x < b.len() ==> #[trigger] owns(b, m.len() as int, h + 1, x),
        forall|q: int|
            #[trigger] lookup(b, m.len() as int, h + 1, q) == if q == r {
                Some(v)
            } else {
                lookup(a, root, h, q)
            },
{
    let nr = m.len() as int;
    let t = b[nr].values@;
    let b0 = m[root].bound();
    assert(t.len() == 2 && t[0] == sl && t[1] == os);
    lemma_tighten(m, sib, b0, hi, h);
    let b1 = m[sib].bound();
    assert forall|x: int| owns(m, root, h, x) implies alike(m[x], #[trigger] b[x]) by {
        lemma_owned_in_arena(m, root, lo, b0, h, x);
    }
    lemma_frame(m, b, root, lo, b0, h);
    assert forall|x: int| owns(m, sib, h, x) implies alike(m[x], #[trigger] b[x]) by {
        lemma_owned_in_arena(m, sib, b0, b1, h, x);
    }
    lemma_frame(m, b, sib, b0, b1, h);
    assert(owns(m, root, h, root));
    assert(owns(m, sib, h, sib));
    assert forall|i: int| 0 <= i < t.len() implies shaped(
        b,
        (#[trigger] t[i]).child() as int,
        low(b, nr, lo, i),
        t[i].rank(),
        h,
    ) by {}
    assert forall|i: int| 0 <= i < t.len() implies !owns(
        b,
        (#[trigger] t[i]).child() as int,
        h,
        nr,
    ) by {
        if owns(m, root, h, nr) {
            lemma_owned_in_arena(m, root, lo, b0, h, nr);
        }
        if owns(m, sib, h, nr) {
            lemma_owned_in_arena(m, sib, b0, b1, h, nr);
        }
    }
    assert forall|i1: int, i2: int, x: int| 0 <= i1 < i2 < t.len() implies !(#[trigger] owns(
        b,
        t[i1].child() as int,
        h,
        x,
    ) && #[trigger] owns(b, t[i2].child() as int, h, x)) by {
        assert(!(owns(m, root, h, x) && owns(m, sib, h, x)));
    }
    assert(b[nr].wf());
    assert(shaped(b, nr, lo, hi, h + 1));
    assert forall|x: int| 0 <= x < b.len() implies #[trigger] owns(b, nr, h + 1, x) by {
        if x < m.len() {
            assert(owns(m, root, h, x) || owns(m, sib, h, x)) by {
                if x < a.len() {
                    assert(owns(a, root, h, x));
                }
            }
            if owns(m, root, h, x) {
                assert(owns(b, t[0].child() as int, h, x));
            } else {
                assert(owns(b, t[1].child() as int, h, x));
            }
        }
    }
    assert forall|q: int|
        #[trigger] lookup(b, nr, h + 1, q) == if q == r {
            Some(v)
        } else {
            lookup(a, root, h, q)
        } by {
        lemma_above(t, q);
        assert(above(t, q) == if q < b0 {
            0int
        } else if q < b1 {
            1int
        } else {
            2int
        });
        assert((if q < b0 {
            lookup(m, root, h, q)
        } else {
            lookup(m, sib, h, q)
        }) == if q == r {
            Some(v)
        } else {
            lookup(a, root, h, q)
        });
        assert(lookup(b, root, h, q) == lookup(m, root, h, q));
        assert(lookup(b, sib, h, q) == lookup(m, sib, h, q));
        if q >= b1 {
            lemma_range(m, sib, b0, b1, h, q);
        }
    }
}

} // verus!
