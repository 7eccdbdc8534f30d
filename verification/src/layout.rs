//! How an arena of nodes forms a search tree: which nodes a subtree owns,
//! which key ranges its children cover, and what a lookup finds in it.
//!
//! Every relation here takes the arena as a sequence of nodes, the index of
//! a subtree's top node and a bound on the levels below it.

use vstd::prelude::*;
use crate::increment::Increment;
use crate::node::{limit, Node};
use crate::run::{above, lemma_above, lemma_above_split, stored};

verus! {

/// Whether the subtree under `id` reaches node `x`, itself included.
pub open spec fn owns<K: Increment, V: Copy>(
    a: Seq<Node<K, V>>,
    id: int,
    h: nat,
    x: int,
) -> bool
    decreases h,
{
    x == id || (h > 0 && 0 <= id < a.len() && a[id].t is Internal && exists|j: int|
        0 <= j < a[id].values@.len() && owns(
            a,
            (#[trigger] a[id].values@[j]).child() as int,
            (h - 1) as nat,
            x,
        ))
}

/// The node that slot `j` of the internal node `id` refers to.
pub open spec fn kid<K: Increment, V: Copy>(a: Seq<Node<K, V>>, id: int, j: int) -> int {
    a[id].values@[j].child() as int
}

/// The lower end of the key range of child `j`: the separator before it, or
/// the lower end of the parent's own range for the first child.
pub open spec fn low<K: Increment, V: Copy>(a: Seq<Node<K, V>>, id: int, lo: int, j: int) -> int {
    if j == 0 {
        lo
    } else {
        a[id].values@[j - 1].rank()
    }
}

/// The subtree under `id` is a search tree for the ranks from `lo` up to,
/// but not including, `hi`: a leaf holds keys of that range only; an
/// internal node has at least one child, each separator bounds the keys of
/// its child from above and those of the next child from below, all
/// children are of one kind, and no node is reached twice.
pub open spec fn shaped<K: Increment, V: Copy>(
    a: Seq<Node<K, V>>,
    id: int,
    lo: int,
    hi: int,
    h: nat,
) -> bool
    decreases h,
{
    &&& 0 <= id < a.len()
    &&& a[id].wf()
    &&& lo < hi
    &&& if a[id].t is Leaf {
        forall|i: int|
            0 <= i < a[id].values@.len() ==> lo <= (#[trigger] a[id].values@[i]).rank() < hi
    } else {
        &&& h > 0
        &&& a[id].values@.len() > 0
        &&& a[id].values@.last().rank() <= hi
        &&& forall|j: int|
            0 <= j < a[id].values@.len() ==> shaped(
                a,
                (#[trigger] a[id].values@[j]).child() as int,
                low(a, id, lo, j),
                a[id].values@[j].rank(),
                (h - 1) as nat,
            )
        &&& forall|j: int|
            0 <= j < a[id].values@.len() ==> a[(#[trigger] a[id].values@[j]).child() as int].t
                == a[a[id].values@[0].child() as int].t
        &&& forall|j: int|
            0 <= j < a[id].values@.len() ==> !owns(
                a,
                (#[trigger] a[id].values@[j]).child() as int,
                (h - 1) as nat,
                id,
            )
        &&& forall|j1: int, j2: int, x: int|
            0 <= j1 < j2 < a[id].values@.len() ==> !(#[trigger] owns(
                a,
                a[id].values@[j1].child() as int,
                (h - 1) as nat,
                x,
            ) && #[trigger] owns(a, a[id].values@[j2].child() as int, (h - 1) as nat, x))
    }
}

/// What a search for rank `r` finds under `id`: it follows, at each
/// internal node, the first separator above `r`, and reads the leaf it ends
/// in.
pub open spec fn lookup<K: Increment, V: Copy>(
    a: Seq<Node<K, V>>,
    id: int,
    h: nat,
    r: int,
) -> Option<V>
    decreases h,
{
    if !(0 <= id < a.len()) {
        None
    } else if a[id].t is Leaf {
        match stored(a[id].values@, r) {
            Some(s) => Some(s.value()),
            None => None,
        }
    } else if h == 0 {
        None
    } else {
        let j = above(a[id].values@, r);
        if j < a[id].values@.len() {
            lookup(a, a[id].values@[j].child() as int, (h - 1) as nat, r)
        } else {
            None
        }
    }
}

/// The leaf at the right end of the subtree under `id`.
pub open spec fn last_leaf<K: Increment, V: Copy>(a: Seq<Node<K, V>>, id: int, h: nat) -> int
    decreases h,
{
    if 0 <= id < a.len() && a[id].t is Internal && h > 0 && a[id].values@.len() > 0 {
        last_leaf(a, a[id].values@.last().child() as int, (h - 1) as nat)
    } else {
        id
    }
}

/// The leaf at the left end of the subtree under `id`.
pub open spec fn first_leaf<K: Increment, V: Copy>(a: Seq<Node<K, V>>, id: int, h: nat) -> int
    decreases h,
{
    if 0 <= id < a.len() && a[id].t is Internal && h > 0 && a[id].values@.len() > 0 {
        first_leaf(a, a[id].values@[0].child() as int, (h - 1) as nat)
    } else {
        id
    }
}

/// The number of levels from `id` down to the leaf at the left end.
pub open spec fn depth<K: Increment, V: Copy>(a: Seq<Node<K, V>>, id: int, h: nat) -> nat
    decreases h,
{
    if 0 <= id < a.len() && a[id].t is Internal && h > 0 && a[id].values@.len() > 0 {
        1 + depth(a, a[id].values@[0].child() as int, (h - 1) as nat)
    } else {
        1
    }
}

/// The leaves at both ends of a subtree are leaves that it owns.
pub proof fn lemma_end_leaves<K: Increment, V: Copy>(
    a: Seq<Node<K, V>>,
    id: int,
    lo: int,
    hi: int,
    h: nat,
)
    requires
        shaped(a, id, lo, hi, h),
    ensures
        owns(a, id, h, first_leaf(a, id, h)),
        owns(a, id, h, last_leaf(a, id, h)),
        0 <= first_leaf(a, id, h) < a.len(),
        0 <= last_leaf(a, id, h) < a.len(),
        a[first_leaf(a, id, h)].t is Leaf,
        a[last_leaf(a, id, h)].t is Leaf,
        a[id].t is Internal ==> first_leaf(a, id, h) != id && last_leaf(a, id, h) != id,
    decreases h,
{
    if a[id].t is Internal {
        let s = a[id].values@;
        let n = s.len() as int;
        let g = (h - 1) as nat;
        assert(shaped(a, s[0].child() as int, low(a, id, lo, 0), s[0].rank(), g));
        assert(shaped(a, s[n - 1].child() as int, low(a, id, lo, n - 1), s[n - 1].rank(), g));
        lemma_end_leaves(a, s[0].child() as int, low(a, id, lo, 0), s[0].rank(), g);
        lemma_end_leaves(a, s[n - 1].child() as int, low(a, id, lo, n - 1), s[n - 1].rank(), g);
        assert(owns(a, s[0].child() as int, g, first_leaf(a, id, h)));
        assert(owns(a, s[n - 1].child() as int, g, last_leaf(a, id, h)));
        assert(!owns(a, s[0].child() as int, g, id));
        assert(!owns(a, s[n - 1].child() as int, g, id));
    }
}

/// The leaf in which a search for rank `r` under `id` ends, if it ends in
/// one: below an internal node without a separator above `r` it does not.
pub open spec fn home<K: Increment, V: Copy>(
    a: Seq<Node<K, V>>,
    id: int,
    h: nat,
    r: int,
) -> Option<int>
    decreases h,
{
    if !(0 <= id < a.len()) {
        None
    } else if a[id].t is Leaf {
        Some(id)
    } else if h == 0 {
        None
    } else {
        let j = above(a[id].values@, r);
        if j < a[id].values@.len() {
            home(a, a[id].values@[j].child() as int, (h - 1) as nat, r)
        } else {
            None
        }
    }
}

/// A search ends in a leaf that the subtree owns and finds what that leaf
/// stores for the rank; where it ends in no leaf, it finds nothing.
pub proof fn lemma_home<K: Increment, V: Copy>(
    a: Seq<Node<K, V>>,
    id: int,
    lo: int,
    hi: int,
    h: nat,
    r: int,
)
    requires
        shaped(a, id, lo, hi, h),
    ensures
        home(a, id, h, r) is None ==> lookup(a, id, h, r) is None,
        home(a, id, h, r) matches Some(l) ==> owns(a, id, h, l) && 0 <= l < a.len() && a[l].t
            is Leaf && lookup(a, id, h, r) == lookup(a, l, 0, r),
    decreases h,
{
    if a[id].t is Internal {
        let s = a[id].values@;
        lemma_above(s, r);
        let j = above(s, r);
        if j < s.len() {
            assert(shaped(a, s[j].child() as int, low(a, id, lo, j), s[j].rank(), (h - 1) as nat));
            lemma_home(a, s[j].child() as int, low(a, id, lo, j), s[j].rank(), (h - 1) as nat, r);
        }
    }
}

/// Two nodes that a search cannot tell apart: same kind, same slots. They
/// may differ in the leaf that follows them, which only a leaf has.
pub open spec fn alike<K: Increment, V: Copy>(n: Node<K, V>, m: Node<K, V>) -> bool {
    &&& n.t == m.t
    &&& n.values@ == m.values@
    &&& (m.t is Internal ==> m.next == n.next)
}

/// A subtree reaches nodes of the arena only.
pub proof fn lemma_owned_in_arena<K: Increment, V: Copy>(
    a: Seq<Node<K, V>>,
    id: int,
    lo: int,
    hi: int,
    h: nat,
    x: int,
)
    requires
        shaped(a, id, lo, hi, h),
        owns(a, id, h, x),
    ensures
        0 <= x < a.len(),
    decreases h,
{
    if x != id {
        let j = choose|j: int|
            0 <= j < a[id].values@.len() && owns(
                a,
                (#[trigger] a[id].values@[j]).child() as int,
                (h - 1) as nat,
                x,
            );
        lemma_owned_in_arena(
            a,
            a[id].values@[j].child() as int,
            low(a, id, lo, j),
            a[id].values@[j].rank(),
            (h - 1) as nat,
            x,
        );
    }
}

/// Every node that a subtree reaches is itself sound.
pub proof fn lemma_owned_is_sound<K: Increment, V: Copy>(
    a: Seq<Node<K, V>>,
    id: int,
    lo: int,
    hi: int,
    h: nat,
    x: int,
)
    requires
        shaped(a, id, lo, hi, h),
        owns(a, id, h, x),
    ensures
        0 <= x < a.len(),
        a[x].wf(),
    decreases h,
{
    if x != id {
        let j = choose|j: int|
            0 <= j < a[id].values@.len() && owns(
                a,
                (#[trigger] a[id].values@[j]).child() as int,
                (h - 1) as nat,
                x,
            );
        lemma_owned_is_sound(
            a,
            a[id].values@[j].child() as int,
            low(a, id, lo, j),
            a[id].values@[j].rank(),
            (h - 1) as nat,
            x,
        );
    }
}

/// A subtree stays what it is when the arena changes only outside of it, or
/// in ways a search cannot see.
pub proof fn lemma_frame<K: Increment, V: Copy>(
    a: Seq<Node<K, V>>,
    b: Seq<Node<K, V>>,
    id: int,
    lo: int,
    hi: int,
    h: nat,
)
    requires
        shaped(a, id, lo, hi, h),
        a.len() <= b.len(),
        forall|x: int| owns(a, id, h, x) ==> alike(a[x], #[trigger] b[x]),
    ensures
        shaped(b, id, lo, hi, h),
        forall|x: int| owns(b, id, h, x) == owns(a, id, h, x),
        forall|r: int| lookup(b, id, h, r) == lookup(a, id, h, r),
    decreases h,
{
    assert(owns(a, id, h, id));
    assert(alike(a[id], b[id]));
    let s = a[id].values@;
    assert(b[id].values@ == s);
    if a[id].t is Internal {
        let g = (h - 1) as nat;
        assert forall|j: int| 0 <= j < s.len() implies shaped(
            b,
            (#[trigger] s[j]).child() as int,
            low(b, id, lo, j),
            s[j].rank(),
            g,
        ) && (forall|x: int|
            owns(b, s[j].child() as int, g, x) == owns(a, s[j].child() as int, g, x))
            && (forall|r: int|
            lookup(b, s[j].child() as int, g, r) == lookup(a, s[j].child() as int, g, r))
                && b[s[j].child() as int].t
            == a[s[j].child() as int].t by {
            let c = s[j].child() as int;
            assert forall|x: int| owns(a, c, g, x) implies alike(a[x], #[trigger] b[x]) by {
                assert(owns(a, id, h, x));
            }
            assert(shaped(a, c, low(a, id, lo, j), s[j].rank(), g));
            lemma_frame(a, b, c, low(a, id, lo, j), s[j].rank(), g);
            assert(owns(a, c, g, c));
        }
        assert forall|x: int| owns(b, id, h, x) == owns(a, id, h, x) by {
            if owns(a, id, h, x) && x != id {
                let j = choose|j: int|
                    0 <= j < s.len() && owns(a, (#[trigger] s[j]).child() as int, g, x);
                assert(owns(b, b[id].values@[j].child() as int, g, x));
            }
            if owns(b, id, h, x) && x != id {
                let j = choose|j: int|
                    0 <= j < s.len() && owns(
                        b,
                        (#[trigger] b[id].values@[j]).child() as int,
                        g,
                        x,
                    );
                assert(owns(a, s[j].child() as int, g, x));
            }
        }
        assert forall|r: int| lookup(b, id, h, r) == lookup(a, id, h, r) by {
            lemma_above(s, r);
            let j = above(s, r);
            if j < s.len() {
                assert(lookup(b, s[j].child() as int, g, r) == lookup(
                    a,
                    s[j].child() as int,
                    g,
                    r,
                ));
            }
        }
        assert(shaped(b, id, lo, hi, h));
    }
}

/// Outside of its key range, and from its own bound on, a subtree holds
/// nothing.
pub proof fn lemma_range<K: Increment, V: Copy>(
    a: Seq<Node<K, V>>,
    id: int,
    lo: int,
    hi: int,
    h: nat,
    r: int,
)
    requires
        shaped(a, id, lo, hi, h),
        r < lo || hi <= r || (a[id].values@.len() > 0 && a[id].bound() <= r),
    ensures
        lookup(a, id, h, r) is None,
    decreases h,
{
    let s = a[id].values@;
    lemma_above(s, r);
    let j = above(s, r);
    if a[id].t is Leaf {
        if j > 0 {
            assert(lo <= s[j - 1].rank() < hi);
            assert(s[j - 1].rank() <= s.last().rank());
        }
    } else {
        if j < s.len() {
            assert(s[j].rank() <= s.last().rank());
            assert(j == 0) by {
                if j > 0 {
                    assert(shaped(
                        a,
                        s[j - 1].child() as int,
                        low(a, id, lo, j - 1),
                        s[j - 1].rank(),
                        (h - 1) as nat,
                    ));
                    assert(shaped(a, s[0].child() as int, lo, s[0].rank(), (h - 1) as nat));
                    assert(s[0].rank() <= s[j - 1].rank());
                }
            }
            lemma_range(a, s[0].child() as int, lo, s[0].rank(), (h - 1) as nat, r);
        }
    }
}

/// A subtree for a range is a subtree for every wider range.
pub proof fn lemma_widen<K: Increment, V: Copy>(
    a: Seq<Node<K, V>>,
    id: int,
    lo: int,
    hi: int,
    h: nat,
    lo2: int,
    hi2: int,
)
    requires
        shaped(a, id, lo, hi, h),
        lo2 <= lo,
        hi <= hi2,
    ensures
        shaped(a, id, lo2, hi2, h),
    decreases h,
{
    let s = a[id].values@;
    if a[id].t is Internal {
        assert(shaped(a, s[0].child() as int, lo, s[0].rank(), (h - 1) as nat));
        lemma_widen(a, s[0].child() as int, lo, s[0].rank(), (h - 1) as nat, lo2, s[0].rank());
        assert forall|j: int| 0 <= j < s.len() implies shaped(
            a,
            (#[trigger] s[j]).child() as int,
            low(a, id, lo2, j),
            s[j].rank(),
            (h - 1) as nat,
        ) by {
            if j > 0 {
                assert(shaped(
                    a,
                    s[j].child() as int,
                    low(a, id, lo, j),
                    s[j].rank(),
                    (h - 1) as nat,
                ));
            }
        }
    }
}

/// A subtree with at least one slot is a subtree for the range that ends at
/// its own bound.
pub proof fn lemma_tighten<K: Increment, V: Copy>(
    a: Seq<Node<K, V>>,
    id: int,
    lo: int,
    hi: int,
    h: nat,
)
    requires
        shaped(a, id, lo, hi, h),
        a[id].values@.len() > 0,
    ensures
        shaped(a, id, lo, a[id].bound(), h),
        lo < a[id].bound() <= hi,
{
    let s = a[id].values@;
    if a[id].t is Leaf {
        assert(lo <= s.last().rank() < hi);
        assert forall|i: int| 0 <= i < s.len() implies lo <= (#[trigger] s[i]).rank()
            < a[id].bound() by {
            assert(s[i].rank() <= s.last().rank());
        }
    } else {
        assert(shaped(a, s[0].child() as int, lo, s[0].rank(), (h - 1) as nat));
        assert(s[0].rank() <= s.last().rank());
    }
}

/// The subtree under `d` is in `b` what it was in `a`: a search tree for
/// the given range that owns the same nodes and holds the same values.
pub open spec fn kept<K: Increment, V: Copy>(
    a: Seq<Node<K, V>>,
    b: Seq<Node<K, V>>,
    d: int,
    lo: int,
    hi: int,
    g: nat,
) -> bool {
    &&& shaped(b, d, lo, hi, g)
    &&& b[d].t == a[d].t
    &&& forall|x: int| #[trigger] owns(b, d, g, x) == owns(a, d, g, x)
    &&& forall|q: int| #[trigger] lookup(b, d, g, q) == lookup(a, d, g, q)
}

/// The children of an internal node are in `b` what they were in `a` when
/// the arena has changed, for a search, at that node only. What they own
/// lies in the old arena and does not include the node.
pub proof fn lemma_kids_kept<K: Increment, V: Copy>(
    a: Seq<Node<K, V>>,
    b: Seq<Node<K, V>>,
    id: int,
    lo: int,
    hi: int,
    h: nat,
)
    requires
        shaped(a, id, lo, hi, h),
        a[id].t is Internal,
        a.len() <= b.len(),
        forall|x: int| 0 <= x < a.len() && x != id ==> alike(a[x], #[trigger] b[x]),
    ensures
        forall|i: int|
            0 <= i < a[id].values@.len() ==> kept(
                a,
                b,
                #[trigger] kid(a, id, i),
                low(a, id, lo, i),
                a[id].values@[i].rank(),
                (h - 1) as nat,
            ),
        forall|i: int, x: int|
            0 <= i < a[id].values@.len() && #[trigger] owns(a, kid(a, id, i), (h - 1) as nat, x)
                ==> 0 <= x < a.len() && x != id,
{
    let s = a[id].values@;
    let g = (h - 1) as nat;
    assert forall|i: int, x: int|
        0 <= i < s.len() && #[trigger] owns(a, kid(a, id, i), g, x) implies 0 <= x < a.len() && x
        != id by {
        assert(shaped(a, s[i].child() as int, low(a, id, lo, i), s[i].rank(), g));
        lemma_owned_in_arena(a, s[i].child() as int, low(a, id, lo, i), s[i].rank(), g, x);
        assert(!owns(a, s[i].child() as int, g, id));
    }
    assert forall|i: int| 0 <= i < s.len() implies kept(
        a,
        b,
        #[trigger] kid(a, id, i),
        low(a, id, lo, i),
        s[i].rank(),
        g,
    ) by {
        let d = s[i].child() as int;
        assert(shaped(a, d, low(a, id, lo, i), s[i].rank(), g));
        assert forall|x: int| owns(a, d, g, x) implies alike(a[x], #[trigger] b[x]) by {
            assert(owns(a, kid(a, id, i), g, x));
        }
        lemma_frame(a, b, d, low(a, id, lo, i), s[i].rank(), g);
        assert(owns(a, d, g, d));
    }
}

/// When the arena changes only under child `j` of an internal node, and
/// that child is still a subtree for its range, the node is still a subtree
/// for its own: it owns what the child owns now and what its other children
/// owned before, and searches that are not routed to child `j` find what
/// they found before.
pub proof fn lemma_child_replaced<K: Increment, V: Copy>(
    a: Seq<Node<K, V>>,
    b: Seq<Node<K, V>>,
    id: int,
    lo: int,
    hi: int,
    h: nat,
    j: int,
)
    requires
        shaped(a, id, lo, hi, h),
        a[id].t is Internal,
        0 <= j < a[id].values@.len(),
        a.len() <= b.len(),
        forall|x: int|
            0 <= x < a.len() && !owns(a, a[id].values@[j].child() as int, (h - 1) as nat, x)
                ==> alike(a[x], #[trigger] b[x]),
        shaped(
            b,
            a[id].values@[j].child() as int,
            low(a, id, lo, j),
            a[id].values@[j].rank(),
            (h - 1) as nat,
        ),
        forall|x: int|
            #[trigger] owns(b, a[id].values@[j].child() as int, (h - 1) as nat, x) ==> owns(
                a,
                a[id].values@[j].child() as int,
                (h - 1) as nat,
                x,
            ) || a.len() <= x,
        b[a[id].values@[j].child() as int].t == a[a[id].values@[j].child() as int].t,
    ensures
        shaped(b, id, lo, hi, h),
        forall|x: int|
            #[trigger] owns(b, id, h, x)
                <==> owns(b, a[id].values@[j].child() as int, (h - 1) as nat, x) || (
            owns(a, id, h, x) && !owns(a, a[id].values@[j].child() as int, (h - 1) as nat, x)),
        forall|q: int|
            #[trigger] lookup(b, id, h, q) == if above(a[id].values@, q) == j {
                lookup(b, a[id].values@[j].child() as int, (h - 1) as nat, q)
            } else {
                lookup(a, id, h, q)
            },
{
    let s = a[id].values@;
    let g = (h - 1) as nat;
    let c = s[j].child() as int;
    assert(!owns(a, c, g, id));
    assert(alike(a[id], b[id]));
    assert(b[id].values@ == s);
    assert forall|i: int| 0 <= i < s.len() && i != j implies shaped(
        b,
        (#[trigger] s[i]).child() as int,
        low(b, id, lo, i),
        s[i].rank(),
        g,
    ) && (forall|x: int| owns(b, s[i].child() as int, g, x) == owns(a, s[i].child() as int, g, x))
        && (forall|r: int|
        lookup(b, s[i].child() as int, g, r) == lookup(a, s[i].child() as int, g, r))
            && b[s[i].child() as int].t
        == a[s[i].child() as int].t by {
        let d = s[i].child() as int;
        assert(shaped(a, d, low(a, id, lo, i), s[i].rank(), g));
        assert forall|x: int| owns(a, d, g, x) implies alike(a[x], #[trigger] b[x]) by {
            lemma_owned_in_arena(a, d, low(a, id, lo, i), s[i].rank(), g, x);
            if i < j {
                assert(!(owns(a, s[i].child() as int, g, x) && owns(a, s[j].child() as int, g, x)));
            } else {
                assert(!(owns(a, s[j].child() as int, g, x) && owns(a, s[i].child() as int, g, x)));
            }
        }
        lemma_frame(a, b, d, low(a, id, lo, i), s[i].rank(), g);
        assert(owns(a, d, g, d));
        if i < j {
            assert(!(owns(a, s[i].child() as int, g, d) && owns(a, s[j].child() as int, g, d)));
        } else {
            assert(!(owns(a, s[j].child() as int, g, d) && owns(a, s[i].child() as int, g, d)));
        }
    }
    assert forall|i: int| 0 <= i < s.len() implies shaped(
        b,
        (#[trigger] b[id].values@[i]).child() as int,
        low(b, id, lo, i),
        b[id].values@[i].rank(),
        g,
    ) by {}
    assert forall|i: int| 0 <= i < s.len() implies !owns(
        b,
        (#[trigger] b[id].values@[i]).child() as int,
        g,
        id,
    ) by {
        assert(!owns(a, s[i].child() as int, g, id));
    }
    assert forall|i1: int, i2: int, x: int| 0 <= i1 < i2 < s.len() implies !(#[trigger] owns(
        b,
        b[id].values@[i1].child() as int,
        g,
        x,
    ) && #[trigger] owns(b, b[id].values@[i2].child() as int, g, x)) by {
        if owns(b, s[i1].child() as int, g, x) && owns(b, s[i2].child() as int, g, x) {
            assert(!(owns(a, s[i1].child() as int, g, x) && owns(a, s[i2].child() as int, g, x)));
            if i1 == j {
                assert(owns(a, s[i2].child() as int, g, x));
                lemma_owned_in_arena(a, s[i2].child() as int, low(a, id, lo, i2), s[i2].rank(), g,
                    x);
            } else if i2 == j {
                assert(owns(a, s[i1].child() as int, g, x));
                lemma_owned_in_arena(a, s[i1].child() as int, low(a, id, lo, i1), s[i1].rank(), g,
                    x);
            }
        }
    }
    assert forall|i: int| 0 <= i < s.len() implies b[(#[trigger] b[id].values@[i]).child() as int].t
        == b[b[id].values@[0].child() as int].t by {
        assert(a[s[i].child() as int].t == a[s[0].child() as int].t);
        assert(b[s[0].child() as int].t == a[s[0].child() as int].t);
    }
    assert(shaped(b, id, lo, hi, h));
    assert forall|x: int|
        #[trigger] owns(b, id, h, x) <==> owns(b, c, g, x) || (owns(a, id, h, x)
            && !owns(a, c, g, x)) by {
        assert(owns(b, c, g, x) ==> owns(b, b[id].values@[j].child() as int, g, x));
        if owns(b, id, h, x) && x != id {
            let i = choose|i: int|
                0 <= i < s.len() && owns(b, (#[trigger] b[id].values@[i]).child() as int, g, x);
            if i != j {
                assert(owns(a, s[i].child() as int, g, x));
                if i < j {
                    assert(!(owns(a, s[i].child() as int, g, x) && owns(
                        a,
                        s[j].child() as int,
                        g,
                        x,
                    )));
                } else {
                    assert(!(owns(a, s[j].child() as int, g, x) && owns(
                        a,
                        s[i].child() as int,
                        g,
                        x,
                    )));
                }
            }
        }
        if owns(a, id, h, x) && !owns(a, c, g, x) && x != id {
            let i = choose|i: int|
                0 <= i < s.len() && owns(a, (#[trigger] s[i]).child() as int, g, x);
            assert(owns(b, b[id].values@[i].child() as int, g, x));
        }
    }
    assert forall|q: int|
        #[trigger] lookup(b, id, h, q) == if above(s, q) == j {
            lookup(b, c, g, q)
        } else {
            lookup(a, id, h, q)
        } by {
        lemma_above(s, q);
        let i = above(s, q);
        if i < s.len() && i != j {
            assert(lookup(b, s[i].child() as int, g, q) == lookup(a, s[i].child() as int, g, q));
        }
    }
}

/// Every node carries the tree's fanout and split threshold and keeps
/// within the limit.
pub open spec fn tidy<K: Increment, V: Copy>(
    a: Seq<Node<K, V>>,
    max: usize,
    threshold: usize,
) -> bool {
    forall|x: int|
        0 <= x < a.len() ==> (#[trigger] a[x]).max == max && a[x].threshold == threshold
            && a[x].values@.len() <= limit(threshold)
}

/// The nodes of `a` keep their kind and their root flag in `b`, and no node
/// that `b` has beyond them is flagged.
pub open spec fn flags_kept<K: Increment, V: Copy>(a: Seq<Node<K, V>>, b: Seq<Node<K, V>>) -> bool {
    forall|x: int|
        0 <= x < b.len() ==> (#[trigger] b[x]).is_root == (x < a.len() && a[x].is_root) && (x
            < a.len() ==> b[x].t == a[x].t)
}

/// Arena `b` is arena `a` after rank `r` was given value `v` under `id`,
/// with the subtree still under one node: it covers the same range, owns
/// what it owned and every node that was added, nothing outside of it has
/// changed, and a search finds `v` for `r` and otherwise what it found.
pub open spec fn inserted_one<K: Increment, V: Copy>(
    a: Seq<Node<K, V>>,
    b: Seq<Node<K, V>>,
    id: int,
    lo: int,
    hi: int,
    h: nat,
    r: int,
    v: V,
) -> bool {
    &&& a.len() <= b.len()
    &&& shaped(b, id, lo, hi, h)
    &&& b[id].t == a[id].t
    &&& forall|x: int| 0 <= x < a.len() && !owns(a, id, h, x) ==> #[trigger] b[x] == a[x]
    &&& forall|x: int| #[trigger] owns(b, id, h, x) ==> owns(a, id, h, x) || a.len() <= x
    &&& forall|x: int| #[trigger] owns(a, id, h, x) ==> owns(b, id, h, x)
    &&& forall|x: int| a.len() <= x < b.len() ==> #[trigger] owns(b, id, h, x)
    &&& forall|q: int|
        #[trigger] lookup(b, id, h, q) == if q == r {
            Some(v)
        } else {
            lookup(a, id, h, q)
        }
}

/// Arena `b` is arena `a` after rank `r` was given value `v` under `id`
/// and the node `id` was split: the lower half stays under `id` and ends at
/// that node's bound, the upper half is under the new node `sib`. Together
/// they own what `id` owned and every node that was added, they share
/// nothing, nothing outside of them has changed, and a search in the half
/// that a rank belongs to finds `v` for `r` and otherwise what it found.
pub open spec fn inserted_two<K: Increment, V: Copy>(
    a: Seq<Node<K, V>>,
    b: Seq<Node<K, V>>,
    id: int,
    sib: int,
    lo: int,
    hi: int,
    h: nat,
    r: int,
    v: V,
) -> bool {
    &&& a.len() <= sib < b.len()
    &&& 0 <= id < a.len()
    &&& b[id].values@.len() > 0
    &&& b[sib].values@.len() > 0
    &&& shaped(b, id, lo, b[id].bound(), h)
    &&& shaped(b, sib, b[id].bound(), hi, h)
    &&& b[id].t == a[id].t
    &&& b[sib].t == a[id].t
    &&& forall|x: int| 0 <= x < a.len() && !owns(a, id, h, x) ==> #[trigger] b[x] == a[x]
    &&& forall|x: int| #[trigger] owns(b, id, h, x) ==> owns(a, id, h, x) || a.len() <= x
    &&& forall|x: int| #[trigger] owns(b, sib, h, x) ==> owns(a, id, h, x) || a.len() <= x
    &&& forall|x: int| #[trigger] owns(a, id, h, x) ==> owns(b, id, h, x) || owns(b, sib, h, x)
    &&& forall|x: int|
        a.len() <= x < b.len() ==> #[trigger] owns(b, id, h, x) || owns(b, sib, h, x)
    &&& forall|x: int| !(#[trigger] owns(b, id, h, x) && owns(b, sib, h, x))
    &&& forall|q: int|
        (if q < b[id].bound() {
            #[trigger] lookup(b, id, h, q)
        } else {
            lookup(b, sib, h, q)
        }) == if q == r {
            Some(v)
        } else {
            lookup(a, id, h, q)
        }
}

/// Arena `b` is arena `a` after the node `id` handed the upper half of its
/// slots to the new node `sib`: the two are subtrees for the ranges below
/// and from the bound of `id`, they own together what `id` owned and the
/// new node, they share nothing, and a search in the half that a rank
/// belongs to finds what it found under `id`.
pub open spec fn halved<K: Increment, V: Copy>(
    a: Seq<Node<K, V>>,
    b: Seq<Node<K, V>>,
    id: int,
    sib: int,
    lo: int,
    hi: int,
    h: nat,
) -> bool {
    &&& sib == a.len()
    &&& b.len() == a.len() + 1
    &&& 0 <= id < a.len()
    &&& b[id].values@.len() > 0
    &&& b[sib].values@.len() > 0
    &&& shaped(b, id, lo, b[id].bound(), h)
    &&& shaped(b, sib, b[id].bound(), hi, h)
    &&& b[id].t == a[id].t
    &&& b[sib].t == a[id].t
    &&& forall|x: int| 0 <= x < a.len() && x != id ==> #[trigger] b[x] == a[x]
    &&& forall|x: int| #[trigger] owns(b, id, h, x) ==> owns(a, id, h, x)
    &&& forall|x: int| #[trigger] owns(b, sib, h, x) ==> owns(a, id, h, x) || x == sib
    &&& forall|x: int| #[trigger] owns(a, id, h, x) ==> owns(b, id, h, x) || owns(b, sib, h, x)
    &&& forall|x: int| !(#[trigger] owns(b, id, h, x) && owns(b, sib, h, x))
    &&& forall|q: int|
        (if q < b[id].bound() {
            #[trigger] lookup(b, id, h, q)
        } else {
            lookup(b, sib, h, q)
        }) == lookup(a, id, h, q)
}

/// Moving the slots from the median on to a new node of the same kind at
/// the end of the arena halves the subtree.
pub proof fn lemma_split<K: Increment, V: Copy>(
    a: Seq<Node<K, V>>,
    b: Seq<Node<K, V>>,
    id: int,
    lo: int,
    hi: int,
    h: nat,
)
    requires
        shaped(a, id, lo, hi, h),
        a[id].values@.len() >= 2,
        b.len() == a.len() + 1,
        forall|x: int| 0 <= x < a.len() && x != id ==> #[trigger] b[x] == a[x],
        b[id].t == a[id].t,
        b[a.len() as int].t == a[id].t,
        b[id].wf(),
        b[a.len() as int].wf(),
        b[id].values@ == a[id].values@.subrange(0, a[id].values@.len() as int / 2),
        b[a.len() as int].values@ == a[id].values@.subrange(
            a[id].values@.len() as int / 2,
            a[id].values@.len() as int,
        ),
    ensures
        halved(a, b, id, a.len() as int, lo, hi, h),
{
    if a[id].t is Leaf {
        lemma_split_leaf(a, b, id, lo, hi, h);
    } else {
        lemma_split_lower(a, b, id, lo, hi, h);
        lemma_split_upper(a, b, id, lo, hi, h);
        lemma_split_lookup(a, b, id, lo, hi, h);
        let sib = a.len() as int;
        assert forall|x: int| !(#[trigger] owns(b, id, h, x) && owns(b, sib, h, x)) by {
            if owns(b, id, h, x) && owns(b, sib, h, x) {
                assert(under_run(a, id, h, 0, a[id].values@.len() as int / 2, x) || x == id);
                assert(under_run(
                    a,
                    id,
                    h,
                    a[id].values@.len() as int / 2,
                    a[id].values@.len() as int,
                    x,
                ) || x == sib);
                lemma_runs_apart(a, id, lo, hi, h, a[id].values@.len() as int / 2, x);
                lemma_owned_in_arena(a, id, lo, hi, h, x);
            }
        }
        assert forall|x: int| #[trigger] owns(a, id, h, x) implies owns(b, id, h, x) || owns(
            b,
            sib,
            h,
            x,
        ) by {
            let s = a[id].values@;
            if x != id {
                let i = choose|i: int|
                    0 <= i < s.len()
                        && owns(a, (#[trigger] s[i]).child() as int, (h - 1) as nat, x);
                assert(owns(a, kid(a, id, i), (h - 1) as nat, x));
                if i < s.len() as int / 2 {
                    assert(under_run(a, id, h, 0, s.len() as int / 2, x));
                } else {
                    assert(under_run(a, id, h, s.len() as int / 2, s.len() as int, x));
                }
            }
        }
    }
}

/// Whether one of the children `from` up to, but not including, `to` of
/// the node `id` reaches node `x`.
pub open spec fn under_run<K: Increment, V: Copy>(
    a: Seq<Node<K, V>>,
    id: int,
    h: nat,
    from: int,
    to: int,
    x: int,
) -> bool {
    exists|i: int| from <= i < to && owns(a, #[trigger] kid(a, id, i), (h - 1) as nat, x)
}

/// No node lies both under the children before `m` and under the children
/// from `m` on, and the node itself lies under none of them.
pub proof fn lemma_runs_apart<K: Increment, V: Copy>(
    a: Seq<Node<K, V>>,
    id: int,
    lo: int,
    hi: int,
    h: nat,
    m: int,
    x: int,
)
    requires
        shaped(a, id, lo, hi, h),
        a[id].t is Internal,
        0 <= m <= a[id].values@.len(),
    ensures
        !(under_run(a, id, h, 0, m, x) && under_run(a, id, h, m, a[id].values@.len() as int, x)),
        !under_run(a, id, h, 0, a[id].values@.len() as int, id),
{
    let s = a[id].values@;
    let g = (h - 1) as nat;
    if under_run(a, id, h, 0, m, x) && under_run(a, id, h, m, s.len() as int, x) {
        let i1 = choose|i: int| 0 <= i < m && owns(a, #[trigger] kid(a, id, i), g, x);
        let i2 = choose|i: int| m <= i < s.len() && owns(a, #[trigger] kid(a, id, i), g, x);
        assert(!(owns(a, s[i1].child() as int, g, x) && owns(a, s[i2].child() as int, g, x)));
    }
    if under_run(a, id, h, 0, s.len() as int, id) {
        let i = choose|i: int| 0 <= i < s.len() && owns(a, #[trigger] kid(a, id, i), g, id);
        assert(!owns(a, s[i].child() as int, g, id));
    }
}

/// The halves of a split leaf.
proof fn lemma_split_leaf<K: Increment, V: Copy>(
    a: Seq<Node<K, V>>,
    b: Seq<Node<K, V>>,
    id: int,
    lo: int,
    hi: int,
    h: nat,
)
    requires
        shaped(a, id, lo, hi, h),
        a[id].t is Leaf,
        a[id].values@.len() >= 2,
        b.len() == a.len() + 1,
        forall|x: int| 0 <= x < a.len() && x != id ==> #[trigger] b[x] == a[x],
        b[id].t == a[id].t,
        b[a.len() as int].t == a[id].t,
        b[id].wf(),
        b[a.len() as int].wf(),
        b[id].values@ == a[id].values@.subrange(0, a[id].values@.len() as int / 2),
        b[a.len() as int].values@ == a[id].values@.subrange(
            a[id].values@.len() as int / 2,
            a[id].values@.len() as int,
        ),
    ensures
        halved(a, b, id, a.len() as int, lo, hi, h),
{
    let s = a[id].values@;
    let m = s.len() as int / 2;
    let sib = a.len() as int;
    let ls = b[id].values@;
    let us = b[sib].values@;
    let bnd = b[id].bound();
    assert(ls.last() == s[m - 1]);
    assert(lo <= s[m - 1].rank() < hi);
    assert(lo <= s[m].rank() < hi);
    assert(s[m - 1].rank() < s[m].rank());
    assert forall|i: int| 0 <= i < ls.len() implies lo <= (#[trigger] ls[i]).rank() < bnd by {
        assert(ls[i] == s[i]);
        assert(lo <= s[i].rank() < hi);
        if i < m - 1 {
            assert(s[i].rank() < s[m - 1].rank());
        }
    }
    assert forall|i: int| 0 <= i < us.len() implies bnd <= (#[trigger] us[i]).rank() < hi by {
        assert(us[i] == s[i + m]);
        assert(lo <= s[i + m].rank() < hi);
        assert(s[m - 1].rank() < s[i + m].rank());
    }
    assert forall|q: int|
        (if q < bnd {
            #[trigger] lookup(b, id, h, q)
        } else {
            lookup(b, sib, h, q)
        }) == lookup(a, id, h, q) by {
        lemma_above_split(s, m, q);
    }
}

/// The lower half of a split internal node is a search tree up to its new
/// bound that owns what the children before the median own.
#[verifier::rlimit(80)]
proof fn lemma_split_lower<K: Increment, V: Copy>(
    a: Seq<Node<K, V>>,
    b: Seq<Node<K, V>>,
    id: int,
    lo: int,
    hi: int,
    h: nat,
)
    requires
        shaped(a, id, lo, hi, h),
        a[id].t is Internal,
        a[id].values@.len() >= 2,
        a.len() < b.len(),
        forall|x: int| 0 <= x < a.len() && x != id ==> #[trigger] b[x] == a[x],
        b[id].t == a[id].t,
        b[id].wf(),
        b[id].values@ == a[id].values@.subrange(0, a[id].values@.len() as int / 2),
    ensures
        b[id].values@.len() > 0,
        b[id].bound() == a[id].values@[a[id].values@.len() as int / 2 - 1].rank(),
        shaped(b, id, lo, b[id].bound(), h),
        forall|x: int|
            #[trigger] owns(b, id, h, x) <==> x == id || under_run(
                a,
                id,
                h,
                0,
                a[id].values@.len() as int / 2,
                x,
            ),
        forall|x: int| #[trigger] owns(b, id, h, x) ==> owns(a, id, h, x),
{
    let s = a[id].values@;
    let m = s.len() as int / 2;
    let ls = b[id].values@;
    let g = (h - 1) as nat;
    lemma_kids_kept(a, b, id, lo, hi, h);
    assert(ls.last() == s[m - 1]);
    assert(shaped(a, s[0].child() as int, lo, s[0].rank(), g));
    assert(s[0].rank() <= s[m - 1].rank());
    assert forall|i: int| 0 <= i < ls.len() implies (#[trigger] ls[i]) == s[i]
        && ls[i].child() as int
        == kid(a, id, i) by {}
    assert forall|i: int| 0 <= i < ls.len() implies shaped(
        b,
        (#[trigger] ls[i]).child() as int,
        low(b, id, lo, i),
        ls[i].rank(),
        g,
    ) by {
        assert(ls[i] == s[i]);
        if i > 0 {
            assert(ls[i - 1] == s[i - 1]);
        }
        assert(kept(a, b, kid(a, id, i), low(a, id, lo, i), s[i].rank(), g));
    }
    assert forall|i: int| 0 <= i < ls.len() implies b[(#[trigger] ls[i]).child() as int].t
        == b[ls[0].child() as int].t by {
        assert(ls[0] == s[0]);
        assert(kept(a, b, kid(a, id, i), low(a, id, lo, i), s[i].rank(), g));
        assert(kept(a, b, kid(a, id, 0), low(a, id, lo, 0), s[0].rank(), g));
        assert(a[s[i].child() as int].t == a[s[0].child() as int].t);
    }
    assert forall|i: int, x: int|
        0 <= i < ls.len() && #[trigger] owns(b, ls[i].child() as int, g, x) implies owns(
        a,
        kid(a, id, i),
        g,
        x,
    ) && x != id by {
        assert(kept(a, b, kid(a, id, i), low(a, id, lo, i), s[i].rank(), g));
    }
    assert forall|i: int| 0 <= i < ls.len() implies !owns(
        b,
        (#[trigger] ls[i]).child() as int,
        g,
        id,
    ) by {}
    assert forall|i1: int, i2: int, x: int| 0 <= i1 < i2 < ls.len() implies !(#[trigger] owns(
        b,
        ls[i1].child() as int,
        g,
        x,
    ) && #[trigger] owns(b, ls[i2].child() as int, g, x)) by {
        assert(!(owns(a, s[i1].child() as int, g, x) && owns(a, s[i2].child() as int, g, x)));
    }
    assert(shaped(b, id, lo, b[id].bound(), h));
    assert forall|x: int|
        #[trigger] owns(b, id, h, x) <==> x == id || under_run(a, id, h, 0, m, x) by {
        if owns(b, id, h, x) && x != id {
            let i = choose|i: int|
                0 <= i < ls.len() && owns(b, (#[trigger] ls[i]).child() as int, g, x);
            assert(owns(a, kid(a, id, i), g, x));
        }
        if under_run(a, id, h, 0, m, x) {
            let i = choose|i: int| 0 <= i < m && owns(a, #[trigger] kid(a, id, i), g, x);
            assert(kept(a, b, kid(a, id, i), low(a, id, lo, i), s[i].rank(), g));
            assert(owns(b, ls[i].child() as int, g, x));
        }
    }
    assert forall|x: int| #[trigger] owns(b, id, h, x) implies owns(a, id, h, x) by {
        if x != id {
            let i = choose|i: int| 0 <= i < m && owns(a, #[trigger] kid(a, id, i), g, x);
            assert(owns(a, s[i].child() as int, g, x));
        }
    }
}

/// The upper half of a split internal node is a search tree from the
/// median's lower end on that owns what the children from the median on
/// own.
#[verifier::rlimit(80)]
proof fn lemma_split_upper<K: Increment, V: Copy>(
    a: Seq<Node<K, V>>,
    b: Seq<Node<K, V>>,
    id: int,
    lo: int,
    hi: int,
    h: nat,
)
    requires
        shaped(a, id, lo, hi, h),
        a[id].t is Internal,
        a[id].values@.len() >= 2,
        b.len() == a.len() + 1,
        forall|x: int| 0 <= x < a.len() && x != id ==> #[trigger] b[x] == a[x],
        b[a.len() as int].t == a[id].t,
        b[a.len() as int].wf(),
        b[a.len() as int].values@ == a[id].values@.subrange(
            a[id].values@.len() as int / 2,
            a[id].values@.len() as int,
        ),
    ensures
        b[a.len() as int].values@.len() > 0,
        shaped(
            b,
            a.len() as int,
            a[id].values@[a[id].values@.len() as int / 2 - 1].rank(),
            hi,
            h,
        ),
        forall|x: int|
            #[trigger] owns(b, a.len() as int, h, x) <==> x == a.len() || under_run(
                a,
                id,
                h,
                a[id].values@.len() as int / 2,
                a[id].values@.len() as int,
                x,
            ),
        forall|x: int| #[trigger] owns(b, a.len() as int, h, x) ==> owns(a, id, h, x) || x
            == a.len(),
{
    let s = a[id].values@;
    let n = s.len() as int;
    let m = n / 2;
    let sib = a.len() as int;
    let us = b[sib].values@;
    let g = (h - 1) as nat;
    let bnd = s[m - 1].rank();
    lemma_kids_kept(a, b, id, lo, hi, h);
    assert(us.last() == s[n - 1]);
    assert(s.last() == s[n - 1]);
    assert(s[m - 1].rank() < s[m].rank());
    assert(s[m].rank() <= s[n - 1].rank());
    assert forall|i: int| 0 <= i < us.len() implies (#[trigger] us[i]) == s[i + m]
        && us[i].child() as int
        == kid(a, id, i + m) by {}
    assert forall|i: int| 0 <= i < us.len() implies shaped(
        b,
        (#[trigger] us[i]).child() as int,
        low(b, sib, bnd, i),
        us[i].rank(),
        g,
    ) by {
        assert(us[i] == s[i + m]);
        if i > 0 {
            assert(us[i - 1] == s[i + m - 1]);
        }
        assert(kept(a, b, kid(a, id, i + m), low(a, id, lo, i + m), s[i + m].rank(), g));
    }
    assert forall|i: int| 0 <= i < us.len() implies b[(#[trigger] us[i]).child() as int].t
        == b[us[0].child() as int].t by {
        assert(us[0] == s[m]);
        assert(kept(a, b, kid(a, id, i + m), low(a, id, lo, i + m), s[i + m].rank(), g));
        assert(kept(a, b, kid(a, id, m), low(a, id, lo, m), s[m].rank(), g));
        assert(a[s[i + m].child() as int].t == a[s[0].child() as int].t);
        assert(a[s[m].child() as int].t == a[s[0].child() as int].t);
    }
    assert forall|i: int, x: int|
        0 <= i < us.len() && #[trigger] owns(b, us[i].child() as int, g, x) implies owns(
        a,
        kid(a, id, i + m),
        g,
        x,
    ) && x != sib by {
        assert(kept(a, b, kid(a, id, i + m), low(a, id, lo, i + m), s[i + m].rank(), g));
    }
    assert forall|i: int| 0 <= i < us.len() implies !owns(
        b,
        (#[trigger] us[i]).child() as int,
        g,
        sib,
    ) by {}
    assert forall|i1: int, i2: int, x: int| 0 <= i1 < i2 < us.len() implies !(#[trigger] owns(
        b,
        us[i1].child() as int,
        g,
        x,
    ) && #[trigger] owns(b, us[i2].child() as int, g, x)) by {
        assert(!(owns(a, s[i1 + m].child() as int, g, x)
            && owns(a, s[i2 + m].child() as int, g, x)));
    }
    assert(shaped(b, sib, bnd, hi, h));
    assert forall|x: int|
        #[trigger] owns(b, sib, h, x) <==> x == sib || under_run(a, id, h, m, n, x) by {
        if owns(b, sib, h, x) && x != sib {
            let i = choose|i: int|
                0 <= i < us.len() && owns(b, (#[trigger] us[i]).child() as int, g, x);
            assert(owns(a, kid(a, id, i + m), g, x));
        }
        if under_run(a, id, h, m, n, x) {
            let i = choose|i: int| m <= i < n && owns(a, #[trigger] kid(a, id, i), g, x);
            assert(kept(a, b, kid(a, id, i), low(a, id, lo, i), s[i].rank(), g));
            assert(us[i - m] == s[i]);
            assert(owns(b, us[i - m].child() as int, g, x));
        }
    }
    assert forall|x: int| #[trigger] owns(b, sib, h, x) implies owns(a, id, h, x) || x == sib by {
        if x != sib {
            let i = choose|i: int| m <= i < n && owns(a, #[trigger] kid(a, id, i), g, x);
            assert(owns(a, s[i].child() as int, g, x));
        }
    }
}

/// A search in the half of a split internal node that a rank belongs to
/// finds what it found in the whole node.
proof fn lemma_split_lookup<K: Increment, V: Copy>(
    a: Seq<Node<K, V>>,
    b: Seq<Node<K, V>>,
    id: int,
    lo: int,
    hi: int,
    h: nat,
)
    requires
        shaped(a, id, lo, hi, h),
        a[id].t is Internal,
        a[id].values@.len() >= 2,
        b.len() == a.len() + 1,
        forall|x: int| 0 <= x < a.len() && x != id ==> #[trigger] b[x] == a[x],
        b[id].t == a[id].t,
        b[a.len() as int].t == a[id].t,
        b[id].values@ == a[id].values@.subrange(0, a[id].values@.len() as int / 2),
        b[a.len() as int].values@ == a[id].values@.subrange(
            a[id].values@.len() as int / 2,
            a[id].values@.len() as int,
        ),
    ensures
        forall|q: int|
            (if q < a[id].values@[a[id].values@.len() as int / 2 - 1].rank() {
                #[trigger] lookup(b, id, h, q)
            } else {
                lookup(b, a.len() as int, h, q)
            }) == lookup(a, id, h, q),
{
    let s = a[id].values@;
    let n = s.len() as int;
    let m = n / 2;
    let sib = a.len() as int;
    let ls = b[id].values@;
    let us = b[sib].values@;
    let g = (h - 1) as nat;
    let bnd = s[m - 1].rank();
    lemma_kids_kept(a, b, id, lo, hi, h);
    assert forall|q: int|
        (if q < bnd {
            #[trigger] lookup(b, id, h, q)
        } else {
            lookup(b, sib, h, q)
        }) == lookup(a, id, h, q) by {
        lemma_above_split(s, m, q);
        lemma_above(s, q);
        let p = above(s, q);
        if q < bnd {
            assert(ls[p] == s[p]);
            assert(kept(a, b, kid(a, id, p), low(a, id, lo, p), s[p].rank(), g));
            assert(lookup(b, kid(a, id, p), g, q) == lookup(a, kid(a, id, p), g, q));
            assert(lookup(b, id, h, q) == lookup(b, ls[p].child() as int, g, q));
        } else if p < n {
            assert(us[p - m] == s[p]);
            assert(kept(a, b, kid(a, id, p), low(a, id, lo, p), s[p].rank(), g));
            assert(lookup(b, kid(a, id, p), g, q) == lookup(a, kid(a, id, p), g, q));
            assert(lookup(b, sib, h, q) == lookup(b, us[p - m].child() as int, g, q));
        } else {
            assert(above(us, q) == us.len());
        }
    }
}

} // verus!
