//! Why an internal node is still a search tree after one of its children
//! was split below it and both halves were filed under their bounds.

use vstd::prelude::*;
use crate::increment::Increment;
use crate::layout::{
    alike, inserted_one, inserted_two, kept, kid, lemma_frame, lemma_owned_in_arena, lemma_range,
    lemma_tighten, lemma_widen, lookup, low, owns, shaped,
};
use crate::node::Node;
use crate::run::{above, ascending, lemma_above, lemma_above_unique};
use crate::slot::{Either, Slot};

verus! {

/// The slots of a node after the separator at `j` was overwritten by `sl`
/// and `os` was put right behind it.
pub open spec fn filed<K: Increment, V: Copy>(
    s: Seq<Slot<K, V>>,
    j: int,
    sl: Slot<K, V>,
    os: Slot<K, V>,
) -> Seq<Slot<K, V>> {
    s.update(j, sl).insert(j + 1, os)
}

/// Where the slots stand after filing, and that they still ascend when the
/// two new keys lie, in order, between the separator before `j` and the old
/// separator at `j`, which the second may equal.
pub proof fn lemma_filed_order<K: Increment, V: Copy>(
    s: Seq<Slot<K, V>>,
    j: int,
    sl: Slot<K, V>,
    os: Slot<K, V>,
)
    requires
        ascending(s),
        0 <= j < s.len(),
        j > 0 ==> s[j - 1].rank() < sl.rank(),
        sl.rank() < os.rank() <= s[j].rank(),
    ensures
        filed(s, j, sl, os).len() == s.len() + 1,
        forall|i: int| 0 <= i < j ==> #[trigger] filed(s, j, sl, os)[i] == s[i],
        filed(s, j, sl, os)[j] == sl,
        filed(s, j, sl, os)[j + 1] == os,
        forall|i: int| j + 1 < i <= s.len() ==> #[trigger] filed(s, j, sl, os)[i] == s[i - 1],
        ascending(filed(s, j, sl, os)),
{
    let t = filed(s, j, sl, os);
    assert forall|i: int| 0 <= i < j implies #[trigger] t[i] == s[i] by {}
    assert forall|i: int| j + 1 < i <= s.len() implies #[trigger] t[i] == s[i - 1] by {}
    assert forall|k: int, l: int| 0 <= k < l < t.len() implies t[k].rank() < t[l].rank() by {
        let rk = if k < j {
            s[k].rank()
        } else if k == j {
            sl.rank()
        } else if k == j + 1 {
            os.rank()
        } else {
            s[k - 1].rank()
        };
        let rl = if l < j {
            s[l].rank()
        } else if l == j {
            sl.rank()
        } else if l == j + 1 {
            os.rank()
        } else {
            s[l - 1].rank()
        };
        assert(t[k].rank() == rk);
        assert(t[l].rank() == rl);
        if k < j {
            assert(s[k].rank() <= s[j - 1].rank());
        }
        if l > j + 1 {
            assert(s[j].rank() < s[l - 1].rank());
        }
        if k < j && l < j {
            assert(s[k].rank() < s[l].rank());
        }
        if k > j + 1 {
            assert(s[k - 1].rank() < s[l - 1].rank());
        }
    }
}

/// Where a rank finds its place among the slots after filing.
pub proof fn lemma_filed_above<K: Increment, V: Copy>(
    s: Seq<Slot<K, V>>,
    j: int,
    sl: Slot<K, V>,
    os: Slot<K, V>,
    q: int,
)
    requires
        ascending(s),
        0 <= j < s.len(),
        j > 0 ==> s[j - 1].rank() < sl.rank(),
        sl.rank() < os.rank() <= s[j].rank(),
    ensures
        above(s, q) < j ==> above(filed(s, j, sl, os), q) == above(s, q),
        above(s, q) > j ==> above(filed(s, j, sl, os), q) == above(s, q) + 1,
        above(s, q) == j && q < sl.rank() ==> above(filed(s, j, sl, os), q) == j,
        above(s, q) == j && sl.rank() <= q < os.rank() ==> above(filed(s, j, sl, os), q) == j + 1,
        above(s, q) == j && os.rank() <= q ==> above(filed(s, j, sl, os), q) == j + 2,
{
    let t = filed(s, j, sl, os);
    lemma_filed_order(s, j, sl, os);
    lemma_above(s, q);
    let p = above(s, q);
    let place = if p < j {
        p
    } else if p > j {
        p + 1
    } else if q < sl.rank() {
        j
    } else if q < os.rank() {
        j + 1
    } else {
        j + 2
    };
    assert forall|i: int| 0 <= i < place implies (#[trigger] t[i]).rank() <= q by {
        if i < j {
            assert(t[i] == s[i]);
            if p <= i {
                assert(s[i].rank() <= s[j - 1].rank());
            }
        } else if i > j + 1 {
            assert(t[i] == s[i - 1]);
        }
    }
    assert forall|i: int| place <= i < t.len() implies (#[trigger] t[i]).rank() > q by {
        if i < j {
            assert(t[i] == s[i]);
        } else if i > j + 1 {
            assert(t[i] == s[i - 1]);
            if p <= j {
                assert(s[j].rank() <= s[i - 1].rank());
            }
        } else {
            if p < j {
                assert(s[p].rank() <= s[j - 1].rank());
            }
        }
    }
    lemma_above_unique(t, q, place);
}

/// The state of an internal node after rank `r` was given value `v` under
/// its child `j`, that child was split, and the halves were filed: the
/// child's separator overwritten by the child's new bound, and the new
/// sibling put behind it under the sibling's own bound.
///
/// `a` is the arena before the insertion, `m` after the insertion below,
/// `b` after the node's slots were filed.
pub open spec fn refiled<K: Increment, V: Copy>(
    a: Seq<Node<K, V>>,
    m: Seq<Node<K, V>>,
    b: Seq<Node<K, V>>,
    id: int,
    lo: int,
    hi: int,
    h: nat,
    j: int,
    sib: int,
    r: int,
    v: V,
    sl: Slot<K, V>,
    os: Slot<K, V>,
) -> bool {
    &&& shaped(a, id, lo, hi, h)
    &&& a[id].t is Internal
    &&& 0 <= j < a[id].values@.len()
    &&& j == above(a[id].values@, r)
    &&& lo <= r < hi
    &&& inserted_two(
        a,
        m,
        a[id].values@[j].child() as int,
        sib,
        low(a, id, lo, j),
        a[id].values@[j].rank(),
        (h - 1) as nat,
        r,
        v,
    )
    &&& b.len() == m.len()
    &&& forall|x: int| 0 <= x < m.len() && x != id ==> #[trigger] b[x] == m[x]
    &&& b[id].t == a[id].t
    &&& b[id].next == a[id].next
    &&& b[id].values@ == filed(a[id].values@, j, sl, os)
    &&& sl.rank() == m[a[id].values@[j].child() as int].bound()
    &&& sl.1 == Either::<V, usize>::Right(a[id].values@[j].child())
    &&& os.rank() == m[sib].bound()
    &&& os.1 == Either::<V, usize>::Right(sib as usize)
    &&& sib <= usize::MAX
}

/// After filing, every child of the node is a subtree for its new range:
/// the untouched children as before, the two halves as the insertion left
/// them, and the child behind them for a range that may begin earlier.
pub proof fn lemma_filed_kids<K: Increment, V: Copy>(
    a: Seq<Node<K, V>>,
    m: Seq<Node<K, V>>,
    b: Seq<Node<K, V>>,
    id: int,
    lo: int,
    hi: int,
    h: nat,
    j: int,
    sib: int,
    r: int,
    v: V,
    sl: Slot<K, V>,
    os: Slot<K, V>,
)
    requires
        refiled(a, m, b, id, lo, hi, h, j, sib, r, v, sl, os),
    ensures
        m[id] == a[id],
        low(a, id, lo, j) < sl.rank() < os.rank() <= a[id].values@[j].rank(),
        forall|i: int|
            0 <= i < a[id].values@.len() && i != j ==> kept(
                a,
                b,
                #[trigger] kid(a, id, i),
                low(a, id, lo, i),
                a[id].values@[i].rank(),
                (h - 1) as nat,
            ),
        kept(m, b, kid(a, id, j), low(a, id, lo, j), sl.rank(), (h - 1) as nat),
        kept(m, b, sib, sl.rank(), os.rank(), (h - 1) as nat),
        j + 1 < a[id].values@.len() ==> shaped(
            b,
            kid(a, id, j + 1),
            os.rank(),
            a[id].values@[j + 1].rank(),
            (h - 1) as nat,
        ),
        forall|i: int, x: int|
            0 <= i < a[id].values@.len() && #[trigger] owns(a, kid(a, id, i), (h - 1) as nat, x)
                ==> 0 <= x < a.len() && x != id,
{
    let s = a[id].values@;
    let n = s.len() as int;
    let g = (h - 1) as nat;
    let c = s[j].child() as int;
    let lj = low(a, id, lo, j);
    let kj = s[j].rank();
    let bnd = m[c].bound();
    let k2 = m[sib].bound();
    assert(shaped(a, c, lj, kj, g));
    assert(!owns(a, c, g, id));
    assert(m[id] == a[id]);
    lemma_tighten(m, sib, bnd, kj, g);
    assert forall|i: int, x: int|
        0 <= i < n && #[trigger] owns(a, kid(a, id, i), g, x) implies 0 <= x < a.len() && x
        != id by {
        assert(shaped(a, s[i].child() as int, low(a, id, lo, i), s[i].rank(), g));
        lemma_owned_in_arena(a, s[i].child() as int, low(a, id, lo, i), s[i].rank(), g, x);
        assert(!owns(a, s[i].child() as int, g, id));
    }
    assert forall|i: int| 0 <= i < n && i != j implies kept(
        a,
        b,
        #[trigger] kid(a, id, i),
        low(a, id, lo, i),
        s[i].rank(),
        g,
    ) by {
        let d = s[i].child() as int;
        assert(shaped(a, d, low(a, id, lo, i), s[i].rank(), g));
        assert forall|x: int| owns(a, d, g, x) implies alike(a[x], #[trigger] b[x]) by {
            assert(owns(a, kid(a, id, i), g, x));
            if i < j {
                assert(!(owns(a, s[i].child() as int, g, x) && owns(a, s[j].child() as int, g, x)));
            } else {
                assert(!(owns(a, s[j].child() as int, g, x) && owns(a, s[i].child() as int, g, x)));
            }
            assert(m[x] == a[x]);
            assert(b[x] == m[x]);
        }
        lemma_frame(a, b, d, low(a, id, lo, i), s[i].rank(), g);
        assert(owns(a, d, g, d));
        assert(owns(a, kid(a, id, i), g, d));
    }
    assert forall|x: int| owns(m, c, g, x) implies alike(m[x], #[trigger] b[x]) by {
        lemma_owned_in_arena(m, c, lj, bnd, g, x);
    }
    lemma_frame(m, b, c, lj, bnd, g);
    assert forall|x: int| owns(m, sib, g, x) implies alike(m[x], #[trigger] b[x]) by {
        lemma_owned_in_arena(m, sib, bnd, k2, g, x);
    }
    lemma_frame(m, b, sib, bnd, k2, g);
    assert(owns(m, c, g, c));
    assert(owns(m, sib, g, sib));
    if j + 1 < n {
        assert(kept(a, b, kid(a, id, j + 1), low(a, id, lo, j + 1), s[j + 1].rank(), g));
        lemma_widen(b, kid(a, id, j + 1), kj, s[j + 1].rank(), g, k2, s[j + 1].rank());
    }
}

/// After filing, the node is a search tree for its range again, and owns
/// what it owned and every node that was added.
#[verifier::rlimit(80)]
pub proof fn lemma_filed_shape<K: Increment, V: Copy>(
    a: Seq<Node<K, V>>,
    m: Seq<Node<K, V>>,
    b: Seq<Node<K, V>>,
    id: int,
    lo: int,
    hi: int,
    h: nat,
    j: int,
    sib: int,
    r: int,
    v: V,
    sl: Slot<K, V>,
    os: Slot<K, V>,
)
    requires
        refiled(a, m, b, id, lo, hi, h, j, sib, r, v, sl, os),
    ensures
        shaped(b, id, lo, hi, h),
        forall|x: int| 0 <= x < a.len() && !owns(a, id, h, x) ==> #[trigger] b[x] == a[x],
        forall|x: int| #[trigger] owns(b, id, h, x) ==> owns(a, id, h, x) || a.len() <= x,
        forall|x: int| #[trigger] owns(a, id, h, x) ==> owns(b, id, h, x),
        forall|x: int| a.len() <= x < b.len() ==> #[trigger] owns(b, id, h, x),
{
    let s = a[id].values@;
    let t = b[id].values@;
    let n = s.len() as int;
    let g = (h - 1) as nat;
    let c = s[j].child() as int;
    lemma_filed_kids(a, m, b, id, lo, hi, h, j, sib, r, v, sl, os);
    lemma_filed_order(s, j, sl, os);
    // where each child stood before
    let was = |i: int|
        if i < j {
            i
        } else if i <= j + 1 {
            j
        } else {
            i - 1
        };
    assert forall|i: int| 0 <= i < t.len() implies (#[trigger] t[i]).child() as int == (if i == j
        + 1 {
        sib
    } else {
        kid(a, id, was(i))
    }) && (t[i].1 is Right) by {
        if i < j {
            assert(t[i] == s[i]);
        } else if i > j + 1 {
            assert(t[i] == s[i - 1]);
        }
    }
    assert(b[id].wf());
    // what each child owns now is old and was the child's, or is new
    assert forall|i: int, x: int|
        0 <= i < t.len() && #[trigger] owns(b, t[i].child() as int, g, x) implies x != id && (
        owns(a, kid(a, id, was(i)), g, x) || a.len() <= x) by {
        if i == j {
            assert(owns(m, c, g, x));
        } else if i == j + 1 {
            assert(owns(m, sib, g, x));
        } else {
            assert(kept(a, b, kid(a, id, was(i)), low(a, id, lo, was(i)), s[was(i)].rank(), g));
        }
    }
    assert forall|i: int| 0 <= i < t.len() implies shaped(
        b,
        (#[trigger] t[i]).child() as int,
        low(b, id, lo, i),
        t[i].rank(),
        g,
    ) by {
        if i < j {
            assert(t[i] == s[i]);
            if i > 0 {
                assert(t[i - 1] == s[i - 1]);
            }
            assert(kept(a, b, kid(a, id, i), low(a, id, lo, i), s[i].rank(), g));
        } else if i == j {
            if j > 0 {
                assert(t[j - 1] == s[j - 1]);
            }
        } else if i == j + 1 {
        } else {
            assert(t[i] == s[i - 1]);
            if i > j + 2 {
                assert(t[i - 1] == s[i - 2]);
                assert(kept(a, b, kid(a, id, i - 1), low(a, id, lo, i - 1), s[i - 1].rank(), g));
            }
        }
    }
    assert(a[c].t == a[s[0].child() as int].t);
    assert forall|i: int| 0 <= i < t.len() implies b[(#[trigger] t[i]).child() as int].t
        == a[c].t by {
        if i != j && i != j + 1 {
            let o = was(i);
            assert(kept(a, b, kid(a, id, o), low(a, id, lo, o), s[o].rank(), g));
            assert(a[s[o].child() as int].t == a[s[0].child() as int].t);
        }
    }
    assert forall|i: int| 0 <= i < t.len() implies b[(#[trigger] t[i]).child() as int].t
        == b[t[0].child() as int].t by {
        assert(b[t[i].child() as int].t == a[c].t);
        assert(b[t[0].child() as int].t == a[c].t);
    }
    assert forall|i: int| 0 <= i < t.len() implies !owns(
        b,
        (#[trigger] t[i]).child() as int,
        g,
        id,
    ) by {}
    assert forall|i1: int, i2: int, x: int| 0 <= i1 < i2 < t.len() implies !(#[trigger] owns(
        b,
        t[i1].child() as int,
        g,
        x,
    ) && #[trigger] owns(b, t[i2].child() as int, g, x)) by {
        if owns(b, t[i1].child() as int, g, x) && owns(b, t[i2].child() as int, g, x) {
            let o1 = was(i1);
            let o2 = was(i2);
            if i1 == j && i2 == j + 1 {
                assert(owns(m, c, g, x) && owns(m, sib, g, x));
                assert(!(owns(m, c, g, x) && owns(m, sib, g, x)));
            } else {
                assert(o1 < o2);
                if o1 != j {
                    assert(kept(a, b, kid(a, id, o1), low(a, id, lo, o1), s[o1].rank(), g));
                    assert(owns(a, kid(a, id, o1), g, x));
                }
                if o2 != j {
                    assert(kept(a, b, kid(a, id, o2), low(a, id, lo, o2), s[o2].rank(), g));
                    assert(owns(a, kid(a, id, o2), g, x));
                }
                assert(owns(a, kid(a, id, o1), g, x));
                assert(owns(a, kid(a, id, o2), g, x));
                assert(!(owns(a, s[o1].child() as int, g, x)
                    && owns(a, s[o2].child() as int, g, x)));
            }
        }
    }
    assert(t.last().rank() <= hi) by {
        if j + 1 < n {
            assert(t[n] == s[n - 1]);
        }
    }
    assert(shaped(b, id, lo, hi, h));
    assert forall|x: int| 0 <= x < a.len() && !owns(a, id, h, x) implies #[trigger] b[x]
        == a[x] by {
        assert(!owns(a, s[j].child() as int, g, x));
    }
    assert forall|x: int| #[trigger] owns(b, id, h, x) implies owns(a, id, h, x) || a.len()
        <= x by {
        if x != id {
            let i = choose|i: int|
                0 <= i < t.len() && owns(b, (#[trigger] t[i]).child() as int, g, x);
            assert(owns(a, s[was(i)].child() as int, g, x) || a.len() <= x);
        }
    }
    assert forall|x: int| #[trigger] owns(a, id, h, x) implies owns(b, id, h, x) by {
        if x != id {
            let i = choose|i: int|
                0 <= i < n && owns(a, (#[trigger] s[i]).child() as int, g, x);
            if i < j {
                assert(kept(a, b, kid(a, id, i), low(a, id, lo, i), s[i].rank(), g));
                assert(t[i] == s[i]);
                assert(owns(b, t[i].child() as int, g, x));
            } else if i == j {
                assert(owns(m, c, g, x) || owns(m, sib, g, x));
                assert(owns(b, t[j].child() as int, g, x)
                    || owns(b, t[j + 1].child() as int, g, x));
            } else {
                assert(kept(a, b, kid(a, id, i), low(a, id, lo, i), s[i].rank(), g));
                assert(t[i + 1] == s[i]);
                assert(owns(b, t[i + 1].child() as int, g, x));
            }
        }
    }
    assert forall|x: int| a.len() <= x < b.len() implies #[trigger] owns(b, id, h, x) by {
        assert(owns(m, c, g, x) || owns(m, sib, g, x));
        assert(owns(b, t[j].child() as int, g, x) || owns(b, t[j + 1].child() as int, g, x));
    }
}

/// After filing, a search under the node finds `v` for `r` and otherwise
/// what it found before the insertion.
pub proof fn lemma_filed_lookup<K: Increment, V: Copy>(
    a: Seq<Node<K, V>>,
    m: Seq<Node<K, V>>,
    b: Seq<Node<K, V>>,
    id: int,
    lo: int,
    hi: int,
    h: nat,
    j: int,
    sib: int,
    r: int,
    v: V,
    sl: Slot<K, V>,
    os: Slot<K, V>,
)
    requires
        refiled(a, m, b, id, lo, hi, h, j, sib, r, v, sl, os),
    ensures
        forall|q: int|
            #[trigger] lookup(b, id, h, q) == if q == r {
                Some(v)
            } else {
                lookup(a, id, h, q)
            },
{
    let s = a[id].values@;
    let t = b[id].values@;
    let n = s.len() as int;
    let g = (h - 1) as nat;
    let c = s[j].child() as int;
    let kj = s[j].rank();
    let bnd = sl.rank();
    let k2 = os.rank();
    lemma_filed_kids(a, m, b, id, lo, hi, h, j, sib, r, v, sl, os);
    lemma_filed_order(s, j, sl, os);
    lemma_above(s, r);
    assert forall|q: int|
        #[trigger] lookup(b, id, h, q) == if q == r {
            Some(v)
        } else {
            lookup(a, id, h, q)
        } by {
        lemma_filed_above(s, j, sl, os, q);
        lemma_above(s, q);
        let p = above(s, q);
        let want = if q == r {
            Some(v)
        } else {
            lookup(a, c, g, q)
        };
        assert((if q < bnd {
            lookup(m, c, g, q)
        } else {
            lookup(m, sib, g, q)
        }) == want);
        if p < j {
            assert(t[p] == s[p]);
            assert(kept(a, b, kid(a, id, p), low(a, id, lo, p), s[p].rank(), g));
            assert(lookup(b, s[p].child() as int, g, q) == lookup(a, s[p].child() as int, g, q));
        } else if p > j {
            if p < n {
                assert(t[p + 1] == s[p]);
                assert(kept(a, b, kid(a, id, p), low(a, id, lo, p), s[p].rank(), g));
                assert(lookup(b, s[p].child() as int, g, q) == lookup(
                    a,
                    s[p].child() as int,
                    g,
                    q,
                ));
            }
        } else if q < bnd {
            assert(lookup(b, c, g, q) == lookup(m, c, g, q));
        } else if q < k2 {
            assert(lookup(b, sib, g, q) == lookup(m, sib, g, q));
        } else {
            lemma_range(m, sib, bnd, k2, g, q);
            assert(want is None);
            if j + 1 < n {
                assert(t[j + 2] == s[j + 1]);
                assert(kept(a, b, kid(a, id, j + 1), low(a, id, lo, j + 1), s[j + 1].rank(), g));
                lemma_range(b, kid(a, id, j + 1), kj, s[j + 1].rank(), g, q);
            }
        }
    }
}

/// After rank `r` was given value `v` under child `j` of an internal node
/// and that child was split, filing the two halves gives `r` its value
/// under the node and changes nothing else.
pub proof fn lemma_filed<K: Increment, V: Copy>(
    a: Seq<Node<K, V>>,
    m: Seq<Node<K, V>>,
    b: Seq<Node<K, V>>,
    id: int,
    lo: int,
    hi: int,
    h: nat,
    j: int,
    sib: int,
    r: int,
    v: V,
    sl: Slot<K, V>,
    os: Slot<K, V>,
)
    requires
        refiled(a, m, b, id, lo, hi, h, j, sib, r, v, sl, os),
    ensures
        inserted_one(a, b, id, lo, hi, h, r, v),
{
    lemma_filed_shape(a, m, b, id, lo, hi, h, j, sib, r, v, sl, os);
    lemma_filed_lookup(a, m, b, id, lo, hi, h, j, sib, r, v, sl, os);
}

} // verus!
