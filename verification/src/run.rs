//! Runs of slots in ascending key order: where a rank finds its place in
//! a run, what a run stores for it, and what storing, removing and cutting
//! does to both.

use vstd::prelude::*;
use crate::increment::Increment;
use crate::slot::Slot;

verus! {

/// Keys rise strictly from one slot to the next.
pub open spec fn ascending<K: Increment, V>(s: Seq<Slot<K, V>>) -> bool {
    forall|i: int, j: int| 0 <= i < j < s.len() ==> s[i].rank() < s[j].rank()
}

/// In an ascending run, the index of the first slot whose key lies above
/// rank `r`; the length of the run when there is none.
pub open spec fn above<K: Increment, V>(s: Seq<Slot<K, V>>, r: int) -> int
    decreases s.len(),
{
    if s.len() == 0 {
        0
    } else if s.last().rank() <= r {
        s.len() as int
    } else {
        above(s.drop_last(), r)
    }
}

/// Whether an ascending run has a slot with rank `r`. Such a slot stands
/// right before `above(s, r)`.
pub open spec fn holds<K: Increment, V>(s: Seq<Slot<K, V>>, r: int) -> bool {
    above(s, r) > 0 && s[above(s, r) - 1].rank() == r
}

/// `above(s, r)` splits an ascending run into the slots up to rank `r` and
/// the slots beyond it.
pub proof fn lemma_above<K: Increment, V>(s: Seq<Slot<K, V>>, r: int)
    requires
        ascending(s),
    ensures
        0 <= above(s, r) <= s.len(),
        forall|i: int| 0 <= i < above(s, r) ==> (#[trigger] s[i]).rank() <= r,
        forall|i: int| above(s, r) <= i < s.len() ==> (#[trigger] s[i]).rank() > r,
    decreases s.len(),
{
    if s.len() > 0 && s.last().rank() > r {
        let t = s.drop_last();
        assert forall|i: int, j: int| 0 <= i < j < t.len() implies t[i].rank() < t[j].rank() by {
            assert(t[i] == s[i] && t[j] == s[j]);
        }
        lemma_above(t, r);
        assert forall|i: int| 0 <= i < above(s, r) implies (#[trigger] s[i]).rank() <= r by {
            assert(t[i] == s[i]);
        }
        assert forall|i: int| above(s, r) <= i < s.len() implies (#[trigger] s[i]).rank() > r by {
            if i < t.len() {
                assert(t[i] == s[i]);
            }
        }
    }
}

/// An index that splits an ascending run at rank `r` is `above(s, r)`.
pub proof fn lemma_above_unique<K: Increment, V>(s: Seq<Slot<K, V>>, r: int, j: int)
    requires
        ascending(s),
        0 <= j <= s.len(),
        forall|i: int| 0 <= i < j ==> (#[trigger] s[i]).rank() <= r,
        forall|i: int| j <= i < s.len() ==> (#[trigger] s[i]).rank() > r,
    ensures
        above(s, r) == j,
{
    lemma_above(s, r);
    let a = above(s, r);
    if a < j {
        assert(s[a].rank() > r);
    } else if j < a {
        assert(s[j].rank() <= r);
    }
}

/// The slot that an ascending run holds for rank `r`, if it holds one.
pub open spec fn stored<K: Increment, V>(s: Seq<Slot<K, V>>, r: int) -> Option<Slot<K, V>> {
    if holds(s, r) {
        Some(s[above(s, r) - 1])
    } else {
        None
    }
}

/// A slot of an ascending run is the one stored for its rank.
pub proof fn lemma_stored_is<K: Increment, V>(s: Seq<Slot<K, V>>, i: int)
    requires
        ascending(s),
        0 <= i < s.len(),
    ensures
        above(s, s[i].rank()) == i + 1,
        stored(s, s[i].rank()) == Some(s[i]),
{
    lemma_above_unique(s, s[i].rank(), i + 1);
}

/// A rank that no slot of an ascending run has is not stored in it.
pub proof fn lemma_stored_none<K: Increment, V>(s: Seq<Slot<K, V>>, r: int)
    requires
        ascending(s),
        forall|i: int| 0 <= i < s.len() ==> (#[trigger] s[i]).rank() != r,
    ensures
        stored(s, r) is None,
{
    lemma_above(s, r);
}

/// What is stored for a rank is a slot of the run with that rank.
pub proof fn lemma_stored_some<K: Increment, V>(s: Seq<Slot<K, V>>, r: int)
    requires
        ascending(s),
        stored(s, r) is Some,
    ensures
        0 <= above(s, r) - 1 < s.len(),
        stored(s, r) == Some(s[above(s, r) - 1]),
        s[above(s, r) - 1].rank() == r,
{
    lemma_above(s, r);
}

/// Taking a slot out of an ascending run removes what is stored for its
/// rank and nothing else.
pub proof fn lemma_stored_remove<K: Increment, V>(s: Seq<Slot<K, V>>, i: int)
    requires
        ascending(s),
        0 <= i < s.len(),
    ensures
        ascending(s.remove(i)),
        forall|q: int|
            #[trigger] stored(s.remove(i), q) == if q == s[i].rank() {
                None
            } else {
                stored(s, q)
            },
{
    let t = s.remove(i);
    assert forall|k: int, l: int| 0 <= k < l < t.len() implies t[k].rank() < t[l].rank() by {
        assert(t[k] == if k < i { s[k] } else { s[k + 1] });
        assert(t[l] == if l < i { s[l] } else { s[l + 1] });
    }
    assert forall|q: int|
        #[trigger] stored(t, q) == if q == s[i].rank() {
            None
        } else {
            stored(s, q)
        } by {
        if q == s[i].rank() || stored(s, q) is None {
            assert forall|k: int| 0 <= k < t.len() implies (#[trigger] t[k]).rank() != q by {
                let k0 = if k < i { k } else { k + 1 };
                assert(t[k] == s[k0]);
                if q != s[i].rank() {
                    if s[k0].rank() == q {
                        lemma_stored_is(s, k0);
                    }
                }
            }
            lemma_stored_none(t, q);
        } else {
            lemma_stored_some(s, q);
            let k0 = above(s, q) - 1;
            let k = if k0 < i { k0 } else { k0 - 1 };
            assert(t[k] == s[k0]);
            lemma_stored_is(t, k);
        }
    }
}

/// Putting a slot with a new key at its place in an ascending run stores
/// it for its rank and changes nothing else.
pub proof fn lemma_stored_insert<K: Increment, V>(s: Seq<Slot<K, V>>, slot: Slot<K, V>)
    requires
        ascending(s),
        !holds(s, slot.rank()),
    ensures
        ascending(s.insert(above(s, slot.rank()), slot)),
        forall|q: int|
            #[trigger] stored(s.insert(above(s, slot.rank()), slot), q) == if q == slot.rank() {
                Some(slot)
            } else {
                stored(s, q)
            },
{
    let p = above(s, slot.rank());
    lemma_above(s, slot.rank());
    lemma_insert_keeps_order(s, p, slot);
    let t = s.insert(p, slot);
    assert forall|q: int|
        #[trigger] stored(t, q) == if q == slot.rank() {
            Some(slot)
        } else {
            stored(s, q)
        } by {
        if q == slot.rank() {
            assert(t[p] == slot);
            lemma_stored_is(t, p);
        } else if stored(s, q) is None {
            assert forall|k: int| 0 <= k < t.len() implies (#[trigger] t[k]).rank() != q by {
                if k != p {
                    let k0 = if k < p { k } else { k - 1 };
                    assert(t[k] == s[k0]);
                    if s[k0].rank() == q {
                        lemma_stored_is(s, k0);
                    }
                }
            }
            lemma_stored_none(t, q);
        } else {
            lemma_stored_some(s, q);
            let k0 = above(s, q) - 1;
            let k = if k0 < p { k0 } else { k0 + 1 };
            assert(t[k] == s[k0]);
            lemma_stored_is(t, k);
        }
    }
}

/// Overwriting a slot of an ascending run by one with the same key stores
/// the new slot for that rank and changes nothing else.
pub proof fn lemma_stored_update<K: Increment, V>(s: Seq<Slot<K, V>>, i: int, slot: Slot<K, V>)
    requires
        ascending(s),
        0 <= i < s.len(),
        s[i].rank() == slot.rank(),
    ensures
        ascending(s.update(i, slot)),
        forall|q: int|
            #[trigger] stored(s.update(i, slot), q) == if q == slot.rank() {
                Some(slot)
            } else {
                stored(s, q)
            },
{
    let t = s.update(i, slot);
    assert forall|k: int, l: int| 0 <= k < l < t.len() implies t[k].rank() < t[l].rank() by {
        assert(t[k].rank() == s[k].rank());
        assert(t[l].rank() == s[l].rank());
    }
    assert forall|q: int|
        #[trigger] stored(t, q) == if q == slot.rank() {
            Some(slot)
        } else {
            stored(s, q)
        } by {
        if q == slot.rank() {
            lemma_stored_is(t, i);
        } else if stored(s, q) is None {
            assert forall|k: int| 0 <= k < t.len() implies (#[trigger] t[k]).rank() != q by {
                if k != i && s[k].rank() == q {
                    lemma_stored_is(s, k);
                }
            }
            lemma_stored_none(t, q);
        } else {
            lemma_stored_some(s, q);
            let k = above(s, q) - 1;
            assert(t[k] == s[k]);
            lemma_stored_is(t, k);
        }
    }
}

/// Cutting an ascending run in two at index `m` sends every rank to one of
/// the halves: up to the last key of the lower half to that half, the rest
/// to the upper one, where each finds what it found in the whole run.
pub proof fn lemma_above_split<K: Increment, V>(s: Seq<Slot<K, V>>, m: int, q: int)
    requires
        ascending(s),
        0 < m < s.len(),
    ensures
        ascending(s.subrange(0, m)),
        ascending(s.subrange(m, s.len() as int)),
        q < s[m - 1].rank() ==> above(s.subrange(0, m), q) == above(s, q) && above(s, q) < m,
        q <= s[m - 1].rank() ==> stored(s.subrange(0, m), q) == stored(s, q),
        q >= s[m - 1].rank() ==> above(s.subrange(m, s.len() as int), q) == above(s, q) - m
            && above(s, q) >= m,
        q > s[m - 1].rank() ==> stored(s.subrange(m, s.len() as int), q) == stored(s, q),
{
    let lower = s.subrange(0, m);
    let upper = s.subrange(m, s.len() as int);
    assert forall|i: int, j: int| 0 <= i < j < lower.len() implies lower[i].rank()
        < lower[j].rank() by {
        assert(lower[i] == s[i] && lower[j] == s[j]);
    }
    assert forall|i: int, j: int| 0 <= i < j < upper.len() implies upper[i].rank()
        < upper[j].rank() by {
        assert(upper[i] == s[i + m] && upper[j] == s[j + m]);
    }
    lemma_above(s, q);
    let p = above(s, q);
    if q < s[m - 1].rank() {
        assert(p < m) by {
            if p >= m {
                assert(s[m - 1].rank() <= q);
            }
        }
        assert forall|i: int| 0 <= i < p implies (#[trigger] lower[i]).rank() <= q by {
            assert(lower[i] == s[i]);
        }
        assert forall|i: int| p <= i < lower.len() implies (#[trigger] lower[i]).rank() > q by {
            assert(lower[i] == s[i]);
        }
        lemma_above_unique(lower, q, p);
        if p > 0 {
            assert(lower[p - 1] == s[p - 1]);
        }
    }
    if q == s[m - 1].rank() {
        lemma_stored_is(s, m - 1);
        assert(lower[m - 1] == s[m - 1]);
        lemma_stored_is(lower, m - 1);
    }
    if q >= s[m - 1].rank() {
        assert(p >= m) by {
            if p < m {
                assert(s[p].rank() > q);
                if p < m - 1 {
                    assert(s[p].rank() < s[m - 1].rank());
                }
            }
        }
        assert forall|i: int| 0 <= i < p - m implies (#[trigger] upper[i]).rank() <= q by {
            assert(upper[i] == s[i + m]);
        }
        assert forall|i: int| p - m <= i < upper.len() implies (#[trigger] upper[i]).rank()
            > q by {
            assert(upper[i] == s[i + m]);
        }
        lemma_above_unique(upper, q, p - m);
        if q > s[m - 1].rank() {
            if p > m {
                assert(upper[p - m - 1] == s[p - 1]);
            } else {
                assert(s[p - 1].rank() <= s[m - 1].rank()) by {
                    assert(p == m);
                }
            }
        }
    }
}

/// A slot with a key above all others goes to the end of an ascending run:
/// ranks below its own find their place as before, the others come after
/// it.
pub proof fn lemma_above_push<K: Increment, V>(s: Seq<Slot<K, V>>, slot: Slot<K, V>, q: int)
    requires
        ascending(s),
        s.len() > 0 ==> s.last().rank() < slot.rank(),
    ensures
        ascending(s.push(slot)),
        above(s, slot.rank()) == s.len(),
        !holds(s, slot.rank()),
        s.insert(s.len() as int, slot) == s.push(slot),
        q < slot.rank() ==> above(s.push(slot), q) == above(s, q),
        q >= slot.rank() ==> above(s.push(slot), q) == s.len() + 1,
{
    let t = s.push(slot);
    assert forall|i: int, j: int| 0 <= i < j < t.len() implies t[i].rank() < t[j].rank() by {
        if j == s.len() {
            assert(t[i] == s[i]);
            assert(s[i].rank() <= s.last().rank());
        } else {
            assert(t[i] == s[i] && t[j] == s[j]);
        }
    }
    assert(s.insert(s.len() as int, slot) =~= t);
    lemma_above(s, slot.rank());
    assert(above(s, slot.rank()) == s.len()) by {
        if above(s, slot.rank()) < s.len() {
            assert(s[above(s, slot.rank())].rank() <= s.last().rank());
        }
    }
    lemma_above(s, q);
    if q < slot.rank() {
        let p = above(s, q);
        assert forall|i: int| 0 <= i < p implies (#[trigger] t[i]).rank() <= q by {
            assert(t[i] == s[i]);
        }
        assert forall|i: int| p <= i < t.len() implies (#[trigger] t[i]).rank() > q by {
            if i < s.len() {
                assert(t[i] == s[i]);
            }
        }
        lemma_above_unique(t, q, p);
    } else {
        assert forall|i: int| 0 <= i < t.len() implies (#[trigger] t[i]).rank() <= q by {
            if i < s.len() {
                assert(t[i] == s[i]);
                assert(s[i].rank() <= s.last().rank());
            }
        }
        lemma_above_unique(t, q, t.len() as int);
    }
}

/// Putting a slot where `above` points keeps the run ascending, provided
/// its key is not there yet.
pub proof fn lemma_insert_keeps_order<K: Increment, V>(
    s: Seq<Slot<K, V>>,
    p: int,
    slot: Slot<K, V>,
)
    requires
        ascending(s),
        p == above(s, slot.rank()),
        !holds(s, slot.rank()),
    ensures
        ascending(s.insert(p, slot)),
{
    lemma_above(s, slot.rank());
    let t = s.insert(p, slot);
    assert forall|i: int, j: int| 0 <= i < j < t.len() implies t[i].rank() < t[j].rank() by {
        if i < p {
            assert(t[i] == s[i]);
        } else if i > p {
            assert(t[i] == s[i - 1]);
        }
        if j < p {
            assert(t[j] == s[j]);
        } else if j > p {
            assert(t[j] == s[j - 1]);
        }
        if i < p && j == p {
            assert(s[i].rank() <= slot.rank());
            assert(s[p - 1].rank() != slot.rank());
            if i < p - 1 {
                assert(s[i].rank() < s[p - 1].rank());
            }
        }
    }
}

/// Pairs ascend strictly by the rank of their keys.
pub open spec fn rising<K: Increment, V: Copy>(c: Seq<(K, V)>) -> bool {
    forall|i: int, j: int| 0 <= i < j < c.len() ==> c[i].0.rank() < c[j].0.rank()
}

} // verus!
