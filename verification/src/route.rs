//! Descents through the arena: searching, removing, and inserting with
//! splits on the way down and separator repairs on the way back up.

use vstd::prelude::*;
use crate::chain::{
    chained, lemma_chain_child_added, lemma_chain_filed, lemma_chain_leaf, lemma_chain_passed_down,
    lemma_chain_settled_lower, lemma_chain_settled_upper, lemma_chain_split, linked_one, linked_two,
};
use crate::grow::{
    lemma_child_added, lemma_fresh_inner, lemma_fresh_leaf, lemma_leaf_put, lemma_passed_down,
    lemma_settled_lower, lemma_settled_upper,
};
use crate::increment::Increment;
use crate::layout::{
    alike, first_leaf, flags_kept, halved, home, inserted_one, inserted_two, kid, last_leaf,
    lemma_child_replaced, lemma_end_leaves, lemma_split, lookup, low, owns, shaped, tidy,
};
use crate::mend::lemma_filed;
use crate::node::{limit, Node};
use crate::run::{above, lemma_above, lemma_above_push, lemma_stored_remove, stored};
use crate::slot::{Either, Slot};
use crate::tall::{
    height, lemma_tall_child_added, lemma_tall_filed, lemma_tall_passed_down,
    lemma_tall_settled_lower, lemma_tall_settled_upper, lemma_tall_split, lemma_tallest,
    lowered_one, lowered_two, tallest,
};

verus! {

/// Searches the subtree under `id` for `key`.
pub(crate) fn find<K: Increment, V: Copy>(
    nodes: &Vec<Node<K, V>>,
    id: usize,
    key: K,
    Ghost(lo): Ghost<int>,
    Ghost(hi): Ghost<int>,
    Ghost(h): Ghost<nat>,
) -> (v: Option<V>)
    requires
        shaped(nodes@, id as int, lo, hi, h),
    ensures
        v == lookup(nodes@, id as int, h, key.rank()),
    decreases h,
{
    let node = &nodes[id];
    let probe: Slot<K, V> = Slot::new_internal(key, 0);
    let ghost j = above(node.values@, key.rank());
    proof {
        lemma_above(node.values@, key.rank());
    }
    match node.find_child(probe) {
        Some(c) => {
            assert(shaped(
                nodes@,
                c as int,
                low(nodes@, id as int, lo, j),
                node.values@[j].rank(),
                (h - 1) as nat,
            ));
            find(
                nodes,
                c,
                key,
                Ghost(low(nodes@, id as int, lo, j)),
                Ghost(node.values@[j].rank()),
                Ghost((h - 1) as nat),
            )
        },
        None => {
            if node.is_leaf() {
                match node.get(key) {
                    Some(s) => match s.1 {
                        Either::Left(v) => Some(v),
                        Either::Right(_) => None,
                    },
                    None => None,
                }
            } else {
                None
            }
        },
    }
}

/// Removes `key` from the subtree under `id` and says whether it was
/// there. Only the leaf that the search ends in changes.
pub(crate) fn remove<K: Increment, V: Copy>(
    nodes: &mut Vec<Node<K, V>>,
    id: usize,
    key: K,
    Ghost(lo): Ghost<int>,
    Ghost(hi): Ghost<int>,
    Ghost(h): Ghost<nat>,
) -> (removed: bool)
    requires
        shaped(old(nodes)@, id as int, lo, hi, h),
    ensures
        final(nodes)@.len() == old(nodes)@.len(),
        shaped(final(nodes)@, id as int, lo, hi, h),
        forall|x: int|
            0 <= x < old(nodes)@.len() && !owns(old(nodes)@, id as int, h, x) ==> final(nodes)@[x]
                == old(nodes)@[x],
        forall|x: int| owns(final(nodes)@, id as int, h, x) == owns(old(nodes)@, id as int, h, x),
        forall|x: int|
            0 <= x < old(nodes)@.len() ==> (#[trigger] final(nodes)@[x]).t == old(nodes)@[x].t
                && final(nodes)@[x].next == old(nodes)@[x].next && final(nodes)@[x].max
                    == old(nodes)@[x].max && final(nodes)@[x].threshold == old(nodes)@[x].threshold
                    && final(nodes)@[x].is_root == old(nodes)@[x].is_root
                    && final(nodes)@[x].values@.len() <= old(nodes)@[x].values@.len()
                    && (old(nodes)@[x].t is Internal
                ==> final(nodes)@[x] == old(nodes)@[x]),
        removed == (lookup(old(nodes)@, id as int, h, key.rank()) is Some),
        forall|x: int|
            0 <= x < old(nodes)@.len() && Some(x) != home(old(nodes)@, id as int, h, key.rank())
                ==> #[trigger] final(nodes)@[x] == old(nodes)@[x],
        home(old(nodes)@, id as int, h, key.rank()) matches Some(l) ==> 0 <= l < old(nodes)@.len()
            && old(nodes)@[l].t is Leaf && final(nodes)@[l].values@ == if removed {
            old(nodes)@[l].values@.remove(above(old(nodes)@[l].values@, key.rank()) - 1)
        } else {
            old(nodes)@[l].values@
        },
        forall|q: int|
            #[trigger] lookup(final(nodes)@, id as int, h, q) == if q == key.rank() {
                None
            } else {
                lookup(old(nodes)@, id as int, h, q)
            },
    decreases h,
{
    let probe: Slot<K, V> = Slot::new_internal(key, 0);
    let ghost s = nodes@[id as int].values@;
    proof {
        lemma_above(s, key.rank());
    }
    match nodes[id].find_child(probe) {
        Some(c) => {
            let ghost j = above(s, key.rank());
            let ghost g = (h - 1) as nat;
            assert(shaped(nodes@, c as int, low(nodes@, id as int, lo, j), s[j].rank(), g));
            let removed = remove(
                nodes,
                c,
                key,
                Ghost(low(old(nodes)@, id as int, lo, j)),
                Ghost(s[j].rank()),
                Ghost(g),
            );
            proof {
                assert forall|x: int|
                    0 <= x < old(nodes)@.len() && !owns(old(nodes)@, c as int, g, x) implies alike(
                    old(nodes)@[x],
                    #[trigger] nodes@[x],
                ) by {}
                lemma_child_replaced(old(nodes)@, nodes@, id as int, lo, hi, h, j);
                assert forall|x: int|
                    0 <= x < old(nodes)@.len() && !owns(
                        old(nodes)@,
                        id as int,
                        h,
                        x,
                    ) implies nodes@[x] == old(nodes)@[x] by {
                    assert(owns(old(nodes)@, s[j].child() as int, g, x) ==> owns(
                        old(nodes)@,
                        id as int,
                        h,
                        x,
                    ));
                }
            }
            removed
        },
        None => {
            if nodes[id].is_leaf() {
                let node = &mut nodes[id];
                let removed = node.delete(key);
                proof {
                    let t = nodes@[id as int].values@;
                    if removed {
                        let i = above(s, key.rank()) - 1;
                        lemma_stored_remove(s, i);
                        assert forall|k: int| 0 <= k < t.len()
                            implies lo <= (#[trigger] t[k]).rank()
                            < hi by {
                            let k0 = if k < i {
                                k
                            } else {
                                k + 1
                            };
                            assert(t[k] == s[k0]);
                        }
                    }
                    assert forall|q: int|
                        #[trigger] lookup(nodes@, id as int, h, q) == if q == key.rank() {
                            None
                        } else {
                            lookup(old(nodes)@, id as int, h, q)
                        } by {
                        if removed {
                            assert(stored(t, q) == if q == key.rank() {
                                None
                            } else {
                                stored(s, q)
                            });
                        }
                    }
                }
                removed
            } else {
                false
            }
        },
    }
}

/// Splits the node `id` at its median: the upper half of its slots moves
/// to a new node at the end of the arena, whose index is handed back.
pub(crate) fn split_node<K: Increment, V: Copy>(
    nodes: &mut Vec<Node<K, V>>,
    id: usize,
    Ghost(lo): Ghost<int>,
    Ghost(hi): Ghost<int>,
    Ghost(h): Ghost<nat>,
    Ghost(max): Ghost<usize>,
    Ghost(threshold): Ghost<usize>,
) -> (sib: usize)
    requires
        shaped(old(nodes)@, id as int, lo, hi, h),
        chained(old(nodes)@, id as int, h),
        old(nodes)@[id as int].values@.len() >= 2,
        tidy(old(nodes)@, max, threshold),
    ensures
        halved(old(nodes)@, final(nodes)@, id as int, sib as int, lo, hi, h),
        linked_two(old(nodes)@, final(nodes)@, id as int, sib as int, h),
        lowered_two(old(nodes)@, final(nodes)@, id as int, sib as int, h),
        tidy(final(nodes)@, max, threshold),
        flags_kept(old(nodes)@, final(nodes)@),
        final(nodes)@[id as int].values@.len() == old(nodes)@[id as int].values@.len() / 2,
        final(nodes)@[sib as int].values@.len()
            == old(nodes)@[id as int].values@.len() - old(nodes)@[id as int].values@.len() / 2,
        final(nodes)@[sib as int].next == old(nodes)@[id as int].next,
        final(nodes)@[id as int].next == if old(nodes)@[id as int].t is Leaf {
            Some(sib)
        } else {
            old(nodes)@[id as int].next
        },
{
    let sib = nodes.len();
    let node = &mut nodes[id];
    let upper = node.split(sib);
    nodes.push(upper);
    proof {
        assert forall|x: int| 0 <= x < old(nodes)@.len() && x != id implies #[trigger] nodes@[x]
            == old(nodes)@[x] by {}
        lemma_split(old(nodes)@, nodes@, id as int, lo, hi, h);
        lemma_chain_split(old(nodes)@, nodes@, id as int, lo, hi, h);
        lemma_tall_split(old(nodes)@, nodes@, id as int, lo, hi, h);
    }
    sib
}

/// The leaf at the right end of the subtree under `id`.
pub(crate) fn rightmost<K: Increment, V: Copy>(
    nodes: &Vec<Node<K, V>>,
    id: usize,
    Ghost(lo): Ghost<int>,
    Ghost(hi): Ghost<int>,
    Ghost(h): Ghost<nat>,
) -> (p: usize)
    requires
        shaped(nodes@, id as int, lo, hi, h),
    ensures
        p == last_leaf(nodes@, id as int, h),
    decreases h,
{
    let node = &nodes[id];
    if node.is_leaf() {
        return id;
    }
    let ghost s = node.values@;
    assert(shaped(
        nodes@,
        s.last().child() as int,
        low(nodes@, id as int, lo, s.len() - 1),
        s.last().rank(),
        (h - 1) as nat,
    ));
    match node.last_v() {
        Some(Either::Right(c)) => rightmost(
            nodes,
            c,
            Ghost(low(nodes@, id as int, lo, s.len() - 1)),
            Ghost(s.last().rank()),
            Ghost((h - 1) as nat),
        ),
        _ => {
            assert(false);
            id
        },
    }
}

/// The leaf at the left end of the subtree under `id`.
pub(crate) fn leftmost<K: Increment, V: Copy>(
    nodes: &Vec<Node<K, V>>,
    id: usize,
    Ghost(lo): Ghost<int>,
    Ghost(hi): Ghost<int>,
    Ghost(h): Ghost<nat>,
) -> (p: usize)
    requires
        shaped(nodes@, id as int, lo, hi, h),
    ensures
        p == first_leaf(nodes@, id as int, h),
    decreases h,
{
    let node = &nodes[id];
    if node.is_leaf() {
        return id;
    }
    let ghost s = node.values@;
    assert(shaped(nodes@, s[0].child() as int, lo, s[0].rank(), (h - 1) as nat));
    match node.first_v() {
        Some(Either::Right(c)) => leftmost(
            nodes,
            c,
            Ghost(lo),
            Ghost(s[0].rank()),
            Ghost((h - 1) as nat),
        ),
        _ => {
            assert(false);
            id
        },
    }
}

/// Hangs a new child for `entry` at the end of the internal node `id`,
/// behind a separator one above the entry's key: a leaf that holds the
/// entry where the node's children are leaves, else an internal node over
/// such a leaf. The new leaf follows the last leaf that the node had.
pub(crate) fn append_child<K: Increment, V: Copy>(
    nodes: &mut Vec<Node<K, V>>,
    id: usize,
    entry: Slot<K, V>,
    Ghost(lo): Ghost<int>,
    Ghost(hi): Ghost<int>,
    Ghost(h): Ghost<nat>,
    Ghost(max): Ghost<usize>,
    Ghost(threshold): Ghost<usize>,
)
    requires
        shaped(old(nodes)@, id as int, lo, hi, h),
        chained(old(nodes)@, id as int, h),
        old(nodes)@[id as int].t is Internal,
        lo <= entry.rank() < hi <= K::max_rank(),
        old(nodes)@[id as int].values@.last().rank() <= entry.rank(),
        entry.1 is Left,
        tidy(old(nodes)@, max, threshold),
        old(nodes)@[id as int].values@.len() < limit(threshold),
    ensures
        inserted_one(old(nodes)@, final(nodes)@, id as int, lo, hi, h, entry.rank(), entry.value()),
        linked_one(old(nodes)@, final(nodes)@, id as int, h),
        lowered_one(old(nodes)@, final(nodes)@, id as int, h),
        tidy(final(nodes)@, max, threshold),
        flags_kept(old(nodes)@, final(nodes)@),
{
    let ghost a = nodes@;
    let ghost s = a[id as int].values@;
    let ghost g = (h - 1) as nat;
    let ghost r = entry.rank();
    proof {
        assert(shaped(a, s[0].child() as int, lo, s[0].rank(), g));
        lemma_end_leaves(a, id as int, lo, hi, h);
    }
    let fanout = nodes[id].max;
    let due = nodes[id].threshold;
    let leafy = match nodes[id].first_v() {
        Some(Either::Right(c)) => nodes[c].is_leaf(),
        _ => {
            assert(false);
            true
        },
    };
    let pred = rightmost(nodes, id, Ghost(lo), Ghost(hi), Ghost(h));
    let mut key = entry.0;
    key.increment();
    let mut leaf: Node<K, V> = Node::new_leaf(fanout);
    leaf.threshold = due;
    leaf.replace(entry);
    leaf.next = nodes[pred].next;
    nodes.push(leaf);
    let li = nodes.len() - 1;
    nodes[pred].next = Some(li);
    let ci = if leafy {
        li
    } else {
        let mut inner: Node<K, V> = Node::new_internal(fanout);
        inner.threshold = due;
        proof {
            lemma_above(inner.values@, r + 1);
        }
        inner.insert(Slot::new_internal(key, li));
        nodes.push(inner);
        nodes.len() - 1
    };
    let ns: Slot<K, V> = Slot::new_internal(key, ci);
    proof {
        lemma_above_push(s, ns, 0);
    }
    let node = &mut nodes[id];
    node.insert(ns);
    proof {
        let b = nodes@;
        assert(b[li as int].values@ =~= Seq::<Slot<K, V>>::empty().push(entry)) by {
            lemma_above(Seq::<Slot<K, V>>::empty(), r);
        }
        if leafy {
            lemma_fresh_leaf(b, li as int, s.last().rank(), r + 1, g, entry);
        } else {
            assert(shaped(a, s[0].child() as int, lo, s[0].rank(), g));
            assert(b[ci as int].values@ =~= Seq::<Slot<K, V>>::empty().push(
                Slot(key, Either::<V, usize>::Right(li)),
            ));
            lemma_fresh_inner(
                b,
                ci as int,
                li as int,
                s.last().rank(),
                g,
                entry,
                Slot(key, Either::<V, usize>::Right(li)),
            );
        }
        assert forall|x: int| 0 <= x < a.len() && x != id implies alike(a[x], #[trigger] b[x]) by {}
        assert forall|x: int| 0 <= x < a.len() && !owns(a, id as int, h, x) implies #[trigger] b[x]
            == a[x] by {}
        lemma_child_added(a, b, id as int, lo, hi, h, ci as int, r, entry.value(), ns);
        assert(chained(b, ci as int, g) && first_leaf(b, ci as int, g) == li && last_leaf(
            b,
            ci as int,
            g,
        ) == li) by {
            if !leafy {
                assert(b[ci as int].t is Internal);
                assert(b[ci as int].values@.len() == 1);
                assert(kid(b, ci as int, 0) == li);
                assert(b[ci as int].values@.last() == b[ci as int].values@[0]);
                assert(g > 0);
                assert(first_leaf(b, li as int, (g - 1) as nat) == li);
                assert(last_leaf(b, li as int, (g - 1) as nat) == li);
                assert forall|i: int| 0 <= i < 1 implies chained(
                    b,
                    #[trigger] kid(b, ci as int, i),
                    (g - 1) as nat,
                ) by {}
            }
        }
        lemma_chain_child_added(a, b, id as int, lo, hi, h, ci as int, ns);
        assert(height(b, ci as int, g) <= height(a, kid(a, id as int, 0), g)) by {
            if !leafy {
                lemma_tallest(a, kid(a, id as int, 0), g, a[kid(a, id as int, 0)].values@.len(), 0);
                assert(height(b, li as int, (g - 1) as nat) == 1);
                assert(tallest(b, ci as int, g, 0) == 0);
                assert(tallest(b, ci as int, g, 1) == 1);
            }
        }
        lemma_tall_child_added(a, b, id as int, lo, hi, h, ci as int, ns);
    }
}

/// Stores `entry` under the node `id` without splitting that node: directly
/// in a leaf; below an internal node in the child that the key is routed
/// to, or, where no separator lies above the key, in a new child at the
/// end. Where the child was split below, its separator moves to the child's
/// new bound and the new sibling is filed behind it.
pub(crate) fn settle<K: Increment, V: Copy>(
    nodes: &mut Vec<Node<K, V>>,
    id: usize,
    entry: Slot<K, V>,
    Ghost(lo): Ghost<int>,
    Ghost(hi): Ghost<int>,
    Ghost(h): Ghost<nat>,
    Ghost(max): Ghost<usize>,
    Ghost(threshold): Ghost<usize>,
)
    requires
        shaped(old(nodes)@, id as int, lo, hi, h),
        chained(old(nodes)@, id as int, h),
        lo <= entry.rank() < hi <= K::max_rank(),
        entry.1 is Left,
        tidy(old(nodes)@, max, threshold),
        old(nodes)@[id as int].values@.len() < limit(threshold),
    ensures
        inserted_one(old(nodes)@, final(nodes)@, id as int, lo, hi, h, entry.rank(), entry.value()),
        linked_one(old(nodes)@, final(nodes)@, id as int, h),
        lowered_one(old(nodes)@, final(nodes)@, id as int, h),
        tidy(final(nodes)@, max, threshold),
        flags_kept(old(nodes)@, final(nodes)@),
        old(nodes)@[id as int].t is Leaf ==> final(nodes)@.len() == old(nodes)@.len(),
    decreases h, 0nat,
{
    let ghost a = nodes@;
    let ghost s = a[id as int].values@;
    let ghost r = entry.rank();
    proof {
        lemma_above(s, r);
    }
    match nodes[id].find_child(entry) {
        Some(c) => {
            let ghost g = (h - 1) as nat;
            let ghost jj = above(s, r);
            let j = nodes[id].position(&entry.0);
            assert(shaped(a, c as int, low(a, id as int, lo, jj), s[jj].rank(), g));
            assert(s[jj].rank() <= s.last().rank());
            assert(chained(a, kid(a, id as int, jj), g));
            match route_insert(
                nodes,
                c,
                entry,
                Ghost(low(a, id as int, lo, jj)),
                Ghost(s[jj].rank()),
                Ghost(g),
                Ghost(max),
                Ghost(threshold),
            ) {
                None => {
                    proof {
                        lemma_passed_down(a, nodes@, id as int, lo, hi, h, jj, r, entry.value());
                        lemma_chain_passed_down(a, nodes@, id as int, lo, hi, h, jj);
                        lemma_tall_passed_down(a, nodes@, id as int, lo, hi, h, jj);
                    }
                },
                Some((sl, sib)) => {
                    let ghost m = nodes@;
                    assert(!owns(a, c as int, g, id as int));
                    assert(m[id as int] == a[id as int]);
                    let os = nodes[sib].separator(sib);
                    let node = &mut nodes[id];
                    node.values.set(j, sl);
                    node.values.insert(j + 1, os);
                    proof {
                        let b = nodes@;
                        assert forall|x: int| 0 <= x < m.len() && x != id implies #[trigger] b[x]
                            == m[x] by {}
                        lemma_filed(
                            a,
                            m,
                            b,
                            id as int,
                            lo,
                            hi,
                            h,
                            jj,
                            sib as int,
                            r,
                            entry.value(),
                            sl,
                            os,
                        );
                        lemma_chain_filed(
                            a,
                            m,
                            b,
                            id as int,
                            lo,
                            hi,
                            h,
                            jj,
                            sib as int,
                            r,
                            entry.value(),
                            sl,
                            os,
                        );
                        lemma_tall_filed(
                            a,
                            m,
                            b,
                            id as int,
                            lo,
                            hi,
                            h,
                            jj,
                            sib as int,
                            r,
                            entry.value(),
                            sl,
                            os,
                        );
                    }
                },
            }
        },
        None => {
            if nodes[id].is_leaf() {
                let node = &mut nodes[id];
                node.replace(entry);
                proof {
                    let b = nodes@;
                    assert forall|x: int| 0 <= x < a.len() && x != id implies #[trigger] b[x]
                        == a[x] by {}
                    lemma_leaf_put(a, b, id as int, lo, hi, h, entry);
                    lemma_chain_leaf(a, b, id as int, h);
                }
            } else {
                assert(s.last().rank() <= r) by {
                    assert(above(s, r) == s.len());
                }
                append_child(
                    nodes,
                    id,
                    entry,
                    Ghost(lo),
                    Ghost(hi),
                    Ghost(h),
                    Ghost(max),
                    Ghost(threshold),
                );
            }
        },
    }
}

/// Stores `entry` in the subtree under `id`. A node that has reached its
/// threshold, and holds two slots at least, is split first; the entry
/// then goes to the half that its key belongs to: the upper one from the
/// lower half's bound on. After a split the result is the separator for the
/// lower half, keyed by that node's bound, and the index of the new node.
pub(crate) fn route_insert<K: Increment, V: Copy>(
    nodes: &mut Vec<Node<K, V>>,
    id: usize,
    entry: Slot<K, V>,
    Ghost(lo): Ghost<int>,
    Ghost(hi): Ghost<int>,
    Ghost(h): Ghost<nat>,
    Ghost(max): Ghost<usize>,
    Ghost(threshold): Ghost<usize>,
) -> (res: Option<(Slot<K, V>, usize)>)
    requires
        shaped(old(nodes)@, id as int, lo, hi, h),
        chained(old(nodes)@, id as int, h),
        lo <= entry.rank() < hi <= K::max_rank(),
        entry.1 is Left,
        tidy(old(nodes)@, max, threshold),
    ensures
        res is None ==> inserted_one(
            old(nodes)@,
            final(nodes)@,
            id as int,
            lo,
            hi,
            h,
            entry.rank(),
            entry.value(),
        ),
        res matches Some((sl, sib)) ==> inserted_two(
            old(nodes)@,
            final(nodes)@,
            id as int,
            sib as int,
            lo,
            hi,
            h,
            entry.rank(),
            entry.value(),
        ) && sl.rank() == final(nodes)@[id as int].bound() && sl.1 == Either::<V, usize>::Right(id),
        res is None ==> linked_one(old(nodes)@, final(nodes)@, id as int, h),
        res is None ==> lowered_one(old(nodes)@, final(nodes)@, id as int, h),
        res matches Some((sl, sib)) ==> lowered_two(
            old(nodes)@,
            final(nodes)@,
            id as int,
            sib as int,
            h,
        ),
        res matches Some((sl, sib)) ==> linked_two(
            old(nodes)@,
            final(nodes)@,
            id as int,
            sib as int,
            h,
        ),
        res is Some <==> old(nodes)@[id as int].values@.len() >= threshold
            && old(nodes)@[id as int].values@.len() >= 2,
        tidy(final(nodes)@, max, threshold),
        flags_kept(old(nodes)@, final(nodes)@),
        res is None && old(nodes)@[id as int].t is Leaf ==> final(nodes)@.len()
            == old(nodes)@.len(),
    decreases h, 1nat,
{
    let ghost a = nodes@;
    let ghost r = entry.rank();
    let mut split: Option<usize> = None;
    if nodes[id].almost_full() && nodes[id].values.len() >= 2 {
        let sib = split_node(
            nodes,
            id,
            Ghost(lo),
            Ghost(hi),
            Ghost(h),
            Ghost(max),
            Ghost(threshold),
        );
        split = Some(sib);
        let ghost m = nodes@;
        let ghost b0 = m[id as int].bound();
        let boundary = nodes[id].separator(id);
        if entry.0.precedes(&boundary.0) {
            settle(nodes, id, entry, Ghost(lo), Ghost(b0), Ghost(h), Ghost(max), Ghost(threshold));
            proof {
                lemma_settled_lower(a, m, nodes@, id as int, sib as int, lo, hi, h, r,
                    entry.value());
                lemma_chain_settled_lower(a, m, nodes@, id as int, sib as int, lo, hi, h);
                lemma_tall_settled_lower(a, m, nodes@, id as int, sib as int, lo, hi, h);
            }
        } else {
            settle(nodes, sib, entry, Ghost(b0), Ghost(hi), Ghost(h), Ghost(max), Ghost(threshold));
            proof {
                lemma_settled_upper(a, m, nodes@, id as int, sib as int, lo, hi, h, r,
                    entry.value());
                lemma_chain_settled_upper(a, m, nodes@, id as int, sib as int, lo, hi, h);
                lemma_tall_settled_upper(a, m, nodes@, id as int, sib as int, lo, hi, h);
            }
        }
    } else {
        settle(nodes, id, entry, Ghost(lo), Ghost(hi), Ghost(h), Ghost(max), Ghost(threshold));
    }
    nodes[id].get_separator(id, split)
}

} // verus!
