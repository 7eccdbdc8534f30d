//! The tree: an arena of nodes under a top node, with lookup, upsert,
//! deletion and an in-order scan.

use vstd::prelude::*;
use crate::chain::{akin, chained, follows, lemma_chain_frame, lemma_chain_root_grown};
use crate::grow::lemma_root_grown;
use crate::increment::Increment;
use crate::layout::{
    alike, depth, first_leaf, home, last_leaf, lemma_end_leaves, lemma_home, lemma_owned_in_arena,
    lemma_owned_is_sound, lemma_range, lemma_tighten, lemma_widen, lookup, low, owns, shaped, tidy,
};
use crate::node::{limit, Node};
use crate::route::{find, leftmost, remove, route_insert};
use crate::run::{above, lemma_above, lemma_above_push, rising, stored};
use crate::slot::{Either, Slot};
use crate::tall::{
    far, height, lemma_far, lemma_far_child, lemma_far_first, lemma_tall_frame,
    lemma_tall_root_grown, spine,
};
use crate::walk::{
    content, gather, leaves, lemma_leaves, lemma_leaves_owned, lemma_reads, pairs, strung,
};

verus! {

/// An ordered index from keys to values: a B+tree whose nodes live in an
/// arena and refer to each other by index. Values are in the leaves, which
/// are chained in key order.
pub struct BTree<K, V> {
    nodes: Vec<Node<K, V>>,
    root: Option<usize>,
    max: usize,
    threshold: usize,
    levels: Ghost<nat>,
    low: Ghost<int>,
}

impl<K: Increment, V: Copy> View for BTree<K, V> {
    type V = Map<K, V>;

    /// The keys that the tree holds, each with its value.
    closed spec fn view(&self) -> Map<K, V> {
        Map::new(|k: K| self.found(k) is Some, |k: K| self.found(k)->0)
    }
}

impl<K: Increment, V: Copy> BTree<K, V> {
    /// What a search from the top finds for `k`.
    closed spec fn found(&self, k: K) -> Option<V> {
        match self.root {
            None => None,
            Some(r) => lookup(self.nodes@, r as int, self.levels@, k.rank()),
        }
    }

    /// The value that the tree holds for `k`, if it holds one.
    pub open spec fn value_of(&self, k: K) -> Option<V> {
        if self@.contains_key(k) {
            Some(self@[k])
        } else {
            None
        }
    }

    /// The fanout that the tree was made with.
    pub closed spec fn fanout(&self) -> usize {
        self.max
    }

    /// The number of slots at which a node is due for a split.
    pub closed spec fn threshold(&self) -> usize {
        self.threshold
    }

    /// The number of nodes in the arena.
    pub closed spec fn node_count(&self) -> nat {
        self.nodes@.len()
    }

    /// The node at arena index `x`.
    pub closed spec fn node_at(&self, x: int) -> Node<K, V> {
        self.nodes@[x]
    }

    /// The arena index of the top node, if the tree has nodes.
    pub closed spec fn top(&self) -> Option<usize> {
        self.root
    }

    /// The leaf at the left end of the tree; none in a tree without nodes.
    pub closed spec fn first_leaf(&self) -> Option<usize> {
        match self.root {
            None => None,
            Some(r) => Some(first_leaf(self.nodes@, r as int, self.levels@) as usize),
        }
    }

    /// The leaf in which a search for `k` ends, if it ends in one.
    pub closed spec fn leaf_for(&self, k: K) -> Option<int> {
        match self.root {
            None => None,
            Some(r) => home(self.nodes@, r as int, self.levels@, k.rank()),
        }
    }

    /// The arena indices of the leaves, from left to right.
    pub closed spec fn leaf_run(&self) -> Seq<int> {
        match self.root {
            None => Seq::empty(),
            Some(r) => leaves(self.nodes@, r as int, self.levels@),
        }
    }

    /// What the leaves hold, from left to right.
    pub closed spec fn entries(&self) -> Seq<(K, V)> {
        match self.root {
            None => Seq::empty(),
            Some(r) => content(self.nodes@, r as int, self.levels@),
        }
    }

    /// The height of the tree: the number of levels on the longest way from
    /// the top node down to a leaf; none in a tree without nodes.
    pub closed spec fn levels(&self) -> nat {
        match self.root {
            None => 0,
            Some(r) => height(self.nodes@, r as int, self.levels@),
        }
    }

    /// The level of the node at arena index `x`: one for the top node, and
    /// one more for a child than for its parent.
    pub closed spec fn level_of(&self, x: int) -> nat {
        match self.root {
            None => 0,
            Some(r) => far(self.nodes@, r as int, self.levels@, x),
        }
    }

    /// Whether the next insertion will split the top node: it has reached
    /// the threshold and holds two slots at least.
    pub open spec fn top_is_due(&self) -> bool {
        match self.top() {
            None => false,
            Some(r) => self.node_at(r as int).values@.len() >= self.threshold() && self.node_at(
                r as int,
            ).values@.len() >= 2,
        }
    }

    /// The top node is the last node of the arena, an internal node with
    /// two slots, of which the first refers to `old_top`.
    pub open spec fn grew_from(&self, old_top: usize) -> bool {
        &&& self.top() == Some((self.node_count() - 1) as usize)
        &&& self.node_count() >= 3
        &&& self.node_at(self.node_count() - 1).t is Internal
        &&& self.node_at(self.node_count() - 1).values@.len() == 2
        &&& self.node_at(self.node_count() - 1).values@[0].child() == old_top
        &&& self.node_at(self.node_count() - 1).values@[1].child() != old_top
    }

    /// The tree's invariant: the fanout is two at least and the threshold
    /// not above it; an empty arena has
    /// no top node; otherwise the top node, which alone is flagged as root,
    /// heads a search tree over all keys below the greatest one that owns
    /// every node of the arena, every node keeps within the limit, the
    /// leaves are chained in key order up to the last one, which refers to
    /// no other, and no way down from the top is longer than the way to the
    /// first leaf.
    pub closed spec fn wf(&self) -> bool {
        &&& self.max >= 2
        &&& self.threshold <= self.max
        &&& match self.root {
            None => self.nodes@.len() == 0,
            Some(r) => {
                &&& shaped(self.nodes@, r as int, self.low@, K::max_rank(), self.levels@)
                &&& forall|x: int|
                    0 <= x < self.nodes@.len() ==> #[trigger] owns(
                        self.nodes@,
                        r as int,
                        self.levels@,
                        x,
                    )
                &&& tidy(self.nodes@, self.max, self.threshold)
                &&& forall|x: int|
                    0 <= x < self.nodes@.len() ==> (#[trigger] self.nodes@[x]).is_root == (x
                        == r)
                &&& chained(self.nodes@, r as int, self.levels@)
                &&& self.nodes@[last_leaf(self.nodes@, r as int, self.levels@)].next is None
                &&& self.levels@ < self.nodes@.len()
                &&& spine(self.nodes@, r as int, self.levels@)
            },
        }
    }

    /// An empty tree with fanout `max`, whose nodes are due for a split on
    /// reaching half of `max` slots.
    pub fn new(max: usize) -> (tree: Self)
        requires
            max >= 2,
        ensures
            tree.wf(),
            tree.fanout() == max,
            tree.threshold() == max / 2,
            tree.levels() == 0,
            tree.node_count() == 0,
            tree.top() is None,
            tree@ == Map::<K, V>::empty(),
    {
        Self::with_threshold(max, max / 2)
    }

    /// An empty tree with fanout `max`, whose nodes are due for a split on
    /// reaching `threshold` slots. A node with fewer than two slots is never
    /// split, whatever the threshold.
    pub fn with_threshold(max: usize, threshold: usize) -> (tree: Self)
        requires
            max >= 2,
            threshold <= max,
        ensures
            tree.wf(),
            tree.fanout() == max,
            tree.threshold() == threshold,
            tree.levels() == 0,
            tree.node_count() == 0,
            tree.top() is None,
            tree@ == Map::<K, V>::empty(),
    {
        let tree = BTree {
            nodes: Vec::new(),
            root: None,
            max,
            threshold,
            levels: Ghost(0),
            low: Ghost(0),
        };
        assert(tree@ =~= Map::<K, V>::empty());
        tree
    }

    /// Whether `insert` takes the entry: a leaf slot whose key is not the
    /// greatest key of the domain.
    pub fn can_insert(entry: &Slot<K, V>) -> (ok: bool)
        ensures
            ok == (entry.1 is Left && entry.0.rank() < K::max_rank()),
    {
        let top = K::greatest();
        entry.is_leaf() && entry.0.precedes(&top)
    }

    /// Stores the entry's value under its key, in place of the value that
    /// the key had, if it had one. The entry is a leaf slot, and its key is
    /// not the greatest key of the domain, which has no successor to bound
    /// it.
    pub fn insert(&mut self, entry: Slot<K, V>)
        requires
            old(self).wf(),
            entry.1 is Left,
            entry.0.rank() < K::max_rank(),
        ensures
            final(self).wf(),
            final(self).fanout() == old(self).fanout(),
            final(self).threshold() == old(self).threshold(),
            final(self)@ == old(self)@.insert(entry.0, entry.value()),
            final(self).node_count() >= old(self).node_count(),
            forall|x: int|
                0 <= x < old(self).node_count() ==> (#[trigger] final(self).node_at(x)).t
                    == old(self).node_at(x).t,
            final(self).levels() == if old(self).levels() == 0 {
                1
            } else if old(self).top_is_due() {
                old(self).levels() + 1
            } else {
                old(self).levels()
            },
            old(self).top() is None ==> final(self).top() == Some(0usize)
                && final(self).node_count() == 1,
            old(self).top() is Some && !old(self).top_is_due() ==> final(self).top()
                == old(self).top(),
            old(self).top() is Some && old(self).top_is_due() ==> final(self).grew_from(
                old(self).top()->0,
            ),
    {
        let ghost r = entry.rank();
        let ghost v = entry.value();
        let ghost hi = K::max_rank();
        if self.root.is_none() {
            let mut leaf: Node<K, V> = Node::new_leaf(self.max);
            leaf.threshold = self.threshold;
            leaf.is_root = true;
            self.nodes.push(leaf);
            self.root = Some(self.nodes.len() - 1);
            self.levels = Ghost(0);
            self.low = Ghost(r);
            assert(forall|k: K| self.found(k) is None) by {
                assert forall|k: K| self.found(k) is None by {
                    lemma_above(self.nodes@[0].values@, k.rank());
                }
            }
        }
        let root = match self.root {
            Some(root) => root,
            None => {
                assert(false);
                0
            },
        };
        let ghost a = self.nodes@;
        let ghost h = self.levels@;
        let ghost lo = if r < self.low@ {
            r
        } else {
            self.low@
        };
        proof {
            lemma_widen(a, root as int, self.low@, hi, h, lo, hi);
        }
        self.low = Ghost(lo);
        assert(forall|k: K| self.found(k) == old(self).found(k));
        let res = route_insert(
            &mut self.nodes,
            root,
            entry,
            Ghost(lo),
            Ghost(hi),
            Ghost(h),
            Ghost(self.max),
            Ghost(self.threshold),
        );
        match res {
            None => {
                proof {
                    let b = self.nodes@;
                    assert forall|x: int| 0 <= x < b.len() implies #[trigger] owns(
                        b,
                        root as int,
                        h,
                        x,
                    ) by {
                        if x < a.len() {
                            assert(owns(a, root as int, h, x));
                        }
                    }
                }
            },
            Some((sl, sib)) => {
                let ghost m = self.nodes@;
                let os = self.nodes[sib].separator(sib);
                self.nodes[root].is_root = false;
                let mut top: Node<K, V> = Node::new_internal(self.max);
                top.threshold = self.threshold;
                top.is_root = true;
                proof {
                    lemma_above(top.values@, sl.rank());
                }
                top.replace(sl);
                proof {
                    lemma_tighten(m, sib as int, m[root as int].bound(), hi, h);
                    assert(top.values@.len() == 1 && top.values@[0] == sl);
                    lemma_above_push(top.values@, os, 0);
                }
                top.replace(os);
                self.nodes.push(top);
                self.root = Some(self.nodes.len() - 1);
                self.levels = Ghost(h + 1);
                proof {
                    let b = self.nodes@;
                    assert(b[m.len() as int].values@ =~= Seq::<Slot<K, V>>::empty().push(sl).push(
                        os,
                    ));
                    assert forall|x: int| 0 <= x < m.len() implies alike(m[x], #[trigger] b[x])
                        by {}
                    lemma_root_grown(a, m, b, root as int, sib as int, lo, hi, h, r, v, sl, os);
                    lemma_chain_root_grown(
                        a,
                        m,
                        b,
                        root as int,
                        sib as int,
                        lo,
                        hi,
                        h,
                        r,
                        v,
                        sl,
                        os,
                    );
                    lemma_tall_root_grown(
                        a,
                        m,
                        b,
                        root as int,
                        sib as int,
                        lo,
                        hi,
                        h,
                        r,
                        v,
                        sl,
                        os,
                    );
                }
            },
        }
        proof {
            assert forall|k: K| #[trigger] self.found(k) == if k == entry.0 {
                Some(v)
            } else {
                old(self).found(k)
            } by {
                if k.rank() == r {
                    K::rank_is_injective(k, entry.0);
                }
            }
            assert(self@ =~= old(self)@.insert(entry.0, v));
        }
    }

    /// The value stored under `key`, if there is one.
    pub fn get(&self, key: K) -> (v: Option<V>)
        requires
            self.wf(),
        ensures
            v == self.value_of(key),
    {
        match self.root {
            None => None,
            Some(root) => find(
                &self.nodes,
                root,
                key,
                Ghost(self.low@),
                Ghost(K::max_rank()),
                Ghost(self.levels@),
            ),
        }
    }

    /// Removes `key` and its value and says whether the key was there. The
    /// tree keeps its shape: no node is merged or freed.
    pub fn delete(&mut self, key: K) -> (removed: bool)
        requires
            old(self).wf(),
        ensures
            final(self).wf(),
            final(self).fanout() == old(self).fanout(),
            final(self).threshold() == old(self).threshold(),
            final(self).levels() == old(self).levels(),
            removed == old(self)@.contains_key(key),
            final(self)@ == old(self)@.remove(key),
            final(self).node_count() == old(self).node_count(),
            final(self).top() == old(self).top(),
            forall|x: int|
                0 <= x < old(self).node_count() && Some(x) != old(self).leaf_for(key)
                    ==> #[trigger] final(self).node_at(x) == old(self).node_at(x),
            old(self).leaf_for(key) matches Some(l) ==> final(self).node_at(l).t is Leaf
                && final(self).node_at(l).next == old(self).node_at(l).next
                && final(self).node_at(l).max == old(self).node_at(l).max
                && final(self).node_at(l).threshold == old(self).node_at(l).threshold
                && final(self).node_at(l).is_root == old(self).node_at(l).is_root
                && final(self).node_at(l).values@ == if removed {
                old(self).node_at(l).values@.remove(
                    above(old(self).node_at(l).values@, key.rank()) - 1,
                )
            } else {
                old(self).node_at(l).values@
            },
    {
        match self.root {
            None => {
                assert(self@ =~= old(self)@.remove(key));
                false
            },
            Some(root) => {
                let removed = remove(
                    &mut self.nodes,
                    root,
                    key,
                    Ghost(self.low@),
                    Ghost(K::max_rank()),
                    Ghost(self.levels@),
                );
                proof {
                    assert forall|x: int|
                        owns(old(self).nodes@, root as int, self.levels@, x) implies akin(
                        old(self).nodes@[x],
                        #[trigger] self.nodes@[x],
                    ) && self.nodes@[x].next == old(self).nodes@[x].next by {
                        lemma_owned_in_arena(
                            old(self).nodes@,
                            root as int,
                            self.low@,
                            K::max_rank(),
                            self.levels@,
                            x,
                        );
                    }
                    lemma_chain_frame(
                        old(self).nodes@,
                        self.nodes@,
                        root as int,
                        self.low@,
                        K::max_rank(),
                        self.levels@,
                    );
                    lemma_tall_frame(
                        old(self).nodes@,
                        self.nodes@,
                        root as int,
                        self.low@,
                        K::max_rank(),
                        self.levels@,
                    );
                    lemma_end_leaves(
                        old(self).nodes@,
                        root as int,
                        self.low@,
                        K::max_rank(),
                        self.levels@,
                    );
                    assert forall|x: int| 0 <= x < self.nodes@.len() implies #[trigger] owns(
                        self.nodes@,
                        root as int,
                        self.levels@,
                        x,
                    ) by {
                        assert(owns(old(self).nodes@, root as int, self.levels@, x));
                    }
                    assert forall|k: K| #[trigger] self.found(k) == if k == key {
                        None
                    } else {
                        old(self).found(k)
                    } by {
                        if k.rank() == key.rank() {
                            K::rank_is_injective(k, key);
                        }
                    }
                    assert(self@ =~= old(self)@.remove(key));
                }
                removed
            },
        }
    }

    /// The height of the tree, counted along the way to the first leaf,
    /// which is a longest one.
    pub fn height(&self) -> (n: usize)
        requires
            self.wf(),
        ensures
            n == self.levels(),
    {
        match self.root {
            None => 0,
            Some(root) => {
                let mut cur = root;
                let mut n: usize = 1;
                let count = self.nodes.len();
                let ghost a = self.nodes@;
                let ghost mut lo = self.low@;
                let ghost mut hi = K::max_rank();
                let ghost mut h = self.levels@;
                while !self.nodes[cur].is_leaf()
                    invariant
                        a == self.nodes@,
                        shaped(a, cur as int, lo, hi, h),
                        n + depth(a, cur as int, h) == 1 + self.levels(),
                        self.root is Some,
                        n + h == 1 + self.levels@,
                        self.levels@ < a.len(),
                        a.len() == count,
                    decreases h,
                {
                    let ghost s = a[cur as int].values@;
                    proof {
                        assert(shaped(a, s[0].child() as int, lo, s[0].rank(), (h - 1) as nat));
                        hi = s[0].rank();
                        h = (h - 1) as nat;
                    }
                    match self.nodes[cur].first_v() {
                        Some(Either::Right(c)) => {
                            cur = c;
                        },
                        _ => {
                            assert(false);
                        },
                    }
                    n = n + 1;
                }
                n
            },
        }
    }

    /// The leaf at the left end of the tree, where a walk along the chain
    /// begins; none in a tree without nodes.
    pub fn get_leftmost_leaf(&self) -> (first: Option<usize>)
        requires
            self.wf(),
        ensures
            first == self.first_leaf(),
            first matches Some(x) ==> x < self.node_count() && self.node_at(x as int).t is Leaf,
    {
        match self.root {
            None => None,
            Some(root) => {
                proof {
                    lemma_end_leaves(
                        self.nodes@,
                        root as int,
                        self.low@,
                        K::max_rank(),
                        self.levels@,
                    );
                }
                Some(
                    leftmost(
                        &self.nodes,
                        root,
                        Ghost(self.low@),
                        Ghost(K::max_rank()),
                        Ghost(self.levels@),
                    ),
                )
            },
        }
    }

    /// The number of nodes in the arena.
    pub fn len(&self) -> (n: usize)
        ensures
            n == self.node_count(),
    {
        self.nodes.len()
    }

    /// The arena index of the top node, if the tree has nodes.
    pub fn root(&self) -> (r: Option<usize>)
        ensures
            r == self.top(),
    {
        self.root
    }

    /// The node at arena index `id`.
    pub fn node(&self, id: usize) -> (n: &Node<K, V>)
        requires
            id < self.node_count(),
        ensures
            *n == self.node_at(id as int),
    {
        &self.nodes[id]
    }

    /// All keys with their values, in ascending key order, read from the
    /// leaves along the chain.
    pub fn scan(&self) -> (out: Vec<(K, V)>)
        requires
            self.wf(),
        ensures
            out@ == self.entries(),
            rising(out@),
            forall|i: int|
                0 <= i < out@.len() ==> self@.contains_key((#[trigger] out@[i]).0)
                    && self@[out@[i].0] == out@[i].1,
            forall|k: K|
                #[trigger] self@.contains_key(k) ==> exists|i: int|
                    0 <= i < out@.len() && (#[trigger] out@[i]).0 == k,
    {
        let mut out: Vec<(K, V)> = Vec::new();
        match self.root {
            None => {},
            Some(root) => {
                let ghost a = self.nodes@;
                let ghost ls = leaves(a, root as int, self.levels@);
                proof {
                    lemma_leaves(a, root as int, self.low@, K::max_rank(), self.levels@);
                    assert(ls.subrange(0, 0) =~= Seq::<int>::empty());
                }
                let mut cur = leftmost(
                    &self.nodes,
                    root,
                    Ghost(self.low@),
                    Ghost(K::max_rank()),
                    Ghost(self.levels@),
                );
                let ghost mut p: int = 0;
                let mut done = false;
                while !done
                    invariant
                        a == self.nodes@,
                        strung(a, ls),
                        a[ls.last()].next is None,
                        0 <= p <= ls.len(),
                        done ==> p == ls.len(),
                        !done ==> p < ls.len() && cur == ls[p],
                        out@ == gather(a, ls.subrange(0, p)),
                    decreases ls.len() - p,
                {
                    let node = &self.nodes[cur];
                    let ghost before = out@;
                    let mut i: usize = 0;
                    while i < node.values.len()
                        invariant
                            i <= node.values@.len(),
                            node.wf(),
                            node.t is Leaf,
                            out@ == before + pairs(*node).subrange(0, i as int),
                        decreases node.values@.len() - i,
                    {
                        let slot = node.values[i];
                        match slot.1 {
                            Either::Left(v) => {
                                out.push((slot.0, v));
                            },
                            Either::Right(_) => {
                                assert(false);
                            },
                        }
                        i = i + 1;
                        assert(out@ =~= before + pairs(*node).subrange(0, i as int));
                    }
                    proof {
                        assert(pairs(*node).subrange(0, i as int) =~= pairs(*node));
                        assert(ls.subrange(0, p + 1).drop_last() =~= ls.subrange(0, p));
                        assert(ls.subrange(0, p + 1).last() == ls[p]);
                    }
                    match node.next {
                        None => {
                            done = true;
                            proof {
                                if p < ls.len() - 1 {
                                    assert(follows(a, ls[p], ls[p + 1]));
                                }
                            }
                        },
                        Some(nx) => {
                            proof {
                                assert(follows(a, ls[p], ls[p + 1]));
                            }
                            cur = nx;
                        },
                    }
                    proof {
                        p = p + 1;
                    }
                }
                proof {
                    assert(ls.subrange(0, ls.len() as int) =~= ls);
                }
            },
        }
        proof {
            Self::law_scan(self);
        }
        out
    }

    /// Round trip: after `k` was given the value `v`, the tree holds `v`
    /// for `k`, and for every other key what it held before.
    pub proof fn law_round_trip(before: &Self, after: &Self, k: K, v: V)
        requires
            after@ == before@.insert(k, v),
        ensures
            after.value_of(k) == Some(v),
            forall|other: K| other != k ==> after.value_of(other) == before.value_of(other),
    {
    }

    /// Deletion: after `k` was removed, the tree holds nothing for `k`, and
    /// for every other key what it held before.
    pub proof fn law_deletion(before: &Self, after: &Self, k: K)
        requires
            after@ == before@.remove(k),
        ensures
            after.value_of(k) is None,
            forall|other: K| other != k ==> after.value_of(other) == before.value_of(other),
    {
    }

    /// Upsert: giving a key one value and then another leaves the tree as
    /// if only the second had been given, and among the entries that a scan
    /// reads exactly one has that key, with the second value.
    pub proof fn law_upsert(first: &Self, second: &Self, third: &Self, k: K, v1: V, v2: V)
        requires
            second@ == first@.insert(k, v1),
            third@ == second@.insert(k, v2),
            third.wf(),
        ensures
            third@ == first@.insert(k, v2),
            exists|i: int|
                0 <= i < third.entries().len() && #[trigger] third.entries()[i] == (k, v2),
            forall|i: int, j: int|
                0 <= i < third.entries().len() && 0 <= j < third.entries().len()
                    && third.entries()[i].0 == k && third.entries()[j].0 == k ==> i == j,
    {
        assert(third@ =~= first@.insert(k, v2));
        Self::law_scan(third);
        let c = third.entries();
        assert(third@.contains_key(k));
        let i = choose|i: int| 0 <= i < c.len() && (#[trigger] c[i]).0 == k;
        assert(third@[c[i].0] == c[i].1);
        assert(c[i] == (k, v2));
        assert forall|i: int, j: int|
            0 <= i < c.len() && 0 <= j < c.len() && c[i].0 == k && c[j].0 == k implies i == j by {
            if i < j {
                assert(c[i].0.rank() < c[j].0.rank());
            }
            if j < i {
                assert(c[j].0.rank() < c[i].0.rank());
            }
        }
    }

    /// Scan: the entries that the leaves hold, from left to right, ascend
    /// strictly by key, each is a key of the tree with its value, and no
    /// key of the tree is missing.
    pub proof fn law_scan(tree: &Self)
        requires
            tree.wf(),
        ensures
            rising(tree.entries()),
            forall|i: int|
                0 <= i < tree.entries().len() ==> tree@.contains_key(
                    (#[trigger] tree.entries()[i]).0,
                ) && tree@[tree.entries()[i].0] == tree.entries()[i].1,
            forall|k: K|
                #[trigger] tree@.contains_key(k) ==> exists|i: int|
                    0 <= i < tree.entries().len() && (#[trigger] tree.entries()[i]).0 == k,
    {
        let c = tree.entries();
        match tree.root {
            None => {},
            Some(root) => {
                lemma_reads(tree.nodes@, root as int, tree.low@, K::max_rank(), tree.levels@);
            },
        }
        assert forall|i: int| 0 <= i < c.len() implies tree@.contains_key((#[trigger] c[i]).0)
            && tree@[c[i].0] == c[i].1 by {
            assert(tree.found(c[i].0) == Some(c[i].1));
        }
        assert forall|k: K| #[trigger] tree@.contains_key(k) implies exists|i: int|
            0 <= i < c.len() && (#[trigger] c[i]).0 == k by {
            assert(tree.found(k) is Some);
            tree.key_in_range(k);
            let r = tree.root->0 as int;
            assert(lookup(tree.nodes@, r, tree.levels@, k.rank()) is Some);
            let i = choose|i: int| 0 <= i < c.len() && (#[trigger] c[i]).0.rank() == k.rank();
            K::rank_is_injective(c[i].0, k);
        }
    }

    /// Leaf chain: the run of leaves from left to right holds every leaf of
    /// the arena, each once; it begins with the leftmost leaf, each of its
    /// leaves refers to the one after it, and the last one refers to none.
    /// So a walk from the leftmost leaf along these references visits every
    /// leaf once and ends.
    pub proof fn law_leaf_chain(tree: &Self)
        requires
            tree.wf(),
        ensures
            tree.leaf_run().no_duplicates(),
            forall|x: int|
                0 <= x < tree.node_count() ==> (tree.node_at(x).t is Leaf
                    <==> #[trigger] tree.leaf_run().contains(x)),
            tree.top() is None ==> tree.leaf_run().len() == 0 && tree.node_count() == 0,
            tree.top() is Some ==> tree.leaf_run().len() > 0 && (tree.first_leaf() matches Some(f)
                && f == tree.leaf_run()[0]),
            forall|p: int|
                0 <= p < tree.leaf_run().len() - 1 ==> (tree.node_at(
                    #[trigger] tree.leaf_run()[p],
                ).next matches Some(n) && n == tree.leaf_run()[p + 1]),
            tree.leaf_run().len() > 0 ==> tree.node_at(tree.leaf_run().last()).next is None,
    {
        let ls = tree.leaf_run();
        match tree.root {
            None => {},
            Some(root) => {
                let a = tree.nodes@;
                assert(tree.nodes.len() == a.len());
                lemma_leaves(a, root as int, tree.low@, K::max_rank(), tree.levels@);
                lemma_leaves_owned(a, root as int, tree.low@, K::max_rank(), tree.levels@);
                lemma_end_leaves(a, root as int, tree.low@, K::max_rank(), tree.levels@);
                assert forall|x: int| 0 <= x < tree.node_count() implies (tree.node_at(x).t is Leaf
                    <==> #[trigger] ls.contains(x)) by {
                    assert(owns(a, root as int, tree.levels@, x));
                    if ls.contains(x) {
                        let p = choose|p: int| 0 <= p < ls.len() && ls[p] == x;
                        assert(a[ls[p]].t is Leaf);
                    }
                }
                assert forall|p: int| 0 <= p < ls.len() - 1 implies (tree.node_at(
                    #[trigger] ls[p],
                ).next matches Some(n) && n == ls[p + 1]) by {
                    assert(follows(a, ls[p], ls[p + 1]));
                }
            },
        }
    }

    /// Levels: the top node is on level one and every child one level below
    /// its parent; no node lies below the level that the height names, and
    /// the first leaf lies on it.
    pub proof fn law_levels(tree: &Self)
        requires
            tree.wf(),
        ensures
            tree.top() matches Some(r) ==> tree.level_of(r as int) == 1,
            forall|x: int, i: int|
                0 <= x < tree.node_count() && tree.node_at(x).t is Internal && 0 <= i
                    < tree.node_at(x).values@.len() ==> tree.level_of(
                    #[trigger] tree.node_at(x).values@[i].child() as int,
                ) == tree.level_of(x) + 1,
            forall|x: int|
                0 <= x < tree.node_count() ==> 1 <= #[trigger] tree.level_of(x) <= tree.levels(),
            tree.first_leaf() matches Some(f) ==> tree.level_of(f as int) == tree.levels(),
    {
        match tree.root {
            None => {},
            Some(root) => {
                let a = tree.nodes@;
                let lo = tree.low@;
                let hi = K::max_rank();
                let h = tree.levels@;
                assert(tree.nodes.len() == a.len());
                assert forall|x: int, i: int|
                    0 <= x < a.len() && a[x].t is Internal && 0 <= i
                        < a[x].values@.len() implies tree.level_of(
                    #[trigger] a[x].values@[i].child() as int,
                ) == tree.level_of(x) + 1 by {
                    assert(owns(a, root as int, h, x));
                    lemma_far_child(a, root as int, lo, hi, h, x, i);
                }
                assert forall|x: int| 0 <= x < a.len() implies 1 <= #[trigger] tree.level_of(x)
                    <= tree.levels() by {
                    assert(owns(a, root as int, h, x));
                    lemma_far(a, root as int, lo, hi, h, x);
                }
                lemma_far_first(a, root as int, lo, hi, h);
                lemma_end_leaves(a, root as int, lo, hi, h);
            },
        }
    }

    /// Search: a search for a key ends in a leaf of the arena, and the tree
    /// holds for the key what that leaf stores for it; where the search ends
    /// in no leaf, the tree holds nothing for the key.
    pub proof fn law_search(tree: &Self, k: K)
        requires
            tree.wf(),
        ensures
            tree.leaf_for(k) is None ==> tree.value_of(k) is None,
            tree.leaf_for(k) matches Some(l) ==> 0 <= l < tree.node_count() && tree.node_at(l).t
                is Leaf && tree.value_of(k) == match stored(tree.node_at(l).values@, k.rank()) {
                Some(s) => Some(s.value()),
                None => None,
            },
    {
        match tree.root {
            None => {},
            Some(root) => {
                lemma_home(
                    tree.nodes@,
                    root as int,
                    tree.low@,
                    K::max_rank(),
                    tree.levels@,
                    k.rank(),
                );
            },
        }
    }

    /// Nodes: every node of the arena is sound and carries the tree's
    /// fanout and threshold, holds at most as many slots as the threshold
    /// says, or two where that is less, and so never more than the fanout;
    /// only the top node is flagged as root.
    pub proof fn law_nodes(tree: &Self, x: int)
        requires
            tree.wf(),
            0 <= x < tree.node_count(),
        ensures
            tree.node_at(x).values@.len() <= limit(tree.threshold()),
            tree.node_at(x).values@.len() <= tree.fanout(),
            tree.node_at(x).threshold == tree.threshold(),
            tree.node_at(x).max == tree.fanout(),
            tree.node_at(x).wf(),
            tree.node_at(x).is_root == (tree.top() == Some(x as usize)),
    {
        let r = tree.root->0 as int;
        let a = tree.nodes@;
        assert(tree.nodes.len() == a.len());
        assert(a[x].max == tree.max);
        assert(owns(a, r, tree.levels@, x));
        lemma_owned_is_sound(a, r, tree.low@, K::max_rank(), tree.levels@, x);
    }

    /// A key that the tree holds lies in the range that the top node
    /// covers.
    proof fn key_in_range(&self, k: K)
        requires
            self.wf(),
            self.found(k) is Some,
        ensures
            self.root is Some,
            self.low@ <= k.rank() < K::max_rank(),
    {
        let r = self.root->0 as int;
        if !(self.low@ <= k.rank() < K::max_rank()) {
            lemma_range(
                self.nodes@,
                r,
                self.low@,
                K::max_rank(),
                self.levels@,
                k.rank(),
            );
        }
    }
}

} // verus!
