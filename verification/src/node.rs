//! Nodes: a kind, a key-ordered run of slots, and a reference to the next
//! leaf; with finding, storing, removing and splitting.

use vstd::prelude::*;
use crate::increment::Increment;
use crate::run::{
    above, ascending, holds, lemma_above, lemma_above_unique, lemma_insert_keeps_order,
    lemma_stored_insert, lemma_stored_update, stored,
};
use crate::slot::{Either, Slot};

verus! {

/// Whether a node holds values or routes to children.
#[derive(PartialEq, Eq, Debug, Clone, Copy)]
pub enum NodeType {
    Internal,
    Leaf,
}

/// A key-ordered run of slots without repeated keys. A leaf also refers to
/// the leaf that follows it in key order.
#[derive(Debug)]
pub struct Node<K, V> {
    pub t: NodeType,
    pub values: Vec<Slot<K, V>>,
    pub next: Option<usize>,
    pub max: usize,
    pub threshold: usize,
    pub is_root: bool,
}

/// The most slots that a node ever holds in a tree whose nodes are due for
/// a split at `threshold` slots: that many, but two at least.
pub open spec fn limit(threshold: usize) -> int {
    if threshold >= 2 {
        threshold as int
    } else {
        2
    }
}

impl<K: Increment, V: Copy> Node<K, V> {
    /// Keys ascend without repeats, every slot is of the node's kind, and
    /// only a leaf refers to a following node.
    pub open spec fn wf(&self) -> bool {
        &&& ascending(self.values@)
        &&& forall|i: int|
            0 <= i < self.values@.len() ==> ((#[trigger] self.values@[i]).1 is Left) == (self.t
                is Leaf)
        &&& (self.t is Internal ==> self.next is None)
    }

    /// The exclusive upper bound that the node offers for its own keys: one
    /// past the last key of a leaf, the last separator of an internal node.
    pub open spec fn bound(&self) -> int
        recommends
            self.values@.len() > 0,
    {
        if self.t is Leaf {
            self.values@.last().rank() + 1
        } else {
            self.values@.last().rank()
        }
    }

    /// The child that rank `r` is routed to: the one behind the first
    /// separator above `r`.
    pub open spec fn child_for(&self, r: int) -> Option<usize> {
        let j = above(self.values@, r);
        if self.t is Leaf || j >= self.values@.len() {
            None
        } else {
            Some(self.values@[j].child())
        }
    }

    /// An empty leaf for a tree with fanout `max`, due for a split at half of
    /// it.
    pub fn new_leaf(max: usize) -> (n: Self)
        ensures
            n.t is Leaf,
            n.values@ == Seq::<Slot<K, V>>::empty(),
            n.next is None,
            n.max == max,
            n.threshold == max / 2,
            !n.is_root,
            n.wf(),
    {
        Node {
            t: NodeType::Leaf,
            values: Vec::new(),
            next: None,
            max,
            threshold: max / 2,
            is_root: false,
        }
    }

    /// An empty internal node for a tree with fanout `max`, due for a split
    /// at half of it.
    pub fn new_internal(max: usize) -> (n: Self)
        ensures
            n.t is Internal,
            n.values@ == Seq::<Slot<K, V>>::empty(),
            n.next is None,
            n.max == max,
            n.threshold == max / 2,
            !n.is_root,
            n.wf(),
    {
        Node {
            t: NodeType::Internal,
            values: Vec::new(),
            next: None,
            max,
            threshold: max / 2,
            is_root: false,
        }
    }

    /// Whether the node is a leaf.
    pub fn is_leaf(&self) -> (b: bool)
        ensures
            b == (self.t is Leaf),
    {
        match self.t {
            NodeType::Leaf => true,
            NodeType::Internal => false,
        }
    }

    /// Whether the node has no slots.
    pub fn is_empty(&self) -> (b: bool)
        ensures
            b == (self.values@.len() == 0),
    {
        self.values.len() == 0
    }

    /// Whether the node has reached its threshold, which is half of its
    /// capacity unless it was set otherwise, and is due for a split.
    pub fn almost_full(&self) -> (b: bool)
        ensures
            b == (self.values@.len() >= self.threshold),
    {
        self.values.len() >= self.threshold
    }

    /// The index of the first slot whose key lies above `key`.
    pub fn position(&self, key: &K) -> (p: usize)
        requires
            self.wf(),
        ensures
            p == above(self.values@, key.rank()),
            p <= self.values@.len(),
    {
        let mut p: usize = 0;
        while p < self.values.len() && !key.precedes(&self.values[p].0)
            invariant
                p <= self.values@.len(),
                forall|i: int| 0 <= i < p ==> (#[trigger] self.values@[i]).rank() <= key.rank(),
            decreases self.values@.len() - p,
        {
            p = p + 1;
        }
        proof {
            lemma_above_unique(self.values@, key.rank(), p as int);
        }
        p
    }

    /// The child to descend into for the key of `value`: the one behind the
    /// first separator strictly above that key. A leaf has no children.
    pub fn find_child(&self, value: Slot<K, V>) -> (c: Option<usize>)
        requires
            self.wf(),
        ensures
            c == self.child_for(value.rank()),
    {
        if self.is_leaf() {
            return None;
        }
        let p = self.position(&value.0);
        if p < self.values.len() {
            match self.values[p].1 {
                Either::Right(c) => Some(c),
                Either::Left(_) => None,
            }
        } else {
            None
        }
    }

    /// The slot with the least key.
    pub fn first(&self) -> (s: Option<&Slot<K, V>>)
        ensures
            self.values@.len() == 0 ==> s is None,
            self.values@.len() > 0 ==> s == Some(&self.values@[0]),
    {
        if self.values.len() > 0 {
            Some(&self.values[0])
        } else {
            None
        }
    }

    /// The slot with the greatest key.
    pub fn last(&self) -> (s: Option<&Slot<K, V>>)
        ensures
            self.values@.len() == 0 ==> s is None,
            self.values@.len() > 0 ==> s == Some(&self.values@.last()),
    {
        let n = self.values.len();
        if n > 0 {
            Some(&self.values[n - 1])
        } else {
            None
        }
    }

    /// The least key.
    pub fn first_k(&self) -> (k: Option<K>)
        ensures
            self.values@.len() == 0 ==> k is None,
            self.values@.len() > 0 ==> k == Some(self.values@[0].0),
    {
        match self.first() {
            Some(s) => Some(s.0),
            None => None,
        }
    }

    /// The payload of the slot with the least key.
    pub fn first_v(&self) -> (v: Option<Either<V, usize>>)
        ensures
            self.values@.len() == 0 ==> v is None,
            self.values@.len() > 0 ==> v == Some(self.values@[0].1),
    {
        match self.first() {
            Some(s) => Some(s.1),
            None => None,
        }
    }

    /// The greatest key.
    pub fn last_k(&self) -> (k: Option<K>)
        ensures
            self.values@.len() == 0 ==> k is None,
            self.values@.len() > 0 ==> k == Some(self.values@.last().0),
    {
        match self.last() {
            Some(s) => Some(s.0),
            None => None,
        }
    }

    /// The payload of the slot with the greatest key.
    pub fn last_v(&self) -> (v: Option<Either<V, usize>>)
        ensures
            self.values@.len() == 0 ==> v is None,
            self.values@.len() > 0 ==> v == Some(self.values@.last().1),
    {
        match self.last() {
            Some(s) => Some(s.1),
            None => None,
        }
    }

    /// The slots in key order.
    pub fn iter(&self) -> (v: Vec<Slot<K, V>>)
        ensures
            v@ == self.values@,
    {
        let mut v: Vec<Slot<K, V>> = Vec::new();
        let mut i: usize = 0;
        while i < self.values.len()
            invariant
                i <= self.values@.len(),
                v@ == self.values@.subrange(0, i as int),
            decreases self.values@.len() - i,
        {
            v.push(self.values[i]);
            i = i + 1;
            assert(v@ =~= self.values@.subrange(0, i as int));
        }
        assert(v@ =~= self.values@);
        v
    }

    /// The slot stored under `key`, if there is one.
    pub fn get(&self, key: K) -> (s: Option<Slot<K, V>>)
        requires
            self.wf(),
        ensures
            s == stored(self.values@, key.rank()),
    {
        let p = self.position(&key);
        proof {
            lemma_above(self.values@, key.rank());
        }
        if p > 0 && !self.values[p - 1].0.precedes(&key) {
            Some(self.values[p - 1])
        } else {
            None
        }
    }

    /// Adds `slot` unless its key is already there.
    pub fn insert(&mut self, slot: Slot<K, V>)
        requires
            old(self).wf(),
            (slot.1 is Left) == (old(self).t is Leaf),
        ensures
            final(self).wf(),
            final(self).t == old(self).t,
            final(self).next == old(self).next,
            final(self).max == old(self).max,
            final(self).threshold == old(self).threshold,
            final(self).is_root == old(self).is_root,
            holds(old(self).values@, slot.rank()) ==> final(self).values@ == old(self).values@,
            !holds(old(self).values@, slot.rank()) ==> final(self).values@ == old(
                self,
            ).values@.insert(above(old(self).values@, slot.rank()), slot),
    {
        let p = self.position(&slot.0);
        proof {
            lemma_above(self.values@, slot.rank());
        }
        if p > 0 && !self.values[p - 1].0.precedes(&slot.0) {
            return ;
        }
        self.values.insert(p, slot);
        proof {
            lemma_insert_keeps_order(old(self).values@, p as int, slot);
        }
    }

    /// Stores `slot`, in place of the slot with the same key where there is
    /// one, which is then handed back.
    pub fn replace(&mut self, slot: Slot<K, V>) -> (evicted: Option<Slot<K, V>>)
        requires
            old(self).wf(),
            (slot.1 is Left) == (old(self).t is Leaf),
        ensures
            final(self).wf(),
            final(self).t == old(self).t,
            final(self).next == old(self).next,
            final(self).max == old(self).max,
            final(self).threshold == old(self).threshold,
            final(self).is_root == old(self).is_root,
            holds(old(self).values@, slot.rank()) ==> evicted == Some(
                old(self).values@[above(old(self).values@, slot.rank()) - 1],
            ) && final(self).values@ == old(self).values@.update(
                above(old(self).values@, slot.rank()) - 1,
                slot,
            ),
            !holds(old(self).values@, slot.rank()) ==> evicted is None && final(self).values@
                == old(self).values@.insert(above(old(self).values@, slot.rank()), slot),
    {
        let p = self.position(&slot.0);
        proof {
            lemma_above(self.values@, slot.rank());
        }
        if p > 0 && !self.values[p - 1].0.precedes(&slot.0) {
            let evicted = self.values[p - 1];
            self.values.set(p - 1, slot);
            Some(evicted)
        } else {
            self.values.insert(p, slot);
            proof {
                lemma_insert_keeps_order(old(self).values@, p as int, slot);
            }
            None
        }
    }

    /// Removes the slot stored under `key` from a leaf and says whether there
    /// was one. An internal node is left as it is.
    pub fn delete(&mut self, key: K) -> (removed: bool)
        requires
            old(self).wf(),
        ensures
            final(self).wf(),
            final(self).t == old(self).t,
            final(self).next == old(self).next,
            final(self).max == old(self).max,
            final(self).threshold == old(self).threshold,
            final(self).is_root == old(self).is_root,
            removed == (old(self).t is Leaf && holds(old(self).values@, key.rank())),
            removed ==> final(self).values@ == old(self).values@.remove(
                above(old(self).values@, key.rank()) - 1,
            ),
            !removed ==> final(self).values@ == old(self).values@,
    {
        if !self.is_leaf() {
            return false;
        }
        let p = self.position(&key);
        proof {
            lemma_above(self.values@, key.rank());
        }
        if p > 0 && !self.values[p - 1].0.precedes(&key) {
            self.values.remove(p - 1);
            true
        } else {
            false
        }
    }

    /// Moves the upper half of the slots, from the median on, to a new node
    /// of the same kind, which is handed back. `sibling` is the arena index
    /// at which the caller will store the new node: a leaf refers to it from
    /// now on, and the new leaf refers to the leaf that followed before.
    pub fn split(&mut self, sibling: usize) -> (gt: Node<K, V>)
        requires
            old(self).wf(),
            old(self).values@.len() >= 1,
        ensures
            final(self).wf(),
            gt.wf(),
            final(self).values@ == old(self).values@.subrange(
                0,
                old(self).values@.len() as int / 2,
            ),
            gt.values@ == old(self).values@.subrange(
                old(self).values@.len() as int / 2,
                old(self).values@.len() as int,
            ),
            final(self).t == old(self).t,
            final(self).max == old(self).max,
            final(self).threshold == old(self).threshold,
            final(self).is_root == old(self).is_root,
            gt.t == old(self).t,
            gt.max == old(self).max,
            gt.threshold == old(self).threshold,
            !gt.is_root,
            gt.next == old(self).next,
            final(self).next == if old(self).t is Leaf {
                Some(sibling)
            } else {
                old(self).next
            },
    {
        let len = self.values.len();
        let upper = self.values.split_off(len / 2);
        let mut gt = if self.is_leaf() {
            Node::new_leaf(self.max)
        } else {
            Node::new_internal(self.max)
        };
        gt.values = upper;
        gt.threshold = self.threshold;
        if self.is_leaf() {
            gt.next = self.next;
            self.next = Some(sibling);
        }
        gt
    }

    /// The separator under which a parent files this node after a split:
    /// a slot keyed by the node's bound that refers to the node, stored at
    /// arena index `id`, together with the index of the new sibling. Without
    /// a split there is nothing to report.
    pub fn get_separator(&self, id: usize, other: Option<usize>) -> (r: Option<
        (Slot<K, V>, usize),
    >)
        requires
            self.wf(),
            other is Some ==> self.values@.len() > 0,
            other is Some && self.t is Leaf ==> self.values@.last().rank() < K::max_rank(),
        ensures
            other is None ==> r is None,
            other matches Some(o) ==> (r matches Some((s, sibling)) && s.rank() == self.bound()
                && s.1 == Either::<V, usize>::Right(id) && sibling == o),
    {
        match other {
            None => None,
            Some(o) => Some((self.separator(id), o)),
        }
    }

    /// The separators under which a parent files this node, stored at arena
    /// index `id`, and its new sibling `other`, each keyed by the bound of
    /// the node it refers to. Without a split there is nothing to report.
    pub fn get_separators(&self, id: usize, other: Option<(&Node<K, V>, usize)>) -> (r: Option<
        (Slot<K, V>, Slot<K, V>),
    >)
        requires
            self.wf(),
            other is Some ==> self.values@.len() > 0,
            other is Some && self.t is Leaf ==> self.values@.last().rank() < K::max_rank(),
            other matches Some((o, oid)) ==> o.wf() && o.values@.len() > 0 && (o.t is Leaf
                ==> o.values@.last().rank() < K::max_rank()),
        ensures
            other is None ==> r is None,
            other matches Some((o, oid)) ==> (r matches Some((s, os)) && s.rank() == self.bound()
                && s.1 == Either::<V, usize>::Right(id) && os.rank() == o.bound() && os.1
                == Either::<V, usize>::Right(oid)),
    {
        match other {
            None => None,
            Some((o, oid)) => Some((self.separator(id), o.separator(oid))),
        }
    }

    /// Files `other`, stored at arena index `other_id`, in this internal
    /// node under its bound: a slot with that key and that index takes the
    /// place of the slot that had the key, which is handed back, or else
    /// its place in the order.
    pub fn set_last(&mut self, other: &Node<K, V>, other_id: usize) -> (evicted: Option<
        Slot<K, V>,
    >)
        requires
            old(self).wf(),
            old(self).t is Internal,
            other.wf(),
            other.values@.len() > 0,
            other.t is Leaf ==> other.values@.last().rank() < K::max_rank(),
        ensures
            final(self).wf(),
            final(self).t == old(self).t,
            final(self).next == old(self).next,
            final(self).max == old(self).max,
            final(self).threshold == old(self).threshold,
            final(self).is_root == old(self).is_root,
            evicted == stored(old(self).values@, other.bound()),
            stored(final(self).values@, other.bound()) matches Some(s) && s.1 == Either::<
                V,
                usize,
            >::Right(other_id),
            forall|q: int|
                q != other.bound() ==> #[trigger] stored(final(self).values@, q) == stored(
                    old(self).values@,
                    q,
                ),
            final(self).values@.len() == old(self).values@.len() + if evicted is Some {
                0int
            } else {
                1int
            },
    {
        let s = other.separator(other_id);
        proof {
            lemma_above(self.values@, s.rank());
            if holds(self.values@, s.rank()) {
                lemma_stored_update(self.values@, above(self.values@, s.rank()) - 1, s);
            } else {
                lemma_stored_insert(self.values@, s);
            }
        }
        self.replace(s)
    }

    /// A slot keyed by the node's bound that refers to arena index `id`.
    pub fn separator(&self, id: usize) -> (s: Slot<K, V>)
        requires
            self.wf(),
            self.values@.len() > 0,
            self.t is Leaf ==> self.values@.last().rank() < K::max_rank(),
        ensures
            s.rank() == self.bound(),
            s.1 == Either::<V, usize>::Right(id),
    {
        let n = self.values.len();
        let mut k = self.values[n - 1].0;
        if self.is_leaf() {
            k.increment();
        }
        Slot::new_internal(k, id)
    }
}

} // verus!
