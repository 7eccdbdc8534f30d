//! Slots: a key with a value or with a reference to a child node.

use vstd::prelude::*;
use crate::increment::Increment;

verus! {

/// One of two alternatives.
#[derive(PartialEq, Eq, Debug, Clone, Copy)]
pub enum Either<A, B> {
    Left(A),
    Right(B),
}

/// A key together with its payload: a value in a leaf, or the arena index of
/// a child node in an internal node. Slots are ordered and identified by
/// their key alone.
#[derive(PartialEq, Eq, Debug, Clone, Copy)]
pub struct Slot<A, B>(pub A, pub Either<B, usize>);

impl<A, B> Slot<A, B> {
    /// The arena index that an internal slot refers to.
    pub open spec fn child(self) -> usize
        recommends
            self.1 is Right,
    {
        self.1->Right_0
    }

    /// The value that a leaf slot carries.
    pub open spec fn value(self) -> B
        recommends
            self.1 is Left,
    {
        self.1->Left_0
    }

    /// A slot that carries the value `b` under the key `a`.
    pub fn new_leaf(a: A, b: B) -> (s: Self)
        ensures
            s == Slot(a, Either::<B, usize>::Left(b)),
    {
        Slot(a, Either::Left(b))
    }

    /// A slot that refers to the child at arena index `node`, whose keys lie
    /// below `a`.
    pub fn new_internal(a: A, node: usize) -> (s: Self)
        ensures
            s == Slot(a, Either::<B, usize>::Right(node)),
    {
        Slot(a, Either::Right(node))
    }

    /// Whether the slot carries a value.
    pub fn is_leaf(&self) -> (b: bool)
        ensures
            b == (self.1 is Left),
    {
        match self.1 {
            Either::Left(_) => true,
            Either::Right(_) => false,
        }
    }
}

impl<A: Increment, B> Slot<A, B> {
    /// The rank of the slot's key.
    pub open spec fn rank(self) -> int {
        self.0.rank()
    }

    /// Moves the key to its successor and leaves the payload alone.
    pub fn incr_k(&mut self)
        requires
            old(self).0.rank() < A::max_rank(),
        ensures
            final(self).0.rank() == old(self).0.rank() + 1,
            final(self).1 == old(self).1,
    {
        self.0.increment();
    }

    /// Whether this slot sorts strictly before `other`: keys decide, payloads
    /// do not.
    pub fn precedes(&self, other: &Self) -> (b: bool)
        ensures
            b == (self.0.rank() < other.0.rank()),
    {
        self.0.precedes(&other.0)
    }

    /// Whether both slots stand for the same key.
    pub fn same_key(&self, other: &Self) -> (b: bool)
        ensures
            b == (self.0 == other.0),
    {
        let b = !self.0.precedes(&other.0) && !other.0.precedes(&self.0);
        proof {
            if b {
                A::rank_is_injective(self.0, other.0);
            }
        }
        b
    }
}

} // verus!
