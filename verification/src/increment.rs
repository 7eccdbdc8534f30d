//! What a tree asks of its keys: a total order with a successor.

use vstd::prelude::*;

verus! {

/// A key domain laid out along the integers: every key has a rank, distinct
/// keys have distinct ranks, and the successor of a key is the key one rank up.
pub trait Increment: Sized + Copy {
    /// The position of the key in its domain.
    spec fn rank(self) -> int;

    /// The rank of the greatest key of the domain.
    spec fn max_rank() -> int;

    /// Two keys with the same rank are the same key.
    proof fn rank_is_injective(a: Self, b: Self)
        requires
            a.rank() == b.rank(),
        ensures
            a == b,
    ;

    /// The greatest key of the domain.
    const MAX: Self;

    /// The greatest key of the domain, with what is known of it.
    fn greatest() -> (m: Self)
        ensures
            m == Self::MAX,
            m.rank() == Self::max_rank(),
    ;

    /// Whether `self` comes strictly before `other`.
    fn precedes(&self, other: &Self) -> (b: bool)
        ensures
            b == (self.rank() < other.rank()),
    ;

    /// Moves the key one rank up, in place.
    fn increment(&mut self)
        requires
            old(self).rank() < Self::max_rank(),
        ensures
            final(self).rank() == old(self).rank() + 1,
    ;

    /// The key one rank up.
    fn next(&self) -> (n: Self)
        requires
            self.rank() < Self::max_rank(),
        ensures
            n.rank() == self.rank() + 1,
    ;
}

impl Increment for i8 {
    const MAX: Self = i8::MAX;

    open spec fn rank(self) -> int {
        self as int
    }

    open spec fn max_rank() -> int {
        i8::MAX as int
    }

    proof fn rank_is_injective(a: Self, b: Self) {
    }

    fn greatest() -> (m: Self) {
        i8::MAX
    }

    fn precedes(&self, other: &Self) -> (b: bool) {
        *self < *other
    }

    fn increment(&mut self) {
        *self += 1;
    }

    fn next(&self) -> (n: Self) {
        *self + 1
    }
}

impl Increment for i16 {
    const MAX: Self = i16::MAX;

    open spec fn rank(self) -> int {
        self as int
    }

    open spec fn max_rank() -> int {
        i16::MAX as int
    }

    proof fn rank_is_injective(a: Self, b: Self) {
    }

    fn greatest() -> (m: Self) {
        i16::MAX
    }

    fn precedes(&self, other: &Self) -> (b: bool) {
        *self < *other
    }

    fn increment(&mut self) {
        *self += 1;
    }

    fn next(&self) -> (n: Self) {
        *self + 1
    }
}

impl Increment for i32 {
    const MAX: Self = i32::MAX;

    open spec fn rank(self) -> int {
        self as int
    }

    open spec fn max_rank() -> int {
        i32::MAX as int
    }

    proof fn rank_is_injective(a: Self, b: Self) {
    }

    fn greatest() -> (m: Self) {
        i32::MAX
    }

    fn precedes(&self, other: &Self) -> (b: bool) {
        *self < *other
    }

    fn increment(&mut self) {
        *self += 1;
    }

    fn next(&self) -> (n: Self) {
        *self + 1
    }
}

impl Increment for i64 {
    const MAX: Self = i64::MAX;

    open spec fn rank(self) -> int {
        self as int
    }

    open spec fn max_rank() -> int {
        i64::MAX as int
    }

    proof fn rank_is_injective(a: Self, b: Self) {
    }

    fn greatest() -> (m: Self) {
        i64::MAX
    }

    fn precedes(&self, other: &Self) -> (b: bool) {
        *self < *other
    }

    fn increment(&mut self) {
        *self += 1;
    }

    fn next(&self) -> (n: Self) {
        *self + 1
    }
}

impl Increment for isize {
    const MAX: Self = isize::MAX;

    open spec fn rank(self) -> int {
        self as int
    }

    open spec fn max_rank() -> int {
        isize::MAX as int
    }

    proof fn rank_is_injective(a: Self, b: Self) {
    }

    fn greatest() -> (m: Self) {
        isize::MAX
    }

    fn precedes(&self, other: &Self) -> (b: bool) {
        *self < *other
    }

    fn increment(&mut self) {
        *self += 1;
    }

    fn next(&self) -> (n: Self) {
        *self + 1
    }
}

impl Increment for u8 {
    const MAX: Self = u8::MAX;

    open spec fn rank(self) -> int {
        self as int
    }

    open spec fn max_rank() -> int {
        u8::MAX as int
    }

    proof fn rank_is_injective(a: Self, b: Self) {
    }

    fn greatest() -> (m: Self) {
        u8::MAX
    }

    fn precedes(&self, other: &Self) -> (b: bool) {
        *self < *other
    }

    fn increment(&mut self) {
        *self += 1;
    }

    fn next(&self) -> (n: Self) {
        *self + 1
    }
}

impl Increment for u16 {
    const MAX: Self = u16::MAX;

    open spec fn rank(self) -> int {
        self as int
    }

    open spec fn max_rank() -> int {
        u16::MAX as int
    }

    proof fn rank_is_injective(a: Self, b: Self) {
    }

    fn greatest() -> (m: Self) {
        u16::MAX
    }

    fn precedes(&self, other: &Self) -> (b: bool) {
        *self < *other
    }

    fn increment(&mut self) {
        *self += 1;
    }

    fn next(&self) -> (n: Self) {
        *self + 1
    }
}

impl Increment for u32 {
    const MAX: Self = u32::MAX;

    open spec fn rank(self) -> int {
        self as int
    }

    open spec fn max_rank() -> int {
        u32::MAX as int
    }

    proof fn rank_is_injective(a: Self, b: Self) {
    }

    fn greatest() -> (m: Self) {
        u32::MAX
    }

    fn precedes(&self, other: &Self) -> (b: bool) {
        *self < *other
    }

    fn increment(&mut self) {
        *self += 1;
    }

    fn next(&self) -> (n: Self) {
        *self + 1
    }
}

impl Increment for u64 {
    const MAX: Self = u64::MAX;

    open spec fn rank(self) -> int {
        self as int
    }

    open spec fn max_rank() -> int {
        u64::MAX as int
    }

    proof fn rank_is_injective(a: Self, b: Self) {
    }

    fn greatest() -> (m: Self) {
        u64::MAX
    }

    fn precedes(&self, other: &Self) -> (b: bool) {
        *self < *other
    }

    fn increment(&mut self) {
        *self += 1;
    }

    fn next(&self) -> (n: Self) {
        *self + 1
    }
}

impl Increment for usize {
    const MAX: Self = usize::MAX;

    open spec fn rank(self) -> int {
        self as int
    }

    open spec fn max_rank() -> int {
        usize::MAX as int
    }

    proof fn rank_is_injective(a: Self, b: Self) {
    }

    fn greatest() -> (m: Self) {
        usize::MAX
    }

    fn precedes(&self, other: &Self) -> (b: bool) {
        *self < *other
    }

    fn increment(&mut self) {
        *self += 1;
    }

    fn next(&self) -> (n: Self) {
        *self + 1
    }
}

} // verus!
