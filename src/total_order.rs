use core::cmp::Ordering;
use vstd::prelude::*;

verus! {

/// A key type whose order is the order of its `rank` on the integers.
///
/// `compare` is the executable three-way comparison; it reports `Equal`
/// exactly on equal values, so two distinct values never share a rank.
pub trait TotalOrder: Sized {
    spec fn rank(&self) -> int;

    fn compare(&self, other: &Self) -> (c: Ordering)
        ensures
            (c == Ordering::Less) == (self.rank() < other.rank()),
            (c == Ordering::Greater) == (self.rank() > other.rank()),
            (c == Ordering::Equal) == (*self == *other),
    ;
}

impl TotalOrder for i32 {
    open spec fn rank(&self) -> int {
        *self as int
    }

    fn compare(&self, other: &Self) -> (c: Ordering) {
        if *self < *other {
            Ordering::Less
        } else if *self > *other {
            Ordering::Greater
        } else {
            Ordering::Equal
        }
    }
}

impl TotalOrder for i64 {
    open spec fn rank(&self) -> int {
        *self as int
    }

    fn compare(&self, other: &Self) -> (c: Ordering) {
        if *self < *other {
            Ordering::Less
        } else if *self > *other {
            Ordering::Greater
        } else {
            Ordering::Equal
        }
    }
}

impl TotalOrder for u32 {
    open spec fn rank(&self) -> int {
        *self as int
    }

    fn compare(&self, other: &Self) -> (c: Ordering) {
        if *self < *other {
            Ordering::Less
        } else if *self > *other {
            Ordering::Greater
        } else {
            Ordering::Equal
        }
    }
}

impl TotalOrder for u64 {
    open spec fn rank(&self) -> int {
        *self as int
    }

    fn compare(&self, other: &Self) -> (c: Ordering) {
        if *self < *other {
            Ordering::Less
        } else if *self > *other {
            Ordering::Greater
        } else {
            Ordering::Equal
        }
    }
}

impl TotalOrder for usize {
    open spec fn rank(&self) -> int {
        *self as int
    }

    fn compare(&self, other: &Self) -> (c: Ordering) {
        if *self < *other {
            Ordering::Less
        } else if *self > *other {
            Ordering::Greater
        } else {
            Ordering::Equal
        }
    }
}

} // verus!
