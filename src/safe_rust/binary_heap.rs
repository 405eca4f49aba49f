//! A binary heap kept in a vector whose order is given by a comparator:
//! `comparator(a, b)` says whether `a` comes before `b`. No item comes
//! before its parent, so the first item comes no later than any other.
use crate::binary_heap::{lemma_swap_multiset, parent_of, swap_items};
use vstd::multiset::Multiset;
use vstd::prelude::*;

verus! {

pub struct Heap<T, F: Fn(&T, &T) -> bool> {
    items: Vec<T>,
    /// Returns `true` if the first argument should come before the second
    /// argument in the heap order.
    comparator: F,
}

/// `f` says that `a` comes before `b`.
pub open spec fn before<T, F: Fn(&T, &T) -> bool>(f: F, a: T, b: T) -> bool {
    call_ensures(f, (&a, &b), true)
}

/// `f` accepts any two items, answers every question one way only, and
/// orders items as a strict weak order: `before` is asymmetric and
/// transitive, and so is its negation.
pub open spec fn is_strict_weak_order<T, F: Fn(&T, &T) -> bool>(f: F) -> bool {
    &&& forall|a: &T, b: &T| #[trigger] call_requires(f, (a, b))
    &&& forall|a: &T, b: &T, r: bool| #[trigger] call_ensures(f, (a, b), r) ==> r == before(f, *a, *b)
    &&& forall|a: T, b: T| #[trigger] before(f, a, b) ==> !before(f, b, a)
    &&& forall|a: T, b: T, c: T|
        #![trigger before(f, a, b), before(f, b, c)]
        before(f, a, b) && before(f, b, c) ==> before(f, a, c)
    &&& forall|a: T, b: T, c: T|
        #![trigger before(f, a, b), before(f, b, c)]
        !before(f, a, b) && !before(f, b, c) ==> !before(f, a, c)
}

/// No item comes before its parent.
pub open spec fn heap_ordered<T, F: Fn(&T, &T) -> bool>(f: F, s: Seq<T>) -> bool {
    forall|k: int| 0 < k < s.len() ==> !#[trigger] before(f, s[k], s[parent_of(k)])
}

/// `x` is an item of `m` and no item of `m` comes before it.
pub open spec fn is_first<T, F: Fn(&T, &T) -> bool>(f: F, m: Multiset<T>, x: T) -> bool {
    &&& m.contains(x)
    &&& forall|y: T| #[trigger] m.contains(y) ==> !before(f, y, x)
}

proof fn lemma_root_is_first<T, F: Fn(&T, &T) -> bool>(f: F, s: Seq<T>, i: int)
    requires
        is_strict_weak_order(f),
        heap_ordered(f, s),
        0 <= i < s.len(),
    ensures
        !before(f, s[i], s[0]),
    decreases i,
{
    if i > 0 {
        let p = parent_of(i);
        assert(!before(f, s[i], s[p]));
        lemma_root_is_first(f, s, p);
    }
}

proof fn lemma_first_of_heap<T, F: Fn(&T, &T) -> bool>(f: F, s: Seq<T>)
    requires
        is_strict_weak_order(f),
        heap_ordered(f, s),
        s.len() > 0,
    ensures
        is_first(f, s.to_multiset(), s[0]),
{
    broadcast use vstd::seq_lib::group_to_multiset_ensures;

    assert(s.contains(s[0]));
    assert forall|y: T| #[trigger] s.to_multiset().contains(y) implies !before(f, y, s[0]) by {
        assert(s.contains(y));
        let i = choose|i: int| 0 <= i < s.len() && s[i] == y;
        lemma_root_is_first(f, s, i);
    }
}

impl<T, F: Fn(&T, &T) -> bool> View for Heap<T, F> {
    type V = Multiset<T>;

    /// The items of the heap, without their order.
    closed spec fn view(&self) -> Multiset<T> {
        self.items@.to_multiset()
    }
}

impl<T, F: Fn(&T, &T) -> bool> Heap<T, F> {
    /// The comparator the heap was made with.
    pub closed spec fn order(&self) -> F {
        self.comparator
    }

    /// The comparator is a strict weak order and the items are laid out in
    /// heap order.
    pub closed spec fn well_formed(&self) -> bool {
        &&& is_strict_weak_order(self.comparator)
        &&& heap_ordered(self.comparator, self.items@)
    }

    pub fn new(comparator: F) -> (heap: Self)
        requires
            is_strict_weak_order(comparator),
        ensures
            heap.well_formed(),
            heap.order() == comparator,
            heap@ == Multiset::<T>::empty(),
    {
        broadcast use vstd::seq_lib::group_to_multiset_ensures;

        Heap { items: Vec::new(), comparator }
    }

    pub fn add(&mut self, value: T)
        requires
            old(self).well_formed(),
        ensures
            final(self).well_formed(),
            final(self).order() == old(self).order(),
            final(self)@ == old(self)@.insert(value),
    {
        broadcast use vstd::seq_lib::group_to_multiset_ensures;

        self.items.push(value);
        let added_value_index = self.items.len() - 1;
        self.bubble_up(added_value_index);
    }

    /// No item but the one at `c` comes before its parent, and none of the
    /// children of `c` comes before the parent of `c`.
    spec fn ordered_except_up(f: F, s: Seq<T>, c: int) -> bool {
        &&& forall|k: int| 0 < k < s.len() && k != c ==> !#[trigger] before(f, s[k], s[parent_of(k)])
        &&& c > 0 ==> forall|k: int|
            0 < k < s.len() && parent_of(k) == c ==> !#[trigger] before(f, s[k], s[parent_of(c)])
    }

    /// No item whose parent is at `lo` or beyond comes before its parent,
    /// but the children of `p`; when `p` is not `lo`, none of the children
    /// of `p` comes before the parent of `p`.
    spec fn ordered_except_down(f: F, s: Seq<T>, lo: int, p: int) -> bool {
        &&& forall|k: int|
            0 < k < s.len() && parent_of(k) >= lo && parent_of(k) != p ==> !#[trigger] before(
                f,
                s[k],
                s[parent_of(k)],
            )
        &&& p != lo ==> forall|k: int|
            0 < k < s.len() && parent_of(k) == p ==> !#[trigger] before(f, s[k], s[parent_of(p)])
    }

    /// Moves the item at `child_index` up past every parent it comes before.
    fn bubble_up(&mut self, child_index: usize)
        requires
            is_strict_weak_order(old(self).comparator),
            child_index < old(self).items@.len(),
            Self::ordered_except_up(old(self).comparator, old(self).items@, child_index as int),
        ensures
            final(self).comparator == old(self).comparator,
            heap_ordered(final(self).comparator, final(self).items@),
            final(self).items@.to_multiset() == old(self).items@.to_multiset(),
            final(self).items@.len() == old(self).items@.len(),
        decreases child_index, 1int,
    {
        if let Some(parent_index) = Self::parent_index(child_index) {
            self.bubble_up_from(child_index, parent_index);
        }
    }

    fn bubble_up_from(&mut self, child_index: usize, parent_index: usize)
        requires
            is_strict_weak_order(old(self).comparator),
            0 < child_index < old(self).items@.len(),
            parent_index == parent_of(child_index as int),
            Self::ordered_except_up(old(self).comparator, old(self).items@, child_index as int),
        ensures
            final(self).comparator == old(self).comparator,
            heap_ordered(final(self).comparator, final(self).items@),
            final(self).items@.to_multiset() == old(self).items@.to_multiset(),
            final(self).items@.len() == old(self).items@.len(),
        decreases child_index, 0int,
    {
        let ghost f = self.comparator;
        if (self.comparator)(&self.items[child_index], &self.items[parent_index]) {
            let ghost s = self.items@;
            proof {
                lemma_swap_multiset(s, parent_index as int, child_index as int);
            }
            swap_items(&mut self.items, parent_index, child_index);
            proof {
                let t = self.items@;
                let c = child_index as int;
                let p = parent_index as int;
                assert(before(f, s[c], s[p]));
                assert forall|k: int| 0 < k < t.len() && k != p implies !#[trigger] before(
                    f,
                    t[k],
                    t[parent_of(k)],
                ) by {
                    if k == c {
                    } else if parent_of(k) == p {
                        assert(!before(f, s[k], s[p]));
                    } else if parent_of(k) == c {
                        assert(!before(f, s[k], s[p]));
                    }
                }
                if p > 0 {
                    assert forall|k: int| 0 < k < t.len() && parent_of(k) == p implies !#[trigger] before(
                        f,
                        t[k],
                        t[parent_of(p)],
                    ) by {
                        assert(!before(f, s[p], s[parent_of(p)]));
                        if k != c {
                            assert(!before(f, s[k], s[p]));
                        }
                    }
                }
            }
            self.bubble_up(parent_index);
        }
    }

    /// Removes and returns an item that no other item comes before.
    pub fn remove(&mut self) -> (r: Option<T>)
        requires
            old(self).well_formed(),
        ensures
            final(self).well_formed(),
            final(self).order() == old(self).order(),
            old(self)@.len() == 0 ==> r is None && final(self)@ == old(self)@,
            old(self)@.len() > 0 ==> (r matches Some(x) && is_first(old(self).order(), old(self)@, x)
                && final(self)@ == old(self)@.remove(x)),
    {
        broadcast use vstd::seq_lib::group_to_multiset_ensures;

        if self.items.is_empty() {
            return None;
        }
        let ghost f = self.comparator;
        proof {
            lemma_first_of_heap(f, self.items@);
        }
        let ghost s = self.items@;
        let root = self.items.swap_remove(0);
        proof {
            let last = s.len() - 1;
            if last > 0 {
                assert(self.items@ =~= s.remove(last as int).update(0, s[last as int]));
                vstd::seq_lib::to_multiset_update(s.remove(last as int), 0, s[last as int]);
                assert(self.items@.to_multiset() =~= s.to_multiset().remove(s[0]));
                assert forall|k: int| 0 < k < self.items@.len() && parent_of(k) != 0 implies !#[trigger] before(
                    f,
                    self.items@[k],
                    self.items@[parent_of(k)],
                ) by {
                    assert(!before(f, s[k], s[parent_of(k)]));
                }
            } else {
                assert(self.items@ =~= s.remove(0));
            }
        }
        self.bubble_down(0, Ghost(0));
        Some(root)
    }

    /// Moves the item at `parent_index` down past every child that comes
    /// before it, always swapping with the child that comes first.
    fn bubble_down(&mut self, parent_index: usize, lo: Ghost<int>)
        requires
            is_strict_weak_order(old(self).comparator),
            0 <= lo@ <= parent_index,
            parent_index == lo@ || parent_of(parent_index as int) >= lo@,
            Self::ordered_except_down(old(self).comparator, old(self).items@, lo@, parent_index as int),
        ensures
            final(self).comparator == old(self).comparator,
            forall|k: int|
                0 < k < final(self).items@.len() && parent_of(k) >= lo@ ==> !#[trigger] before(
                    final(self).comparator,
                    final(self).items@[k],
                    final(self).items@[parent_of(k)],
                ),
            final(self).items@.to_multiset() == old(self).items@.to_multiset(),
            final(self).items@.len() == old(self).items@.len(),
            forall|k: int|
                0 <= k < final(self).items@.len() && k < parent_index ==> final(self).items@[k]
                    == old(self).items@[k],
        decreases old(self).items@.len() - parent_index,
    {
        let ghost f = self.comparator;
        let len = self.items.len();
        if parent_index >= len / 2 {
            // A position in the second half of the vector has no children.
            return;
        }
        let left_child_index = Self::left_child_index(parent_index);
        let right_child_index = Self::right_child_index(parent_index);

        // The child that should be compared with the parent: the right one
        // where it exists and comes before the left one, else the left one.
        let target_index = if right_child_index < len && (self.comparator)(
            &self.items[right_child_index],
            &self.items[left_child_index],
        ) {
            right_child_index
        } else {
            left_child_index
        };
        if target_index < len && (self.comparator)(
            &self.items[target_index],
            &self.items[parent_index],
        ) {
            let ghost s = self.items@;
            proof {
                lemma_swap_multiset(s, parent_index as int, target_index as int);
            }
            swap_items(&mut self.items, parent_index, target_index);
            proof {
                let t = self.items@;
                let p = parent_index as int;
                let g = target_index as int;
                assert(before(f, s[g], s[p]));
                assert forall|k: int|
                    0 < k < t.len() && parent_of(k) >= lo@ && parent_of(k) != g implies !#[trigger] before(
                        f,
                        t[k],
                        t[parent_of(k)],
                    ) by {
                    if parent_of(k) == p {
                        assert(k == left_child_index || k == right_child_index);
                        if k != g {
                            if right_child_index < len {
                                assert(!before(f, s[k], s[g]));
                            }
                        }
                    } else if k == p {
                        assert(!before(f, s[g], s[parent_of(p)]));
                    }
                }
                assert forall|k: int| 0 < k < t.len() && parent_of(k) == g implies !#[trigger] before(
                    f,
                    t[k],
                    t[parent_of(g)],
                ) by {
                    assert(!before(f, s[k], s[g]));
                }
            }
            self.bubble_down(target_index, lo);
        }
    }

    /// An item that no other item comes before, without removing it.
    pub fn peek(&self) -> (r: Option<&T>)
        requires
            self.well_formed(),
        ensures
            self@.len() == 0 ==> r is None,
            self@.len() > 0 ==> (r matches Some(x) && is_first(self.order(), self@, *x)),
    {
        broadcast use vstd::seq_lib::group_to_multiset_ensures;

        if self.items.len() > 0 {
            proof {
                lemma_first_of_heap(self.comparator, self.items@);
            }
        }
        self.items.first()
    }

    /// A heap holding the items of `vec`, built bottom-up by moving each
    /// item that has children down into place, from the last such item to
    /// the first.
    pub fn from_vec(vec: Vec<T>, comparator: F) -> (heap: Self)
        requires
            is_strict_weak_order(comparator),
        ensures
            heap.well_formed(),
            heap.order() == comparator,
            heap@ == vec@.to_multiset(),
    {
        let mut heap = Heap { items: vec, comparator };
        let len = heap.items.len();
        let mut i: usize = len;
        while i > 0
            invariant
                i <= len,
                heap.comparator == comparator,
                is_strict_weak_order(comparator),
                heap.items@.len() == len,
                heap.items@.to_multiset() == vec@.to_multiset(),
                forall|k: int|
                    0 < k < len && parent_of(k) >= i ==> !#[trigger] before(
                        comparator,
                        heap.items@[k],
                        heap.items@[parent_of(k)],
                    ),
            decreases i,
        {
            i -= 1;
            heap.bubble_down(i, Ghost(i as int));
        }
        heap
    }

    fn parent_index(child_index: usize) -> (r: Option<usize>)
        ensures
            child_index == 0 ==> r is None,
            child_index > 0 ==> r == Some(parent_of(child_index as int) as usize),
    {
        if child_index == 0 {
            return None;
        }
        Some((child_index - 1) / 2)
    }

    fn left_child_index(parent_index: usize) -> (r: usize)
        requires
            parent_index < usize::MAX / 2,
        ensures
            r == 2 * parent_index + 1,
    {
        (2 * parent_index) + 1
    }

    fn right_child_index(parent_index: usize) -> (r: usize)
        requires
            parent_index < usize::MAX / 2,
        ensures
            r == 2 * parent_index + 2,
    {
        (2 * parent_index) + 2
    }
}

} // verus!
