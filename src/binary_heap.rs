//! A binary max-heap kept in a vector: the item at index `i` ranks at least
//! as high as the items at `2 * i + 1` and `2 * i + 2`, so the first item is
//! a greatest one.
use crate::total_order::TotalOrder;
use core::cmp::Ordering;
use vstd::multiset::Multiset;
use vstd::prelude::*;

verus! {

pub struct Heap<T> {
    items: Vec<T>,
}

/// Index of the parent of the item at `i > 0`.
pub open spec fn parent_of(i: int) -> int {
    (i - 1) / 2
}

/// Every item other than the first ranks no higher than its parent.
pub open spec fn max_heap_ordered<T: TotalOrder>(s: Seq<T>) -> bool {
    forall|k: int| 0 < k < s.len() ==> #[trigger] s[parent_of(k)].rank() >= s[k].rank()
}

/// `x` ranks at least as high as every item of `m`.
pub open spec fn is_greatest<T: TotalOrder>(m: Multiset<T>, x: T) -> bool {
    &&& m.contains(x)
    &&& forall|y: T| #[trigger] m.contains(y) ==> y.rank() <= x.rank()
}

/// In a heap-ordered sequence the first item ranks at least as high as the
/// item at `i`.
proof fn lemma_first_is_greatest<T: TotalOrder>(s: Seq<T>, i: int)
    requires
        max_heap_ordered(s),
        0 <= i < s.len(),
    ensures
        s[i].rank() <= s[0].rank(),
    decreases i,
{
    if i > 0 {
        assert(s[parent_of(i)].rank() >= s[i].rank());
        lemma_first_is_greatest(s, parent_of(i));
    }
}

proof fn lemma_greatest_of_heap<T: TotalOrder>(s: Seq<T>)
    requires
        max_heap_ordered(s),
        s.len() > 0,
    ensures
        is_greatest(s.to_multiset(), s[0]),
{
    broadcast use vstd::seq_lib::group_to_multiset_ensures;

    assert(s.contains(s[0]));
    assert forall|y: T| #[trigger] s.to_multiset().contains(y) implies y.rank() <= s[0].rank() by {
        assert(s.contains(y));
        let i = choose|i: int| 0 <= i < s.len() && s[i] == y;
        lemma_first_is_greatest(s, i);
    }
}

/// Swapping two items leaves the multiset of items unchanged.
pub(crate) proof fn lemma_swap_multiset<T>(s: Seq<T>, i: int, j: int)
    requires
        0 <= i < s.len(),
        0 <= j < s.len(),
    ensures
        s.update(i, s[j]).update(j, s[i]).to_multiset() == s.to_multiset(),
{
    broadcast use vstd::seq_lib::group_to_multiset_ensures;

    let t = s.update(i, s[j]);
    vstd::seq_lib::to_multiset_update(s, i, s[j]);
    vstd::seq_lib::to_multiset_update(t, j, s[i]);
    assert(s.update(i, s[j]).update(j, s[i]).to_multiset() =~= s.to_multiset());
}

/// Relies on `slice::swap`: exchanges the items at `i` and `j`, which must
/// both be in bounds.
#[verifier::external_body]
pub(crate) fn swap_items<T>(v: &mut Vec<T>, i: usize, j: usize)
    requires
        i < old(v)@.len(),
        j < old(v)@.len(),
    ensures
        final(v)@ == old(v)@.update(i as int, old(v)@[j as int]).update(j as int, old(v)@[i as int]),
{
    v.swap(i, j)
}

impl<T: TotalOrder> View for Heap<T> {
    type V = Multiset<T>;

    /// The items of the heap, without their order.
    closed spec fn view(&self) -> Multiset<T> {
        self.items@.to_multiset()
    }
}

impl<T: TotalOrder> Heap<T> {
    /// The items are laid out in heap order.
    pub closed spec fn well_formed(&self) -> bool {
        max_heap_ordered(self.items@)
    }

    pub fn new() -> (heap: Self)
        ensures
            heap.well_formed(),
            heap@ == Multiset::<T>::empty(),
    {
        broadcast use vstd::seq_lib::group_to_multiset_ensures;

        Heap { items: Vec::new() }
    }

    pub fn add(&mut self, value: T)
        requires
            old(self).well_formed(),
        ensures
            final(self).well_formed(),
            final(self)@ == old(self)@.insert(value),
    {
        broadcast use vstd::seq_lib::group_to_multiset_ensures;

        self.items.push(value);
        let added_value_index = self.items.len() - 1;
        self.bubble_up(added_value_index);
    }

    /// Moves the item at `child_index` up past every parent that ranks
    /// below it.
    fn bubble_up(&mut self, child_index: usize)
        requires
            child_index < old(self).items@.len(),
            Self::ordered_except_up(old(self).items@, child_index as int),
        ensures
            max_heap_ordered(final(self).items@),
            final(self).items@.to_multiset() == old(self).items@.to_multiset(),
            final(self).items@.len() == old(self).items@.len(),
        decreases child_index, 1int,
    {
        if let Some(parent_index) = Self::parent_index(child_index) {
            self.bubble_up_from(child_index, parent_index);
        }
    }

    fn bubble_up_from(&mut self, child_index: usize, parent_index: usize)
        requires
            0 < child_index < old(self).items@.len(),
            parent_index == parent_of(child_index as int),
            Self::ordered_except_up(old(self).items@, child_index as int),
        ensures
            max_heap_ordered(final(self).items@),
            final(self).items@.to_multiset() == old(self).items@.to_multiset(),
            final(self).items@.len() == old(self).items@.len(),
        decreases child_index, 0int,
    {
        match self.items[parent_index].compare(&self.items[child_index]) {
            Ordering::Equal | Ordering::Greater => {},
            Ordering::Less => {
                let ghost s = self.items@;
                proof {
                    lemma_swap_multiset(s, parent_index as int, child_index as int);
                }
                swap_items(&mut self.items, parent_index, child_index);
                proof {
                    assert(self.items@ =~= s.update(parent_index as int, s[child_index as int]).update(
                        child_index as int,
                        s[parent_index as int],
                    ));
                }
                self.bubble_up(parent_index);
            },
        }
    }

    /// Heap order holds at every position but `c`, whose item may rank
    /// above its parent; the parent of `c` still ranks at least as high as
    /// the children of `c`.
    spec fn ordered_except_up(s: Seq<T>, c: int) -> bool {
        &&& forall|k: int| 0 < k < s.len() && k != c ==> #[trigger] s[parent_of(k)].rank() >= s[k].rank()
        &&& c > 0 ==> forall|k: int|
            0 < k < s.len() && parent_of(k) == c ==> s[parent_of(c)].rank() >= #[trigger] s[k].rank()
    }

    /// Heap order holds at every position whose parent is at `lo` or
    /// beyond, but at the children of `p`; the parent of `p` ranks at least
    /// as high as the children of `p` when `p` is below `lo`.
    spec fn ordered_except_down(s: Seq<T>, lo: int, p: int) -> bool {
        &&& forall|k: int|
            0 < k < s.len() && parent_of(k) >= lo && parent_of(k) != p
                ==> #[trigger] s[parent_of(k)].rank() >= s[k].rank()
        &&& p != lo ==> forall|k: int|
            0 < k < s.len() && parent_of(k) == p ==> s[parent_of(p)].rank() >= #[trigger] s[k].rank()
    }

    pub fn remove(&mut self) -> (r: Option<T>)
        requires
            old(self).well_formed(),
        ensures
            final(self).well_formed(),
            old(self)@.len() == 0 ==> r is None && final(self)@ == old(self)@,
            old(self)@.len() > 0 ==> (r matches Some(x) && is_greatest(old(self)@, x) && final(self)@ == old(self)@.remove(x)),
    {
        broadcast use vstd::seq_lib::group_to_multiset_ensures;

        if self.items.is_empty() {
            return None;
        }
        proof {
            lemma_greatest_of_heap(self.items@);
        }
        let ghost s = self.items@;
        let root = self.items.swap_remove(0);
        proof {
            let last = s.len() - 1;
            if last > 0 {
                assert(self.items@ =~= s.remove(last as int).update(0, s[last as int]));
                assert(s.remove(last as int).to_multiset() == s.to_multiset().remove(s[last as int]));
                vstd::seq_lib::to_multiset_update(s.remove(last as int), 0, s[last as int]);
                assert(self.items@.to_multiset() =~= s.to_multiset().remove(s[0]));
                assert forall|k: int| 0 < k < self.items@.len() && parent_of(k) != 0 implies #[trigger] self.items@[parent_of(
                    k,
                )].rank() >= self.items@[k].rank() by {
                    assert(s[parent_of(k)].rank() >= s[k].rank());
                }
            } else {
                assert(self.items@ =~= s.remove(0));
            }
        }
        self.bubble_down(0, Ghost(0));
        Some(root)
    }

    /// Moves the item at `parent_index` down past every child that ranks
    /// above it, always swapping with the higher-ranked child.
    fn bubble_down(&mut self, parent_index: usize, lo: Ghost<int>)
        requires
            0 <= lo@ <= parent_index,
            parent_index == lo@ || parent_of(parent_index as int) >= lo@,
            Self::ordered_except_down(old(self).items@, lo@, parent_index as int),
        ensures
            forall|k: int|
                0 < k < final(self).items@.len() && parent_of(k) >= lo@
                    ==> #[trigger] final(self).items@[parent_of(k)].rank() >= final(self).items@[k].rank(),
            final(self).items@.to_multiset() == old(self).items@.to_multiset(),
            final(self).items@.len() == old(self).items@.len(),
            forall|k: int|
                0 <= k < final(self).items@.len() && k < parent_index ==> final(self).items@[k]
                    == old(self).items@[k],
        decreases old(self).items@.len() - parent_index,
    {
        let len = self.items.len();
        if parent_index >= len / 2 {
            // A position in the second half of the vector has no children.
            return;
        }
        let left_child_index = Self::left_child_index(parent_index);
        let right_child_index = Self::right_child_index(parent_index);

        let mut target = None;
        if right_child_index < len {
            match self.items[right_child_index].compare(&self.items[left_child_index]) {
                Ordering::Greater => {
                    target = Some(right_child_index);
                },
                _ => {
                    target = Some(left_child_index);
                },
            }
        } else if left_child_index < len {
            target = Some(left_child_index);
        }
        if let Some(target_index) = target {
            if let Ordering::Greater = self.items[target_index].compare(&self.items[parent_index]) {
                let ghost s = self.items@;
                proof {
                    lemma_swap_multiset(s, parent_index as int, target_index as int);
                }
                swap_items(&mut self.items, parent_index, target_index);
                proof {
                    let t = self.items@;
                    assert(t =~= s.update(parent_index as int, s[target_index as int]).update(
                        target_index as int,
                        s[parent_index as int],
                    ));
                    assert forall|k: int|
                        0 < k < t.len() && parent_of(k) >= lo@ && parent_of(k) != target_index
                            implies #[trigger] t[parent_of(k)].rank() >= t[k].rank() by {
                        if parent_of(k) == parent_index {
                            assert(k == left_child_index || k == right_child_index);
                        }
                    }
                }
                self.bubble_down(target_index, lo);
            }
        }
    }

    /// A greatest item, without removing it.
    pub fn peek(&self) -> (r: Option<&T>)
        requires
            self.well_formed(),
        ensures
            self@.len() == 0 ==> r is None,
            self@.len() > 0 ==> (r matches Some(x) && is_greatest(self@, *x)),
    {
        broadcast use vstd::seq_lib::group_to_multiset_ensures;

        if self.items.len() > 0 {
            proof {
                lemma_greatest_of_heap(self.items@);
            }
        }
        self.items.first()
    }

    /// A heap holding the items of `vec`, built bottom-up by moving each
    /// item that has children down into place, from the last such item to
    /// the first.
    pub fn from_vec(vec: Vec<T>) -> (heap: Self)
        ensures
            heap.well_formed(),
            heap@ == vec@.to_multiset(),
    {
        let mut heap = Heap { items: vec };
        let len = heap.items.len();
        let mut i: usize = len;
        while i > 0
            invariant
                i <= len,
                heap.items@.len() == len,
                heap.items@.to_multiset() == vec@.to_multiset(),
                forall|k: int|
                    0 < k < len && parent_of(k) >= i ==> #[trigger] heap.items@[parent_of(k)].rank()
                        >= heap.items@[k].rank(),
            decreases i,
        {
            i -= 1;
            heap.bubble_down(i, Ghost(i as int));
        }
        heap
    }

    fn parent_index(child_index: usize) -> (r: Option<usize>)
        ensures
            child_index == 0 ==> r is None,
            child_index > 0 ==> r == Some(parent_of(child_index as int) as usize),
    {
        if child_index == 0 {
            return None;
        }
        Some((child_index - 1) / 2)
    }

    fn left_child_index(parent_index: usize) -> (r: usize)
        requires
            parent_index < usize::MAX / 2,
        ensures
            r == 2 * parent_index + 1,
    {
        (2 * parent_index) + 1
    }

    fn right_child_index(parent_index: usize) -> (r: usize)
        requires
            parent_index < usize::MAX / 2,
        ensures
            r == 2 * parent_index + 2,
    {
        (2 * parent_index) + 2
    }
}

} // verus!
