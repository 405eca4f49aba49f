//! A list open at both ends: items are added and taken at the front and at
//! the back in constant time. The items live in a double-ended ring buffer.
use std::collections::VecDeque;
use vstd::laws_eq::obeys_concrete_eq;
use vstd::prelude::*;

verus! {

pub struct DoublyLinkedList<T: PartialEq> {
    list: VecDeque<T>,
}

/// Consumes a list, handing out its items from the front.
pub struct IntoIter<T: PartialEq>(DoublyLinkedList<T>);

impl<T: PartialEq> View for DoublyLinkedList<T> {
    type V = Seq<T>;

    /// The items from the front of the list to its back.
    closed spec fn view(&self) -> Seq<T> {
        self.list@
    }
}

impl<T: PartialEq> View for IntoIter<T> {
    type V = Seq<T>;

    /// The items not yet handed out, in the order they will come.
    closed spec fn view(&self) -> Seq<T> {
        self.0@
    }
}

/// `i` is the first position of `s` that holds `x`.
pub open spec fn is_first_index_of<T>(s: Seq<T>, x: T, i: int) -> bool {
    &&& 0 <= i < s.len()
    &&& s[i] == x
    &&& forall|j: int| 0 <= j < i ==> s[j] != x
}

impl<T: PartialEq> DoublyLinkedList<T> {
    pub fn new() -> (list: DoublyLinkedList<T>)
        ensures
            list@ == Seq::<T>::empty(),
    {
        DoublyLinkedList { list: VecDeque::new() }
    }

    pub fn add_first(&mut self, data: T)
        ensures
            final(self)@ == seq![data] + old(self)@,
    {
        self.list.push_front(data);
    }

    pub fn add_last(&mut self, data: T)
        ensures
            final(self)@ == old(self)@.push(data),
    {
        self.list.push_back(data);
    }

    pub fn remove_first(&mut self) -> (r: Option<T>)
        ensures
            old(self)@.len() == 0 ==> r is None && final(self)@ == old(self)@,
            old(self)@.len() > 0 ==> r == Some(old(self)@[0]) && final(self)@ == old(self)@.drop_first(),
    {
        let r = self.list.pop_front();
        proof {
            assert(old(self)@.len() > 0 ==> old(self)@.subrange(1, old(self)@.len() as int)
                =~= old(self)@.drop_first());
        }
        r
    }

    /// Drops the last item, if any.
    pub fn remove_last(&mut self)
        ensures
            old(self)@.len() == 0 ==> final(self)@ == old(self)@,
            old(self)@.len() > 0 ==> final(self)@ == old(self)@.drop_last(),
    {
        let _ = self.list.pop_back();
        proof {
            assert(old(self)@.len() > 0 ==> old(self)@.subrange(0, old(self)@.len() - 1)
                =~= old(self)@.drop_last());
        }
    }

    pub fn reverse(&mut self)
        ensures
            final(self)@ == old(self)@.reverse(),
    {
        let ghost whole = self@;
        let mut reversed: VecDeque<T> = VecDeque::new();
        let ghost mut done: int = 0;
        proof {
            assert(whole.subrange(0, 0).reverse() =~= Seq::<T>::empty());
            assert(whole.subrange(0, whole.len() as int) =~= whole);
        }
        loop
            invariant
                0 <= done <= whole.len(),
                self.list@ == whole.subrange(done, whole.len() as int),
                reversed@ == whole.subrange(0, done).reverse(),
            ensures
                reversed@ == whole.reverse(),
            decreases whole.len() - done,
        {
            match self.list.pop_front() {
                None => {
                    proof {
                        assert(whole.subrange(0, done) =~= whole);
                    }
                    break;
                },
                Some(item) => {
                    reversed.push_front(item);
                    proof {
                        assert(self.list@ =~= whole.subrange(done + 1, whole.len() as int));
                        done = done + 1;
                        assert(reversed@ =~= whole.subrange(0, done).reverse());
                    }
                },
            }
        }
        self.list = reversed;
    }

    /// Removes the first item equal to `data`, if there is one.
    pub fn remove(&mut self, data: T)
        requires
            obeys_concrete_eq::<T>(),
        ensures
            old(self)@.contains(data) ==> exists|i: int|
                is_first_index_of(old(self)@, data, i) && final(self)@ == old(self)@.remove(i),
            !old(self)@.contains(data) ==> final(self)@ == old(self)@,
    {
        proof {
            reveal(obeys_concrete_eq);
        }
        let len = self.list.len();
        let mut i: usize = 0;
        while i < len
            invariant
                len == self.list@.len(),
                self.list@ == old(self)@,
                obeys_concrete_eq::<T>(),
                i <= len,
                forall|j: int| 0 <= j < i ==> self.list@[j] != data,
            decreases len - i,
        {
            proof {
                reveal(obeys_concrete_eq);
            }
            if self.list[i] == data {
                let _ = self.list.remove(i);
                proof {
                    assert(is_first_index_of(old(self)@, data, i as int));
                }
                return;
            }
            i += 1;
        }
        proof {
            if old(self)@.contains(data) {
                let k = choose|k: int| 0 <= k < old(self)@.len() && old(self)@[k] == data;
                assert(old(self)@[k] != data);
            }
        }
    }

    pub fn size(&self) -> (n: usize)
        ensures
            n == self@.len(),
    {
        self.list.len()
    }

    /// The first item, if any.
    pub fn peek(&self) -> (r: Option<&T>)
        ensures
            self@.len() == 0 ==> r is None,
            self@.len() > 0 ==> r == Some(&self@[0]),
    {
        if self.list.len() == 0 {
            None
        } else {
            Some(&self.list[0])
        }
    }

    /// The last item, if any.
    pub fn peek_last(&self) -> (r: Option<&T>)
        ensures
            self@.len() == 0 ==> r is None,
            self@.len() > 0 ==> r == Some(&self@.last()),
    {
        let len = self.list.len();
        if len == 0 {
            None
        } else {
            Some(&self.list[len - 1])
        }
    }

    pub fn into_iter(self) -> (it: IntoIter<T>)
        ensures
            it@ == self@,
    {
        IntoIter(self)
    }
}

impl<T: PartialEq> IntoIter<T> {
    /// Hands out the front item.
    pub fn next(&mut self) -> (r: Option<T>)
        ensures
            old(self)@.len() == 0 ==> r is None && final(self)@ == old(self)@,
            old(self)@.len() > 0 ==> r == Some(old(self)@[0]) && final(self)@ == old(self)@.drop_first(),
    {
        self.0.remove_first()
    }
}

} // verus!
