//! A last-in first-out stack kept in a singly linked list; the top is the
//! front of the list.
use crate::linked_list::LinkedList;
use vstd::prelude::*;

verus! {

pub struct StackLinkedList<T> {
    list: LinkedList<T>,
}

impl<T> View for StackLinkedList<T> {
    type V = Seq<T>;

    /// The items from the top of the stack down.
    closed spec fn view(&self) -> Seq<T> {
        self.list@
    }
}

impl<T> StackLinkedList<T> {
    pub closed spec fn well_formed(&self) -> bool {
        self.list.well_formed()
    }

    pub fn new() -> (s: Self)
        ensures
            s.well_formed(),
            s@ == Seq::<T>::empty(),
    {
        StackLinkedList { list: LinkedList::new() }
    }

    pub fn push(&mut self, item: T)
        requires
            old(self).well_formed(),
            old(self)@.len() < usize::MAX,
        ensures
            final(self).well_formed(),
            final(self)@ == seq![item] + old(self)@,
    {
        self.list.add_first(item);
    }

    pub fn pop(&mut self) -> (r: Option<T>)
        requires
            old(self).well_formed(),
        ensures
            final(self).well_formed(),
            old(self)@.len() == 0 ==> r is None && final(self)@ == old(self)@,
            old(self)@.len() > 0 ==> r == Some(old(self)@[0]) && final(self)@ == old(self)@.drop_first(),
    {
        self.list.remove_first()
    }

    pub fn peek(&self) -> (r: Option<&T>)
        ensures
            self@.len() == 0 ==> r is None,
            self@.len() > 0 ==> r == Some(&self@[0]),
    {
        self.list.peek()
    }

    pub fn peek_mut(&mut self) -> (r: Option<&mut T>)
        requires
            old(self).well_formed(),
        ensures
            final(self).well_formed(),
            old(self)@.len() == 0 <==> r is None,
            r is None ==> final(self)@ == old(self)@,
            match r {
                Some(top) => *top == old(self)@[0] && final(self)@ == old(self)@.update(
                    0,
                    *final(top),
                ),
                None => true,
            },
    {
        self.list.peek_mut()
    }

    pub fn is_empty(&self) -> (r: bool)
        requires
            self.well_formed(),
        ensures
            r == (self@.len() == 0),
    {
        self.list.size() == 0
    }

    pub fn size(&self) -> (n: usize)
        requires
            self.well_formed(),
        ensures
            n == self@.len(),
    {
        self.list.size()
    }

    pub fn clear(&mut self)
        ensures
            final(self).well_formed(),
            final(self)@ == Seq::<T>::empty(),
    {
        self.list.clear();
    }
}

} // verus!
