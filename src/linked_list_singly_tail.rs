//! A singly linked list with a counter, offering the operations of a list
//! that is open at both ends.
use crate::linked_list::LinkedList;
use vstd::prelude::*;

verus! {

pub struct LinkedListSinglyTail<T> {
    list: LinkedList<T>,
}

/// Consumes a list, handing out its items from the front.
pub struct IntoIter<T>(LinkedListSinglyTail<T>);

impl<T> View for LinkedListSinglyTail<T> {
    type V = Seq<T>;

    /// The items from the front of the list to its back.
    closed spec fn view(&self) -> Seq<T> {
        self.list@
    }
}

impl<T> View for IntoIter<T> {
    type V = Seq<T>;

    /// The items not yet handed out, in the order they will come.
    closed spec fn view(&self) -> Seq<T> {
        self.0@
    }
}

impl<T> LinkedListSinglyTail<T> {
    pub closed spec fn well_formed(&self) -> bool {
        self.list.well_formed()
    }

    pub fn new() -> (list: LinkedListSinglyTail<T>)
        ensures
            list.well_formed(),
            list@ == Seq::<T>::empty(),
    {
        LinkedListSinglyTail { list: LinkedList::new() }
    }

    pub fn add_first(&mut self, data: T)
        requires
            old(self).well_formed(),
            old(self)@.len() < usize::MAX,
        ensures
            final(self).well_formed(),
            final(self)@ == seq![data] + old(self)@,
    {
        self.list.add_first(data);
    }

    pub fn add_last(&mut self, data: T)
        requires
            old(self).well_formed(),
            old(self)@.len() < usize::MAX,
        ensures
            final(self).well_formed(),
            final(self)@ == old(self)@.push(data),
    {
        self.list.add_last(data);
    }

    pub fn remove_first(&mut self) -> (r: Option<T>)
        requires
            old(self).well_formed(),
        ensures
            final(self).well_formed(),
            old(self)@.len() == 0 ==> r is None && final(self)@ == old(self)@,
            old(self)@.len() > 0 ==> r == Some(old(self)@[0]) && final(self)@ == old(self)@.drop_first(),
    {
        self.list.remove_first()
    }

    /// Drops the last item, if any.
    pub fn remove_last(&mut self)
        requires
            old(self).well_formed(),
        ensures
            final(self).well_formed(),
            old(self)@.len() == 0 ==> final(self)@ == old(self)@,
            old(self)@.len() > 0 ==> final(self)@ == old(self)@.drop_last(),
    {
        self.list.remove_last();
    }

    pub fn reverse(&mut self)
        requires
            old(self).well_formed(),
        ensures
            final(self).well_formed(),
            final(self)@ == old(self)@.reverse(),
    {
        self.list.reverse();
    }

    pub fn size(&self) -> (n: usize)
        requires
            self.well_formed(),
        ensures
            n == self@.len(),
    {
        self.list.size()
    }

    pub fn clear(&mut self)
        ensures
            final(self).well_formed(),
            final(self)@ == Seq::<T>::empty(),
    {
        self.list.clear();
    }

    /// The first item, if any.
    pub fn peek(&self) -> (r: Option<&T>)
        ensures
            self@.len() == 0 ==> r is None,
            self@.len() > 0 ==> r == Some(&self@[0]),
    {
        self.list.peek()
    }

    /// The first item, to be changed in place.
    pub fn peek_mut(&mut self) -> (r: Option<&mut T>)
        requires
            old(self).well_formed(),
        ensures
            final(self).well_formed(),
            old(self)@.len() == 0 <==> r is None,
            r is None ==> final(self)@ == old(self)@,
            match r {
                Some(front) => *front == old(self)@[0] && final(self)@ == old(self)@.update(
                    0,
                    *final(front),
                ),
                None => true,
            },
    {
        self.list.peek_mut()
    }

    /// The last item, if any.
    pub fn peek_last(&self) -> (r: Option<&T>)
        ensures
            self@.len() == 0 ==> r is None,
            self@.len() > 0 ==> r == Some(&self@.last()),
    {
        self.list.mth_to_last_element(0)
    }

    pub fn into_iter(self) -> (it: IntoIter<T>)
        requires
            self.well_formed(),
        ensures
            it.well_formed(),
            it@ == self@,
    {
        IntoIter(self)
    }
}

impl<T> IntoIter<T> {
    pub closed spec fn well_formed(&self) -> bool {
        self.0.well_formed()
    }

    /// Hands out the front item.
    pub fn next(&mut self) -> (r: Option<T>)
        requires
            old(self).well_formed(),
        ensures
            final(self).well_formed(),
            old(self)@.len() == 0 ==> r is None && final(self)@ == old(self)@,
            old(self)@.len() > 0 ==> r == Some(old(self)@[0]) && final(self)@ == old(self)@.drop_first(),
    {
        self.0.remove_first()
    }
}

} // verus!
