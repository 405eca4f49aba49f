//! A first-in first-out queue kept in a singly linked list; the front of
//! the queue is the front of the list.
use crate::linked_list_singly_tail::LinkedListSinglyTail;
use vstd::prelude::*;

verus! {

pub struct QueueLinkedList<T> {
    list: LinkedListSinglyTail<T>,
}

impl<T> View for QueueLinkedList<T> {
    type V = Seq<T>;

    /// The items from the front of the queue to its back.
    closed spec fn view(&self) -> Seq<T> {
        self.list@
    }
}

impl<T> QueueLinkedList<T> {
    pub closed spec fn well_formed(&self) -> bool {
        self.list.well_formed()
    }

    pub fn new() -> (q: Self)
        ensures
            q.well_formed(),
            q@ == Seq::<T>::empty(),
    {
        QueueLinkedList { list: LinkedListSinglyTail::new() }
    }

    pub fn enqueue(&mut self, item: T)
        requires
            old(self).well_formed(),
            old(self)@.len() < usize::MAX,
        ensures
            final(self).well_formed(),
            final(self)@ == old(self)@.push(item),
    {
        self.list.add_last(item);
    }

    pub fn dequeue(&mut self) -> (r: Option<T>)
        requires
            old(self).well_formed(),
        ensures
            final(self).well_formed(),
            old(self)@.len() == 0 ==> r is None && final(self)@ == old(self)@,
            old(self)@.len() > 0 ==> r == Some(old(self)@[0]) && final(self)@ == old(self)@.drop_first(),
    {
        self.list.remove_first()
    }

    pub fn peek(&self) -> (r: Option<&T>)
        ensures
            self@.len() == 0 ==> r is None,
            self@.len() > 0 ==> r == Some(&self@[0]),
    {
        self.list.peek()
    }

    pub fn peek_mut(&mut self) -> (r: Option<&mut T>)
        requires
            old(self).well_formed(),
        ensures
            final(self).well_formed(),
            old(self)@.len() == 0 <==> r is None,
            r is None ==> final(self)@ == old(self)@,
            match r {
                Some(front) => *front == old(self)@[0] && final(self)@ == old(self)@.update(
                    0,
                    *final(front),
                ),
                None => true,
            },
    {
        self.list.peek_mut()
    }

    pub fn is_empty(&self) -> (r: bool)
        requires
            self.well_formed(),
        ensures
            r == (self@.len() == 0),
    {
        self.list.size() == 0
    }

    pub fn size(&self) -> (n: usize)
        requires
            self.well_formed(),
        ensures
            n == self@.len(),
    {
        self.list.size()
    }

    pub fn clear(&mut self)
        ensures
            final(self).well_formed(),
            final(self)@ == Seq::<T>::empty(),
    {
        self.list.clear();
    }
}

} // verus!
