//! A first-in first-out queue kept in a double-ended ring buffer; the
//! front is the first element.
use std::collections::VecDeque;
use vstd::prelude::*;

verus! {

pub struct QueueVec<T> {
    list: VecDeque<T>,
}

/// Relies on `VecDeque::front_mut`: a mutable reference to the front
/// element, or `None` when the deque is empty.
#[verifier::external_body]
fn front_mut<T>(deque: &mut VecDeque<T>) -> (r: Option<&mut T>)
    ensures
        old(deque)@.len() == 0 <==> r is None,
        r is None ==> final(deque)@ == old(deque)@,
        match r {
            Some(front) => *front == old(deque)@[0] && final(deque)@ == old(deque)@.update(
                0,
                *final(front),
            ),
            None => true,
        },
{
    deque.front_mut()
}

impl<T> View for QueueVec<T> {
    type V = Seq<T>;

    /// The items from the front of the queue to its back.
    closed spec fn view(&self) -> Seq<T> {
        self.list@
    }
}

impl<T> QueueVec<T> {
    pub fn new() -> (q: Self)
        ensures
            q@ == Seq::<T>::empty(),
    {
        QueueVec { list: VecDeque::new() }
    }

    pub fn enqueue(&mut self, item: T)
        ensures
            final(self)@ == old(self)@.push(item),
    {
        self.list.push_back(item);
    }

    pub fn dequeue(&mut self) -> (r: Option<T>)
        ensures
            old(self)@.len() == 0 ==> r is None && final(self)@ == old(self)@,
            old(self)@.len() > 0 ==> r == Some(old(self)@[0]) && final(self)@ == old(self)@.drop_first(),
    {
        let r = self.list.pop_front();
        proof {
            assert(old(self)@.len() > 0 ==> old(self)@.subrange(1, old(self)@.len() as int)
                =~= old(self)@.drop_first());
        }
        r
    }

    pub fn is_empty(&self) -> (r: bool)
        ensures
            r == (self@.len() == 0),
    {
        self.list.len() == 0
    }

    pub fn size(&self) -> (n: usize)
        ensures
            n == self@.len(),
    {
        self.list.len()
    }

    pub fn clear(&mut self)
        ensures
            final(self)@ == Seq::<T>::empty(),
    {
        self.list.clear();
    }

    pub fn peek(&self) -> (r: Option<&T>)
        ensures
            self@.len() == 0 ==> r is None,
            self@.len() > 0 ==> r == Some(&self@[0]),
    {
        if self.list.len() == 0 {
            None
        } else {
            Some(&self.list[0])
        }
    }

    pub fn peek_mut(&mut self) -> (r: Option<&mut T>)
        ensures
            old(self)@.len() == 0 <==> r is None,
            r is None ==> final(self)@ == old(self)@,
            match r {
                Some(front) => *front == old(self)@[0] && final(self)@ == old(self)@.update(
                    0,
                    *final(front),
                ),
                None => true,
            },
    {
        front_mut(&mut self.list)
    }
}

} // verus!
