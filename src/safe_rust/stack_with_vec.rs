//! A last-in first-out stack kept in a vector; the top is the last element.
use vstd::prelude::*;

verus! {

pub struct StackVec<T> {
    list: Vec<T>,
}

impl<T> View for StackVec<T> {
    type V = Seq<T>;

    /// The items from the bottom of the stack to its top.
    closed spec fn view(&self) -> Seq<T> {
        self.list@
    }
}

impl<T> StackVec<T> {
    pub fn new() -> (s: Self)
        ensures
            s@ == Seq::<T>::empty(),
    {
        StackVec { list: Vec::new() }
    }

    pub fn push(&mut self, item: T)
        ensures
            final(self)@ == old(self)@.push(item),
    {
        self.list.push(item);
    }

    /// Pushes the items of `items` in order, leaving `items` empty.
    pub fn append(&mut self, items: &mut Vec<T>)
        ensures
            final(self)@ == old(self)@ + old(items)@,
            final(items)@ == Seq::<T>::empty(),
    {
        self.list.append(items)
    }

    pub fn pop(&mut self) -> (r: Option<T>)
        ensures
            old(self)@.len() == 0 ==> r is None && final(self)@ == old(self)@,
            old(self)@.len() > 0 ==> r == Some(old(self)@.last()) && final(self)@ == old(self)@.drop_last(),
    {
        self.list.pop()
    }

    pub fn peek(&self) -> (r: Option<&T>)
        ensures
            self@.len() == 0 ==> r is None,
            self@.len() > 0 ==> r == Some(&self@.last()),
    {
        let len = self.list.len();
        if len == 0 {
            return None;
        }
        Some(&self.list[len - 1])
    }

    pub fn peek_mut(&mut self) -> (r: Option<&mut T>)
        ensures
            old(self)@.len() == 0 <==> r is None,
            r is None ==> final(self)@ == old(self)@,
            match r {
                Some(top) => *top == old(self)@.last() && final(self)@ == old(self)@.update(
                    old(self)@.len() - 1,
                    *final(top),
                ),
                None => true,
            },
    {
        let len = self.list.len();
        if len == 0 {
            return None;
        }
        Some(&mut self.list[len - 1])
    }

    pub fn is_empty(&self) -> (r: bool)
        ensures
            r == (self@.len() == 0),
    {
        self.list.is_empty()
    }

    pub fn size(&self) -> (n: usize)
        ensures
            n == self@.len(),
    {
        self.list.len()
    }

    pub fn clear(&mut self)
        ensures
            final(self)@ == Seq::<T>::empty(),
    {
        self.list.clear();
    }
}

} // verus!
