//! A singly linked list of owned nodes, with a counter of its items.
use vstd::prelude::*;

verus! {

struct Node<T> {
    data: T,
    next: Option<Box<Node<T>>>,
}

pub struct LinkedList<T> {
    head: Option<Box<Node<T>>>,
    counter: usize,
}

/// Consumes a list, handing out its items from the front.
pub struct IntoIter<T>(LinkedList<T>);

/// The items reachable from `link`, in list order.
closed spec fn items<T>(link: Option<Box<Node<T>>>) -> Seq<T>
    decreases link,
{
    match link {
        None => Seq::empty(),
        Some(node) => seq![node.data] + items(node.next),
    }
}

/// What `mth_to_last_element(m)` finds in a list holding `s`: the item `m`
/// places before the last one. A position one before the first item still
/// yields the first item; any position further out yields nothing.
pub open spec fn mth_to_last<T>(s: Seq<T>, m: int) -> Option<T> {
    if s.len() == 0 || m > s.len() {
        None
    } else if m == s.len() {
        Some(s[0])
    } else {
        Some(s[s.len() - 1 - m])
    }
}

/// The node that starts the items `start..` of `whole` holds item `start`,
/// and the rest of the chain holds the items after it.
proof fn lemma_split_first<T>(node: Box<Node<T>>, whole: Seq<T>, start: int)
    requires
        0 <= start <= whole.len(),
        items(Some(node)) == whole.subrange(start, whole.len() as int),
    ensures
        start < whole.len(),
        node.data == whole[start],
        items(node.next) == whole.subrange(start + 1, whole.len() as int),
{
    let s = whole.subrange(start, whole.len() as int);
    let rest = items(node.next);
    assert(s == seq![node.data] + rest);
    assert(s[0] == node.data);
    assert forall|k: int| 0 <= k < rest.len() implies rest[k] == whole[start + 1 + k] by {
        assert(s[k + 1] == rest[k]);
    }
    assert(rest =~= whole.subrange(start + 1, whole.len() as int));
}

impl<T> View for LinkedList<T> {
    type V = Seq<T>;

    /// The items from the front of the list to its back.
    closed spec fn view(&self) -> Seq<T> {
        items(self.head)
    }
}

impl<T> View for IntoIter<T> {
    type V = Seq<T>;

    /// The items not yet handed out, in the order they will come.
    closed spec fn view(&self) -> Seq<T> {
        self.0@
    }
}

impl<T> LinkedList<T> {
    /// The counter holds the number of items.
    pub closed spec fn well_formed(&self) -> bool {
        self.counter == items(self.head).len()
    }

    pub fn new() -> (list: LinkedList<T>)
        ensures
            list.well_formed(),
            list@ == Seq::<T>::empty(),
    {
        LinkedList { head: None, counter: 0 }
    }

    pub fn add_first(&mut self, data: T)
        requires
            old(self).well_formed(),
            old(self)@.len() < usize::MAX,
        ensures
            final(self).well_formed(),
            final(self)@ == seq![data] + old(self)@,
    {
        let next = self.head.take();
        self.head = Some(Box::new(Node { data, next }));
        self.counter += 1;
    }

    fn push_back_link(link: &mut Option<Box<Node<T>>>, data: T)
        ensures
            items(*final(link)) == items(*old(link)).push(data),
        decreases *old(link),
    {
        match link.take() {
            None => {
                *link = Some(Box::new(Node { data, next: None }));
                proof {
                    reveal_with_fuel(items, 2);
                    assert(items(*link) =~= seq![data]);
                }
            },
            Some(mut node) => {
                let ghost old_node = node;
                Self::push_back_link(&mut node.next, data);
                *link = Some(node);
                proof {
                    assert(items(*link) =~= items(Some(old_node)).push(data));
                }
            },
        }
    }

    pub fn add_last(&mut self, data: T)
        requires
            old(self).well_formed(),
            old(self)@.len() < usize::MAX,
        ensures
            final(self).well_formed(),
            final(self)@ == old(self)@.push(data),
    {
        Self::push_back_link(&mut self.head, data);
        self.counter += 1;
    }

    pub fn remove_first(&mut self) -> (r: Option<T>)
        requires
            old(self).well_formed(),
        ensures
            final(self).well_formed(),
            old(self)@.len() == 0 ==> r is None && final(self)@ == old(self)@,
            old(self)@.len() > 0 ==> r == Some(old(self)@[0]) && final(self)@ == old(self)@.drop_first(),
    {
        match self.head.take() {
            None => None,
            Some(node) => {
                let Node { data, next } = *node;
                proof {
                    assert(items(Some(node)).drop_first() =~= items(next));
                }
                self.head = next;
                self.counter -= 1;
                Some(data)
            },
        }
    }

    fn pop_back_link(link: &mut Option<Box<Node<T>>>) -> (r: Option<T>)
        ensures
            items(*old(link)).len() == 0 ==> r is None && *final(link) == *old(link),
            items(*old(link)).len() > 0 ==> r == Some(items(*old(link)).last()) && items(
                *final(link),
            ) == items(*old(link)).drop_last(),
        decreases *old(link),
    {
        match link.take() {
            None => None,
            Some(mut node) => {
                let ghost old_node = node;
                if node.next.is_none() {
                    let Node { data, next: _ } = *node;
                    proof {
                        reveal_with_fuel(items, 2);
                        assert(items(Some(old_node)) =~= seq![data]);
                        assert(items(*link) =~= items(Some(old_node)).drop_last());
                    }
                    Some(data)
                } else {
                    let r = Self::pop_back_link(&mut node.next);
                    *link = Some(node);
                    proof {
                        assert(items(*link) =~= items(Some(old_node)).drop_last());
                    }
                    r
                }
            },
        }
    }

    /// Drops the last item, if any.
    pub fn remove_last(&mut self)
        requires
            old(self).well_formed(),
        ensures
            final(self).well_formed(),
            old(self)@.len() == 0 ==> final(self)@ == old(self)@,
            old(self)@.len() > 0 ==> final(self)@ == old(self)@.drop_last(),
    {
        if Self::pop_back_link(&mut self.head).is_some() {
            self.counter -= 1;
        }
    }

    pub fn reverse(&mut self)
        requires
            old(self).well_formed(),
        ensures
            final(self).well_formed(),
            final(self)@ == old(self)@.reverse(),
    {
        let ghost whole = self@;
        let mut prev: Option<Box<Node<T>>> = None;
        let mut current = self.head.take();
        let ghost mut done: int = 0;
        proof {
            assert(whole.subrange(0, 0).reverse() =~= Seq::<T>::empty());
            assert(whole.subrange(0, whole.len() as int) =~= whole);
        }
        loop
            invariant
                0 <= done <= whole.len(),
                items(current) == whole.subrange(done, whole.len() as int),
                items(prev) == whole.subrange(0, done).reverse(),
            ensures
                items(prev) == whole.reverse(),
            decreases whole.len() - done,
        {
            match current {
                None => {
                    proof {
                        assert(whole.subrange(done, whole.len() as int).len() == 0);
                        assert(whole.subrange(0, done) =~= whole);
                    }
                    break;
                },
                Some(mut node) => {
                    proof {
                        lemma_split_first(node, whole, done);
                    }
                    let next = node.next.take();
                    let ghost data = node.data;
                    node.next = prev;
                    prev = Some(node);
                    current = next;
                    proof {
                        done = done + 1;
                        assert(items(prev) =~= whole.subrange(0, done).reverse());
                    }
                },
            }
        }
        self.head = prev;
    }

    pub fn into_iter(self) -> (it: IntoIter<T>)
        requires
            self.well_formed(),
        ensures
            it.well_formed(),
            it@ == self@,
    {
        IntoIter(self)
    }

    pub fn peek(&self) -> (r: Option<&T>)
        ensures
            self@.len() == 0 ==> r is None,
            self@.len() > 0 ==> r == Some(&self@[0]),
    {
        match &self.head {
            Some(node) => Some(&node.data),
            None => None,
        }
    }

    pub fn peek_mut(&mut self) -> (r: Option<&mut T>)
        requires
            old(self).well_formed(),
        ensures
            final(self).well_formed(),
            old(self)@.len() == 0 <==> r is None,
            r is None ==> final(self)@ == old(self)@,
            match r {
                Some(front) => *front == old(self)@[0] && final(self)@ == old(self)@.update(
                    0,
                    *final(front),
                ),
                None => true,
            },
    {
        match &mut self.head {
            Some(node) => Some(&mut node.data),
            None => None,
        }
    }

    pub fn size(&self) -> (n: usize)
        requires
            self.well_formed(),
        ensures
            n == self@.len(),
    {
        self.counter
    }

    pub fn clear(&mut self)
        ensures
            final(self).well_formed(),
            final(self)@ == Seq::<T>::empty(),
    {
        self.head = None;
        self.counter = 0;
    }

    /// The item `m` places before the last one (see `mth_to_last`), found
    /// with two cursors `m` nodes apart and without the counter.
    pub fn mth_to_last_element(&self, m: usize) -> (r: Option<&T>)
        ensures
            r == match mth_to_last(self@, m as int) {
                Some(x) => Some(&x),
                None => None::<&T>,
            },
    {
        let ghost whole = self@;
        let ghost len = whole.len() as int;
        let mut current: &Option<Box<Node<T>>> = &self.head;
        let mut window: &Option<Box<Node<T>>> = &self.head;
        let mut i: usize = 0;
        proof {
            assert(whole.subrange(0, len) =~= whole);
        }
        while i < m
            invariant
                len == whole.len(),
                whole == self@,
                0 <= i <= m,
                i <= len,
                items(*current) == whole.subrange(i as int, len),
            decreases m - i,
        {
            match current {
                None => {
                    proof {
                        assert(whole.subrange(i as int, len).len() == 0);
                    }
                    return None;
                },
                Some(node) => {
                    proof {
                        lemma_split_first(*node, whole, i as int);
                    }
                    current = &node.next;
                },
            }
            i += 1;
        }
        let ghost mut pos: int = m as int;
        let ghost mut wpos: int = 0;
        loop
            invariant
                len == whole.len(),
                whole == self@,
                m <= pos <= len,
                items(*current) == whole.subrange(pos, len),
                items(*window) == whole.subrange(wpos, len),
                wpos == if pos == m {
                    0
                } else if pos < len {
                    pos - m
                } else {
                    pos - m - 1
                },
            ensures
                pos == len,
                items(*window) == whole.subrange(wpos, len),
                wpos == if pos == m {
                    0
                } else {
                    pos - m - 1
                },
            decreases len - pos,
        {
            match current {
                None => {
                    proof {
                        assert(whole.subrange(pos, len).len() == 0);
                    }
                    break;
                },
                Some(node) => {
                    proof {
                        lemma_split_first(*node, whole, pos);
                    }
                    current = &node.next;
                    proof {
                        pos = pos + 1;
                    }
                    if current.is_some() {
                        match window {
                            Some(w) => {
                                proof {
                                    lemma_split_first(*w, whole, wpos);
                                }
                                window = &w.next;
                                proof {
                                    wpos = wpos + 1;
                                }
                            },
                            None => {},
                        }
                    }
                },
            }
        }
        match window {
            Some(node) => {
                proof {
                    lemma_split_first(*node, whole, wpos);
                }
                Some(&node.data)
            },
            None => {
                proof {
                    assert(whole.subrange(wpos, len).len() == 0);
                }
                None
            },
        }
    }
}

impl<T> IntoIter<T> {
    pub closed spec fn well_formed(&self) -> bool {
        self.0.well_formed()
    }

    /// Hands out the front item.
    pub fn next(&mut self) -> (r: Option<T>)
        requires
            old(self).well_formed(),
        ensures
            final(self).well_formed(),
            old(self)@.len() == 0 ==> r is None && final(self)@ == old(self)@,
            old(self)@.len() > 0 ==> r == Some(old(self)@[0]) && final(self)@ == old(self)@.drop_first(),
    {
        self.0.remove_first()
    }
}

} // verus!
