//! A singly linked list of key-value pairs, used as one bucket of the
//! chained hash map. No two pairs hold keys with the same view.
use crate::hash_key::HashKey;
use vstd::prelude::*;

verus! {

struct Node<K, V> {
    key: K,
    value: V,
    next: Option<Box<Node<K, V>>>,
}

pub struct HashLinkedList<K, V> {
    head: Option<Box<Node<K, V>>>,
}

/// Consumes a list, handing out its pairs from the front.
pub struct IntoIter<K, V>(HashLinkedList<K, V>);

/// The pairs reachable from `link`, in list order.
closed spec fn entries<K, V>(link: Option<Box<Node<K, V>>>) -> Seq<(K, V)>
    decreases link,
{
    match link {
        None => Seq::empty(),
        Some(node) => seq![(node.key, node.value)] + entries(node.next),
    }
}

/// Position `i` of `s` holds a key with view `k`.
pub open spec fn key_at<K: View, V>(s: Seq<(K, V)>, k: K::V, i: int) -> bool {
    0 <= i < s.len() && s[i].0@ == k
}

/// Some pair of `s` holds a key with view `k`.
pub open spec fn has_key<K: View, V>(s: Seq<(K, V)>, k: K::V) -> bool {
    exists|i: int| key_at(s, k, i)
}

/// No two pairs of `s` hold keys with the same view.
pub open spec fn keys_distinct<K: View, V>(s: Seq<(K, V)>) -> bool {
    forall|i: int, j: int| 0 <= i < s.len() && 0 <= j < s.len() && i != j ==> s[i].0@ != s[j].0@
}

impl<K, V> View for HashLinkedList<K, V> {
    type V = Seq<(K, V)>;

    /// The pairs from the front of the list to its back.
    closed spec fn view(&self) -> Seq<(K, V)> {
        entries(self.head)
    }
}

impl<K, V> View for IntoIter<K, V> {
    type V = Seq<(K, V)>;

    closed spec fn view(&self) -> Seq<(K, V)> {
        self.0@
    }
}

proof fn lemma_entries_cons<K, V>(node: Box<Node<K, V>>)
    ensures
        entries(Some(node)).len() > 0,
        entries(Some(node))[0] == (node.key, node.value),
        entries(Some(node)).drop_first() == entries(node.next),
        forall|i: int|
            0 <= i < entries(node.next).len() ==> #[trigger] entries(node.next)[i] == entries(
                Some(node),
            )[i + 1],
{
    assert(entries(Some(node)).drop_first() =~= entries(node.next));
}

impl<K: HashKey, V> HashLinkedList<K, V> {
    pub fn new() -> (list: HashLinkedList<K, V>)
        ensures
            list@ == Seq::<(K, V)>::empty(),
    {
        HashLinkedList { head: None }
    }

    fn insert_link(link: &mut Option<Box<Node<K, V>>>, key: K, value: V) -> (r: Option<V>)
        ensures
            ({
                let s = entries(*old(link));
                &&& has_key(s, key@) ==> exists|i: int|
                    key_at(s, key@, i) && (forall|j: int| 0 <= j < i ==> s[j].0@ != key@) && r
                        == Some(s[i].1) && entries(*final(link)) == s.update(i, (s[i].0, value))
                &&& !has_key(s, key@) ==> r is None && entries(*final(link)) == s.push((key, value))
            }),
        decreases *old(link),
    {
        match link.take() {
            None => {
                *link = Some(Box::new(Node { key, value, next: None }));
                proof {
                    reveal_with_fuel(entries, 2);
                    assert(entries(*link) =~= seq![(key, value)]);
                }
                None
            },
            Some(mut node) => {
                let ghost old_node = node;
                proof {
                    lemma_entries_cons(old_node);
                }
                if node.key.same_key(&key) {
                    let mut old_value = value;
                    std::mem::swap(&mut node.value, &mut old_value);
                    *link = Some(node);
                    proof {
                        let s = entries(Some(old_node));
                        assert(key_at(s, key@, 0));
                        assert(entries(*link) =~= s.update(0, (s[0].0, value)));
                    }
                    Some(old_value)
                } else {
                    let r = Self::insert_link(&mut node.next, key, value);
                    *link = Some(node);
                    proof {
                        let s = entries(Some(old_node));
                        let t = entries(old_node.next);
                        lemma_entries_cons(node);
                        if has_key(t, key@) {
                            let i = choose|i: int|
                                key_at(t, key@, i) && (forall|j: int| 0 <= j < i ==> t[j].0@ != key@)
                                    && r == Some(t[i].1) && entries(node.next) == t.update(
                                    i,
                                    (t[i].0, value),
                                );
                            assert(key_at(s, key@, i + 1));
                            assert forall|j: int| 0 <= j < i + 1 implies s[j].0@ != key@ by {
                                if j > 0 {
                                    assert(s[j] == t[j - 1]);
                                }
                            }
                            assert(entries(*link) =~= s.update(i + 1, (s[i + 1].0, value)));
                        } else {
                            assert(!has_key(s, key@)) by {
                                if has_key(s, key@) {
                                    let i = choose|i: int| key_at(s, key@, i);
                                    assert(key_at(t, key@, i - 1));
                                }
                            }
                            assert(entries(*link) =~= s.push((key, value)));
                        }
                    }
                    r
                }
            },
        }
    }

    /// Stores `value` under `key`. Where a pair already holds the key, its
    /// value is replaced and the old value returned; otherwise the pair is
    /// added at the back.
    pub fn insert(&mut self, key: K, value: V) -> (r: Option<V>)
        requires
            keys_distinct(old(self)@),
        ensures
            keys_distinct(final(self)@),
            has_key(old(self)@, key@) ==> exists|i: int|
                key_at(old(self)@, key@, i) && r == Some(old(self)@[i].1) && final(self)@ == old(
                    self,
                )@.update(i, (old(self)@[i].0, value)),
            !has_key(old(self)@, key@) ==> r is None && final(self)@ == old(self)@.push(
                (key, value),
            ),
    {
        let r = Self::insert_link(&mut self.head, key, value);
        proof {
            let s = old(self)@;
            let t = self@;
            if !has_key(s, key@) {
                assert forall|i: int, j: int|
                    0 <= i < t.len() && 0 <= j < t.len() && i != j implies t[i].0@ != t[j].0@ by {
                    if i == s.len() {
                        assert(!key_at(s, key@, j));
                    } else if j == s.len() {
                        assert(!key_at(s, key@, i));
                    }
                }
            }
        }
        r
    }

    fn get_link<'a>(link: &'a Option<Box<Node<K, V>>>, key: &K) -> (r: Option<&'a V>)
        ensures
            ({
                let s = entries(*link);
                &&& has_key(s, key@) ==> exists|i: int|
                    key_at(s, key@, i) && (forall|j: int| 0 <= j < i ==> s[j].0@ != key@) && r
                        == Some(&s[i].1)
                &&& !has_key(s, key@) ==> r is None
            }),
        decreases *link,
    {
        match link {
            None => None,
            Some(node) => {
                proof {
                    lemma_entries_cons(*node);
                }
                if node.key.same_key(key) {
                    proof {
                        assert(key_at(entries(*link), key@, 0));
                    }
                    Some(&node.value)
                } else {
                    let r = Self::get_link(&node.next, key);
                    proof {
                        let s = entries(*link);
                        let t = entries(node.next);
                        if has_key(t, key@) {
                            let i = choose|i: int|
                                key_at(t, key@, i) && (forall|j: int| 0 <= j < i ==> t[j].0@ != key@)
                                    && r == Some(&t[i].1);
                            assert(key_at(s, key@, i + 1));
                            assert forall|j: int| 0 <= j < i + 1 implies s[j].0@ != key@ by {
                                if j > 0 {
                                    assert(s[j] == t[j - 1]);
                                }
                            }
                        } else {
                            assert(!has_key(s, key@)) by {
                                if has_key(s, key@) {
                                    let i = choose|i: int| key_at(s, key@, i);
                                    assert(key_at(t, key@, i - 1));
                                }
                            }
                        }
                    }
                    r
                }
            },
        }
    }

    /// The value stored under `key`, if any.
    pub fn get(&self, key: &K) -> (r: Option<&V>)
        ensures
            has_key(self@, key@) ==> exists|i: int|
                key_at(self@, key@, i) && (forall|j: int| 0 <= j < i ==> self@[j].0@ != key@) && r
                    == Some(&self@[i].1),
            !has_key(self@, key@) ==> r is None,
    {
        Self::get_link(&self.head, key)
    }

    fn remove_link(link: &mut Option<Box<Node<K, V>>>, key: &K) -> (r: Option<V>)
        ensures
            ({
                let s = entries(*old(link));
                &&& has_key(s, key@) ==> exists|i: int|
                    key_at(s, key@, i) && (forall|j: int| 0 <= j < i ==> s[j].0@ != key@) && r
                        == Some(s[i].1) && entries(*final(link)) == s.remove(i)
                &&& !has_key(s, key@) ==> r is None && *final(link) == *old(link)
            }),
        decreases *old(link),
    {
        match link.take() {
            None => None,
            Some(mut node) => {
                let ghost old_node = node;
                proof {
                    lemma_entries_cons(old_node);
                }
                if node.key.same_key(key) {
                    let Node { key: _, value, next } = *node;
                    *link = next;
                    proof {
                        let s = entries(Some(old_node));
                        assert(key_at(s, key@, 0));
                        assert(entries(*link) =~= s.remove(0));
                    }
                    Some(value)
                } else {
                    let r = Self::remove_link(&mut node.next, key);
                    *link = Some(node);
                    proof {
                        let s = entries(Some(old_node));
                        let t = entries(old_node.next);
                        lemma_entries_cons(node);
                        if has_key(t, key@) {
                            let i = choose|i: int|
                                key_at(t, key@, i) && (forall|j: int| 0 <= j < i ==> t[j].0@ != key@)
                                    && r == Some(t[i].1) && entries(node.next) == t.remove(i);
                            assert(key_at(s, key@, i + 1));
                            assert forall|j: int| 0 <= j < i + 1 implies s[j].0@ != key@ by {
                                if j > 0 {
                                    assert(s[j] == t[j - 1]);
                                }
                            }
                            assert(entries(*link) =~= s.remove(i + 1));
                        } else {
                            assert(!has_key(s, key@)) by {
                                if has_key(s, key@) {
                                    let i = choose|i: int| key_at(s, key@, i);
                                    assert(key_at(t, key@, i - 1));
                                }
                            }
                        }
                    }
                    r
                }
            },
        }
    }

    /// Removes the pair holding `key`, if any, and returns its value.
    pub fn remove(&mut self, key: &K) -> (r: Option<V>)
        requires
            keys_distinct(old(self)@),
        ensures
            keys_distinct(final(self)@),
            has_key(old(self)@, key@) ==> exists|i: int|
                key_at(old(self)@, key@, i) && r == Some(old(self)@[i].1) && final(self)@ == old(
                    self,
                )@.remove(i),
            !has_key(old(self)@, key@) ==> r is None && final(self)@ == old(self)@,
    {
        let r = Self::remove_link(&mut self.head, key);
        proof {
            let s = old(self)@;
            let t = self@;
            if has_key(s, key@) {
                let i = choose|i: int|
                    key_at(s, key@, i) && (forall|j: int| 0 <= j < i ==> s[j].0@ != key@) && r
                        == Some(s[i].1) && t == s.remove(i);
                assert forall|a: int, b: int|
                    0 <= a < t.len() && 0 <= b < t.len() && a != b implies t[a].0@ != t[b].0@ by {
                    let a2 = if a < i {
                        a
                    } else {
                        a + 1
                    };
                    let b2 = if b < i {
                        b
                    } else {
                        b + 1
                    };
                    assert(t[a] == s[a2]);
                    assert(t[b] == s[b2]);
                }
            }
        }
        r
    }

    /// Removes and returns the first pair.
    fn remove_first(&mut self) -> (r: Option<(K, V)>)
        ensures
            old(self)@.len() == 0 ==> r is None && final(self)@ == old(self)@,
            old(self)@.len() > 0 ==> r == Some(old(self)@[0]) && final(self)@ == old(self)@.drop_first(),
    {
        match self.head.take() {
            None => None,
            Some(node) => {
                proof {
                    lemma_entries_cons(node);
                }
                let Node { key, value, next } = *node;
                self.head = next;
                Some((key, value))
            },
        }
    }

    pub fn into_iter(self) -> (it: IntoIter<K, V>)
        ensures
            it@ == self@,
    {
        IntoIter(self)
    }
}

impl<K: HashKey, V> IntoIter<K, V> {
    /// Hands out the front pair.
    pub fn next(&mut self) -> (r: Option<(K, V)>)
        ensures
            old(self)@.len() == 0 ==> r is None && final(self)@ == old(self)@,
            old(self)@.len() > 0 ==> r == Some(old(self)@[0]) && final(self)@ == old(self)@.drop_first(),
    {
        self.0.remove_first()
    }
}

} // verus!
