//! An AVL tree: a binary search tree whose sibling subtrees differ in height
//! by at most one. Duplicate keys are ignored.
use crate::total_order::TotalOrder;
use core::cmp::Ordering;
use vstd::prelude::*;
use vstd::arithmetic::power2::{lemma2_to64, lemma_pow2_strictly_increases, lemma_pow2_unfold, pow2};
use vstd::set_lib::lemma_set_disjoint_lens;

verus! {

/// One key of the tree with its two subtrees. `height` caches the height of
/// the subtree rooted here: 0 for a leaf, one more than its taller child
/// otherwise.
pub struct Node<T> {
    pub left: Option<Box<Node<T>>>,
    pub right: Option<Box<Node<T>>>,
    pub height: usize,
    pub key: T,
}

/// An ordered set of keys kept as an AVL tree.
pub struct TreeAVL<T: TotalOrder> {
    root: Option<Box<Node<T>>>,
    size: usize,
}

pub open spec fn max_int(a: int, b: int) -> int {
    if a >= b {
        a
    } else {
        b
    }
}

/// Height of a subtree; an absent subtree has height -1, a leaf 0.
pub open spec fn ht<T>(link: Option<Box<Node<T>>>) -> int
    decreases link,
{
    match link {
        None => -1,
        Some(n) => 1 + max_int(ht(n.left), ht(n.right)),
    }
}

/// Number of nodes of a subtree.
pub open spec fn node_count<T>(link: Option<Box<Node<T>>>) -> nat
    decreases link,
{
    match link {
        None => 0,
        Some(n) => node_count(n.left) + node_count(n.right) + 1,
    }
}

/// The keys held in a subtree.
pub open spec fn keys<T>(link: Option<Box<Node<T>>>) -> Set<T>
    decreases link,
{
    match link {
        None => Set::empty(),
        Some(n) => keys(n.left).union(keys(n.right)).insert(n.key),
    }
}

/// Binary-search-tree order: at every node, the keys on the left rank below
/// the node's key and the keys on the right rank above it.
pub open spec fn ordered<T: TotalOrder>(link: Option<Box<Node<T>>>) -> bool
    decreases link,
{
    match link {
        None => true,
        Some(n) => {
            &&& forall|k: T| #[trigger] keys(n.left).contains(k) ==> k.rank() < n.key.rank()
            &&& forall|k: T| #[trigger] keys(n.right).contains(k) ==> n.key.rank() < k.rank()
            &&& ordered(n.left)
            &&& ordered(n.right)
        }
    }
}

/// Every node's `height` field equals the height of its subtree.
pub open spec fn heights_cached<T>(link: Option<Box<Node<T>>>) -> bool
    decreases link,
{
    match link {
        None => true,
        Some(n) => {
            &&& n.height == ht(link)
            &&& heights_cached(n.left)
            &&& heights_cached(n.right)
        }
    }
}

/// AVL balance: at every node the heights of the two subtrees differ by at
/// most one.
pub open spec fn balanced<T>(link: Option<Box<Node<T>>>) -> bool
    decreases link,
{
    match link {
        None => true,
        Some(n) => {
            &&& -1 <= ht(n.left) - ht(n.right) <= 1
            &&& balanced(n.left)
            &&& balanced(n.right)
        }
    }
}

/// A well-formed AVL subtree.
pub open spec fn avl<T: TotalOrder>(link: Option<Box<Node<T>>>) -> bool {
    &&& ordered(link)
    &&& heights_cached(link)
    &&& balanced(link)
}

/// The keys of a subtree read left to right.
pub open spec fn in_order<T>(link: Option<Box<Node<T>>>) -> Seq<T>
    decreases link,
{
    match link {
        None => Seq::empty(),
        Some(n) => in_order(n.left).push(n.key) + in_order(n.right),
    }
}

/// A node holding `key` between `left` and `right`, its height field set
/// from their heights.
pub open spec fn make_node<T>(
    left: Option<Box<Node<T>>>,
    key: T,
    right: Option<Box<Node<T>>>,
) -> Box<Node<T>> {
    Box::new(Node { left, right, height: (1 + max_int(ht(left), ht(right))) as usize, key })
}

/// `n` with its left subtree replaced by `left`.
pub open spec fn with_left<T>(n: Box<Node<T>>, left: Option<Box<Node<T>>>) -> Box<Node<T>> {
    Box::new(Node { left, right: n.right, height: n.height, key: n.key })
}

/// `n` with its right subtree replaced by `right`.
pub open spec fn with_right<T>(n: Box<Node<T>>, right: Option<Box<Node<T>>>) -> Box<Node<T>> {
    Box::new(Node { left: n.left, right, height: n.height, key: n.key })
}

/// The single right rotation at `n`: its left child takes its place and
/// `n` becomes that child's right child, taking over its right subtree.
pub open spec fn rotated_right<T>(n: Box<Node<T>>) -> Box<Node<T>> {
    let l = n.left.unwrap();
    make_node(l.left, l.key, Some(make_node(l.right, n.key, n.right)))
}

/// The single left rotation at `n`, the mirror image of `rotated_right`.
pub open spec fn rotated_left<T>(n: Box<Node<T>>) -> Box<Node<T>> {
    let r = n.right.unwrap();
    make_node(Some(make_node(n.left, n.key, r.left)), r.key, r.right)
}

/// Height of the left subtree of `n` minus that of its right one.
pub open spec fn factor<T>(n: Box<Node<T>>) -> int {
    ht(n.left) - ht(n.right)
}

/// `n` rebalanced: where its subtrees differ in height by more than one,
/// the heavy child's factor picks the rotation. A child leaning the same
/// way, or not at all, gets a single rotation at `n`; a child leaning the
/// other way is first rotated itself. Otherwise only the height is
/// recomputed.
pub open spec fn balanced_node<T>(n: Box<Node<T>>) -> Box<Node<T>> {
    if factor(n) > 1 {
        if factor(n.left.unwrap()) >= 0 {
            rotated_right(n)
        } else {
            rotated_right(with_left(n, Some(rotated_left(n.left.unwrap()))))
        }
    } else if factor(n) < -1 {
        if factor(n.right.unwrap()) <= 0 {
            rotated_left(n)
        } else {
            rotated_left(with_right(n, Some(rotated_right(n.right.unwrap()))))
        }
    } else {
        make_node(n.left, n.key, n.right)
    }
}

/// The subtree `link` after inserting `key`: unchanged where the key is
/// present; otherwise a new leaf where the search for it ends, with every
/// node on the way back up rebalanced.
pub open spec fn after_insert<T: TotalOrder>(link: Option<Box<Node<T>>>, key: T) -> Option<Box<Node<T>>>
    decreases link,
{
    if keys(link).contains(key) {
        link
    } else {
        match link {
            None => Some(make_node(None, key, None)),
            Some(n) => if key.rank() < n.key.rank() {
                Some(balanced_node(with_left(n, after_insert(n.left, key))))
            } else {
                Some(balanced_node(with_right(n, after_insert(n.right, key))))
            },
        }
    }
}

/// The subtree `n` without its leftmost node, rebalanced on the way back
/// up, and the key of that node.
pub open spec fn without_leftmost<T>(n: Box<Node<T>>) -> (Option<Box<Node<T>>>, T)
    decreases n,
{
    match n.left {
        None => (n.right, n.key),
        Some(l) => {
            let (rest, least) = without_leftmost(l);
            (Some(balanced_node(with_left(n, rest))), least)
        },
    }
}

/// The subtree `link` after removing `key`: unchanged where the key is
/// absent. A node with one child or none is replaced by that child; a node
/// with two children takes the key of its in-order successor, the leftmost
/// node of its right subtree, which is detached. Every node on the way back
/// up is rebalanced.
pub open spec fn after_remove<T: TotalOrder>(link: Option<Box<Node<T>>>, key: T) -> Option<Box<Node<T>>>
    decreases link,
{
    if !keys(link).contains(key) {
        link
    } else {
        match link {
            None => None,
            Some(n) => if key.rank() < n.key.rank() {
                Some(balanced_node(with_left(n, after_remove(n.left, key))))
            } else if key.rank() > n.key.rank() {
                Some(balanced_node(with_right(n, after_remove(n.right, key))))
            } else if n.left is None {
                n.right
            } else if n.right is None {
                n.left
            } else {
                let (rest, successor) = without_leftmost(n.right.unwrap());
                Some(
                    balanced_node(
                        Box::new(Node { left: n.left, right: rest, height: n.height, key: successor }),
                    ),
                )
            },
        }
    }
}

/// The key that `without_leftmost` detaches from an ordered subtree is its
/// least key: this is the in-order successor that `after_remove` promotes
/// into a node with two children.
pub proof fn lemma_leftmost_is_least<T: TotalOrder>(n: Box<Node<T>>)
    requires
        ordered(Some(n)),
    ensures
        keys(Some(n)).contains(without_leftmost(n).1),
        forall|k: T|
            #[trigger] keys(Some(n)).contains(k) && k != without_leftmost(n).1 ==> without_leftmost(
                n,
            ).1.rank() < k.rank(),
    decreases n,
{
    match n.left {
        None => {
            reveal_with_fuel(keys, 2);
            assert(without_leftmost(n).1 == n.key);
            assert forall|k: T| #[trigger] keys(Some(n)).contains(k) && k != n.key implies n.key.rank()
                < k.rank() by {
                assert(keys(n.right).contains(k));
            }
        },
        Some(l) => {
            lemma_leftmost_is_least(l);
            let least = without_leftmost(l).1;
            assert(without_leftmost(n).1 == least);
            assert(keys(n.left).contains(least));
            assert forall|k: T| #[trigger] keys(Some(n)).contains(k) && k != least implies least.rank()
                < k.rank() by {
                if keys(n.right).contains(k) {
                    assert(n.key.rank() < k.rank());
                }
            }
        },
    }
}

proof fn lemma_height_below_count<T>(link: Option<Box<Node<T>>>)
    ensures
        -1 <= ht(link) < node_count(link),
    decreases link,
{
    if let Some(n) = link {
        lemma_height_below_count(n.left);
        lemma_height_below_count(n.right);
    }
}

proof fn lemma_keys_count<T: TotalOrder>(link: Option<Box<Node<T>>>)
    requires
        ordered(link),
    ensures
        keys(link).finite(),
        keys(link).len() == node_count(link),
    decreases link,
{
    if let Some(n) = link {
        lemma_keys_count(n.left);
        lemma_keys_count(n.right);
        let l = keys(n.left);
        let r = keys(n.right);
        assert(l.disjoint(r)) by {
            assert forall|k: T| l.contains(k) implies !r.contains(k) by {
                if r.contains(k) {
                    assert(k.rank() < n.key.rank());
                    assert(n.key.rank() < k.rank());
                }
            }
        }
        lemma_set_disjoint_lens(l, r);
        assert(!(l + r).contains(n.key)) by {
            if l.contains(n.key) {
                assert(n.key.rank() < n.key.rank());
            }
            if r.contains(n.key) {
                assert(n.key.rank() < n.key.rank());
            }
        }
    }
}

impl<T: TotalOrder> TreeAVL<T> {
    /// A key that does not rank above the node's key is not in its right
    /// subtree.
    proof fn lemma_not_right_of(node: Box<Node<T>>, key: T)
        requires
            ordered(Some(node)),
            key.rank() <= node.key.rank(),
        ensures
            !keys(node.right).contains(key),
    {
        if keys(node.right).contains(key) {
            assert(node.key.rank() < key.rank());
        }
    }

    /// A key that does not rank below the node's key is not in its left
    /// subtree.
    proof fn lemma_not_left_of(node: Box<Node<T>>, key: T)
        requires
            ordered(Some(node)),
            key.rank() >= node.key.rank(),
        ensures
            !keys(node.left).contains(key),
    {
        if keys(node.left).contains(key) {
            assert(key.rank() < node.key.rank());
        }
    }

    /// The height of `node` from the cached heights of its children.
    fn calculate_height(node: &Node<T>) -> (h: usize)
        requires
            heights_cached(node.left),
            heights_cached(node.right),
            ht(node.left) < usize::MAX,
            ht(node.right) < usize::MAX,
        ensures
            h == 1 + max_int(ht(node.left), ht(node.right)),
    {
        let hl: usize = match &node.left {
            Some(child) => child.height,
            None => 0,
        };
        let hr: usize = match &node.right {
            Some(child) => child.height,
            None => 0,
        };
        if node.left.is_none() && node.right.is_none() {
            0
        } else if hl >= hr {
            1 + hl
        } else {
            1 + hr
        }
    }

    /// Height of the left subtree minus height of the right one.
    fn balance_factor(node: &Node<T>) -> (b: isize)
        requires
            heights_cached(node.left),
            heights_cached(node.right),
            ht(node.left) < usize::MAX,
            ht(node.right) < usize::MAX,
            -2 <= ht(node.left) - ht(node.right) <= 2,
        ensures
            b == ht(node.left) - ht(node.right),
    {
        let sl: usize = match &node.left {
            Some(child) => child.height + 1,
            None => 0,
        };
        let sr: usize = match &node.right {
            Some(child) => child.height + 1,
            None => 0,
        };
        if sl >= sr {
            (sl - sr) as isize
        } else {
            -((sr - sl) as isize)
        }
    }

    /// Lifts the left child into the place of `node`; `node` becomes its
    /// right child and takes over the lifted node's former right subtree.
    fn rotate_right(node: Box<Node<T>>) -> (r: Box<Node<T>>)
        requires
            node.left is Some,
            heights_cached(node.left.unwrap().left),
            heights_cached(node.left.unwrap().right),
            heights_cached(node.right),
            node_count(Some(node)) <= usize::MAX,
        ensures
            r.key == node.left.unwrap().key,
            r.left == node.left.unwrap().left,
            r.right is Some,
            r.right.unwrap().key == node.key,
            r.right.unwrap().left == node.left.unwrap().right,
            r.right.unwrap().right == node.right,
            heights_cached(Some(r)),
            keys(Some(r)) == keys(Some(node)),
            node_count(Some(r)) == node_count(Some(node)),
            ordered(Some(node)) ==> ordered(Some(r)),
            r == rotated_right(node),
    {
        let ghost old_node = node;
        let ghost old_left = node.left.unwrap();
        proof {
            lemma_height_below_count(old_left.left);
            lemma_height_below_count(old_left.right);
            lemma_height_below_count(node.right);
            assert(node_count(node.left) == node_count(old_left.left) + node_count(old_left.right) + 1);
        }
        let mut node = node;
        let mut left_child = node.left.take().unwrap();
        node.left = left_child.right.take();
        node.height = Self::calculate_height(&node);
        proof {
            lemma_height_below_count(Some(node));
        }
        left_child.right = Some(node);
        left_child.height = Self::calculate_height(&left_child);
        proof {
            let lifted = left_child.right;
            assert(heights_cached(lifted));
            assert(heights_cached(Some(left_child)));
            assert(keys(lifted) =~= keys(old_left.right).union(keys(old_node.right)).insert(
                old_node.key,
            ));
            assert(keys(old_node.left) =~= keys(old_left.left).union(keys(old_left.right)).insert(
                old_left.key,
            ));
            assert(keys(Some(left_child)) =~= keys(Some(old_node)));
            if ordered(Some(old_node)) {
                assert(keys(old_node.left).contains(old_left.key));
                assert(ordered(old_node.left));
                assert forall|k: T| #[trigger] keys(lifted).contains(k) implies old_left.key.rank()
                    < k.rank() by {
                    if keys(old_left.right).contains(k) {
                    } else if k == old_node.key {
                    } else {
                        assert(keys(old_node.right).contains(k));
                    }
                }
                assert forall|k: T| #[trigger] keys(old_left.right).contains(k) implies k.rank()
                    < old_node.key.rank() by {
                    assert(keys(old_node.left).contains(k));
                }
                assert(ordered(lifted));
            }
        }
        left_child
    }

    /// Lifts the right child into the place of `node`; `node` becomes its
    /// left child and takes over the lifted node's former left subtree.
    fn rotate_left(node: Box<Node<T>>) -> (r: Box<Node<T>>)
        requires
            node.right is Some,
            heights_cached(node.right.unwrap().left),
            heights_cached(node.right.unwrap().right),
            heights_cached(node.left),
            node_count(Some(node)) <= usize::MAX,
        ensures
            r.key == node.right.unwrap().key,
            r.right == node.right.unwrap().right,
            r.left is Some,
            r.left.unwrap().key == node.key,
            r.left.unwrap().right == node.right.unwrap().left,
            r.left.unwrap().left == node.left,
            heights_cached(Some(r)),
            keys(Some(r)) == keys(Some(node)),
            node_count(Some(r)) == node_count(Some(node)),
            ordered(Some(node)) ==> ordered(Some(r)),
            r == rotated_left(node),
    {
        let ghost old_node = node;
        let ghost old_right = node.right.unwrap();
        proof {
            lemma_height_below_count(old_right.left);
            lemma_height_below_count(old_right.right);
            lemma_height_below_count(node.left);
            assert(node_count(node.right) == node_count(old_right.left) + node_count(old_right.right) + 1);
        }
        let mut node = node;
        let mut right_child = node.right.take().unwrap();
        node.right = right_child.left.take();
        node.height = Self::calculate_height(&node);
        proof {
            lemma_height_below_count(Some(node));
        }
        right_child.left = Some(node);
        right_child.height = Self::calculate_height(&right_child);
        proof {
            let lifted = right_child.left;
            assert(heights_cached(lifted));
            assert(heights_cached(Some(right_child)));
            assert(keys(lifted) =~= keys(old_node.left).union(keys(old_right.left)).insert(
                old_node.key,
            ));
            assert(keys(old_node.right) =~= keys(old_right.left).union(keys(old_right.right)).insert(
                old_right.key,
            ));
            assert(keys(Some(right_child)) =~= keys(Some(old_node)));
            if ordered(Some(old_node)) {
                assert(keys(old_node.right).contains(old_right.key));
                assert(ordered(old_node.right));
                assert forall|k: T| #[trigger] keys(lifted).contains(k) implies k.rank()
                    < old_right.key.rank() by {
                    if keys(old_right.left).contains(k) {
                    } else if k == old_node.key {
                    } else {
                        assert(keys(old_node.left).contains(k));
                    }
                }
                assert forall|k: T| #[trigger] keys(old_right.left).contains(k) implies old_node.key.rank()
                    < k.rank() by {
                    assert(keys(old_node.right).contains(k));
                }
                assert(ordered(lifted));
            }
        }
        right_child
    }

    /// The left-right case: the left child's right subtree is lifted to the
    /// top, through a left rotation of the left child and a right rotation
    /// of `node`.
    fn rotate_left_then_right(node: Box<Node<T>>) -> (r: Box<Node<T>>)
        requires
            node.left is Some,
            node.left.unwrap().right is Some,
            heights_cached(node.left.unwrap().left),
            heights_cached(node.left.unwrap().right.unwrap().left),
            heights_cached(node.left.unwrap().right.unwrap().right),
            heights_cached(node.right),
            node_count(Some(node)) <= usize::MAX,
        ensures
            ({
                let l = node.left.unwrap();
                let m = l.right.unwrap();
                &&& r.key == m.key
                &&& r.left is Some
                &&& r.left.unwrap().key == l.key
                &&& r.left.unwrap().left == l.left
                &&& r.left.unwrap().right == m.left
                &&& r.right is Some
                &&& r.right.unwrap().key == node.key
                &&& r.right.unwrap().left == m.right
                &&& r.right.unwrap().right == node.right
            }),
            heights_cached(Some(r)),
            keys(Some(r)) == keys(Some(node)),
            node_count(Some(r)) == node_count(Some(node)),
            ordered(Some(node)) ==> ordered(Some(r)),
            r == rotated_right(with_left(node, Some(rotated_left(node.left.unwrap())))),
    {
        let ghost old_node = node;
        let mut node = node;
        let left_child = node.left.take().unwrap();
        let ghost old_left = left_child;
        node.left = Some(Self::rotate_left(left_child));
        proof {
            assert(heights_cached(node.left));
            if ordered(Some(old_node)) {
                assert(ordered(Some(old_left)));
                assert(ordered(Some(node)));
            }
        }
        Self::rotate_right(node)
    }

    /// The right-left case: the right child's left subtree is lifted to the
    /// top, through a right rotation of the right child and a left rotation
    /// of `node`.
    fn rotate_right_then_left(node: Box<Node<T>>) -> (r: Box<Node<T>>)
        requires
            node.right is Some,
            node.right.unwrap().left is Some,
            heights_cached(node.right.unwrap().right),
            heights_cached(node.right.unwrap().left.unwrap().left),
            heights_cached(node.right.unwrap().left.unwrap().right),
            heights_cached(node.left),
            node_count(Some(node)) <= usize::MAX,
        ensures
            ({
                let rc = node.right.unwrap();
                let m = rc.left.unwrap();
                &&& r.key == m.key
                &&& r.right is Some
                &&& r.right.unwrap().key == rc.key
                &&& r.right.unwrap().right == rc.right
                &&& r.right.unwrap().left == m.right
                &&& r.left is Some
                &&& r.left.unwrap().key == node.key
                &&& r.left.unwrap().right == m.left
                &&& r.left.unwrap().left == node.left
            }),
            heights_cached(Some(r)),
            keys(Some(r)) == keys(Some(node)),
            node_count(Some(r)) == node_count(Some(node)),
            ordered(Some(node)) ==> ordered(Some(r)),
            r == rotated_left(with_right(node, Some(rotated_right(node.right.unwrap())))),
    {
        let ghost old_node = node;
        let mut node = node;
        let right_child = node.right.take().unwrap();
        let ghost old_right = right_child;
        node.right = Some(Self::rotate_right(right_child));
        proof {
            assert(heights_cached(node.right));
            if ordered(Some(old_node)) {
                assert(ordered(Some(old_right)));
                assert(ordered(Some(node)));
            }
        }
        Self::rotate_left(node)
    }

    /// Recomputes the height of `node`, whose subtrees are AVL trees whose
    /// heights differ by at most two, and rotates where they differ by two.
    fn check_balance(node: Box<Node<T>>) -> (r: Box<Node<T>>)
        requires
            ordered(Some(node)),
            heights_cached(node.left),
            heights_cached(node.right),
            balanced(node.left),
            balanced(node.right),
            -2 <= ht(node.left) - ht(node.right) <= 2,
            node_count(Some(node)) <= usize::MAX,
        ensures
            avl(Some(r)),
            keys(Some(r)) == keys(Some(node)),
            node_count(Some(r)) == node_count(Some(node)),
            ht(Some(node)) - 1 <= ht(Some(r)) <= ht(Some(node)),
            -1 <= ht(node.left) - ht(node.right) <= 1 ==> ht(Some(r)) == ht(Some(node)),
            r == balanced_node(node),
    {
        proof {
            lemma_height_below_count(node.left);
            lemma_height_below_count(node.right);
        }
        let mut node = node;
        node.height = Self::calculate_height(&node);
        let balance_factor = Self::balance_factor(&node);
        if balance_factor > 1 || balance_factor < -1 {
            Self::rebalance(node, balance_factor)
        } else {
            node
        }
    }

    /// Restores the balance at `node`, whose subtrees differ in height by
    /// two. The heavy child's own balance factor picks the rotation: a
    /// single one when it leans the same way or not at all, a double one
    /// when it leans the other way.
    fn rebalance(node: Box<Node<T>>, balance_factor: isize) -> (r: Box<Node<T>>)
        requires
            ordered(Some(node)),
            heights_cached(node.left),
            heights_cached(node.right),
            balanced(node.left),
            balanced(node.right),
            balance_factor == ht(node.left) - ht(node.right),
            balance_factor == 2 || balance_factor == -2,
            node_count(Some(node)) <= usize::MAX,
        ensures
            avl(Some(r)),
            keys(Some(r)) == keys(Some(node)),
            node_count(Some(r)) == node_count(Some(node)),
            ht(Some(node)) - 1 <= ht(Some(r)) <= ht(Some(node)),
            r == balanced_node(node),
    {
        let ghost a = node.left;
        let ghost b = node.right;
        if balance_factor > 1 {
            let ghost l = node.left.unwrap();
            proof {
                lemma_height_below_count(l.left);
                lemma_height_below_count(l.right);
            }
            let left_child_balance_factor = Self::balance_factor(node.left.as_ref().unwrap());
            if left_child_balance_factor >= 0 {
                let r = Self::rotate_right(node);
                proof {
                    assert(balanced(r.right));
                    assert(balanced(Some(r)));
                }
                r
            } else {
                let ghost m = l.right.unwrap();
                proof {
                    assert(balanced(l.right));
                    assert(heights_cached(l.right));
                    assert(ht(l.right) == 1 + max_int(ht(m.left), ht(m.right)));
                }
                let r = Self::rotate_left_then_right(node);
                proof {
                    assert(ht(r.left) == 1 + max_int(ht(l.left), ht(m.left)));
                    assert(ht(r.right) == 1 + max_int(ht(m.right), ht(b)));
                    assert(balanced(r.left));
                    assert(balanced(r.right));
                    assert(balanced(Some(r)));
                }
                r
            }
        } else {
            let ghost rc = node.right.unwrap();
            proof {
                lemma_height_below_count(rc.left);
                lemma_height_below_count(rc.right);
            }
            let right_child_balance_factor = Self::balance_factor(node.right.as_ref().unwrap());
            if right_child_balance_factor <= 0 {
                let r = Self::rotate_left(node);
                proof {
                    assert(balanced(r.left));
                    assert(balanced(Some(r)));
                }
                r
            } else {
                let ghost m = rc.left.unwrap();
                proof {
                    assert(balanced(rc.left));
                    assert(heights_cached(rc.left));
                    assert(ht(rc.left) == 1 + max_int(ht(m.left), ht(m.right)));
                }
                let r = Self::rotate_right_then_left(node);
                proof {
                    assert(ht(r.left) == 1 + max_int(ht(a), ht(m.left)));
                    assert(ht(r.right) == 1 + max_int(ht(m.right), ht(rc.right)));
                    assert(balanced(r.left));
                    assert(balanced(r.right));
                    assert(balanced(Some(r)));
                }
                r
            }
        }
    }

    /// Inserts `key` into the subtree at `link` unless it is already there,
    /// rebalancing every node on the way back up.
    fn insert_recursive(link: &mut Option<Box<Node<T>>>, key: T) -> (inserted: bool)
        requires
            avl(*old(link)),
            node_count(*old(link)) < usize::MAX || keys(*old(link)).contains(key),
        ensures
            avl(*final(link)),
            *final(link) == after_insert(*old(link), key),
            inserted == !keys(*old(link)).contains(key),
            keys(*final(link)) == keys(*old(link)).insert(key),
            node_count(*final(link)) == node_count(*old(link)) + if inserted {
                1int
            } else {
                0int
            },
            !inserted ==> *final(link) == *old(link),
            ht(*old(link)) <= ht(*final(link)) <= ht(*old(link)) + 1,
        decreases *old(link),
    {
        match link.take() {
            None => {
                *link = Some(Box::new(Node { left: None, right: None, height: 0, key }));
                proof {
                    reveal_with_fuel(keys, 2);
                    assert(keys(*link) =~= Set::<T>::empty().insert(key));
                }
                true
            },
            Some(node) => {
                let ghost old_node = node;
                proof {
                    lemma_height_below_count(node.left);
                    lemma_height_below_count(node.right);
                }
                let mut node = node;
                let inserted = match key.compare(&node.key) {
                    Ordering::Less => {
                        proof {
                            Self::lemma_not_right_of(old_node, key);
                        }
                        Self::insert_recursive(&mut node.left, key)
                    },
                    Ordering::Equal => false,
                    Ordering::Greater => {
                        proof {
                            Self::lemma_not_left_of(old_node, key);
                        }
                        Self::insert_recursive(&mut node.right, key)
                    },
                };
                if inserted {
                    proof {
                        assert(keys(Some(node)) =~= keys(Some(old_node)).insert(key));
                        assert(ordered(Some(node)));
                    }
                    *link = Some(Self::check_balance(node));
                } else {
                    proof {
                        assert(keys(Some(old_node)).contains(key));
                        assert(keys(Some(old_node)).insert(key) =~= keys(Some(old_node)));
                    }
                    *link = Some(node);
                }
                inserted
            },
        }
    }

    /// Detaches the leftmost node of the subtree at `node`, which holds its
    /// least key, rebalancing on the way back up. Returns what is left of the
    /// subtree and the detached key.
    fn take_leftmost(node: Box<Node<T>>) -> (res: (Option<Box<Node<T>>>, T))
        requires
            avl(Some(node)),
            node_count(Some(node)) <= usize::MAX,
        ensures
            res == without_leftmost(node),
            avl(res.0),
            keys(Some(node)).contains(res.1),
            keys(res.0) == keys(Some(node)).remove(res.1),
            forall|k: T| #[trigger] keys(res.0).contains(k) ==> res.1.rank() < k.rank(),
            node_count(res.0) + 1 == node_count(Some(node)),
            ht(Some(node)) - 1 <= ht(res.0) <= ht(Some(node)),
        decreases node,
    {
        let ghost old_node = node;
        proof {
            lemma_height_below_count(node.left);
            lemma_height_below_count(node.right);
        }
        let mut node = node;
        match node.left.take() {
            None => {
                let Node { left: _, right, height: _, key } = *node;
                proof {
                    reveal_with_fuel(keys, 2);
                    Self::lemma_not_right_of(old_node, key);
                    assert(keys(right) =~= keys(Some(old_node)).remove(key));
                }
                (right, key)
            },
            Some(left) => {
                let (rest, least) = Self::take_leftmost(left);
                node.left = rest;
                proof {
                    assert(keys(old_node.left).contains(least));
                    Self::lemma_not_right_of(old_node, least);
                    assert(ordered(Some(node)));
                }
                let balanced_node = Self::check_balance(node);
                proof {
                    assert(keys(Some(balanced_node)) =~= keys(Some(old_node)).remove(least));
                    assert forall|k: T| #[trigger] keys(Some(balanced_node)).contains(k) implies least.rank()
                        < k.rank() by {
                        if keys(old_node.right).contains(k) {
                            assert(old_node.key.rank() < k.rank());
                        }
                    }
                }
                (Some(balanced_node), least)
            },
        }
    }

    /// Removes `key` from the subtree at `link` if it is there. A node with
    /// two children takes the key of its in-order successor, whose own node
    /// is then detached from the right subtree. Every node on the way back
    /// up is rebalanced.
    fn remove_recursive(link: &mut Option<Box<Node<T>>>, key: T) -> (removed: bool)
        requires
            avl(*old(link)),
            node_count(*old(link)) <= usize::MAX,
        ensures
            avl(*final(link)),
            *final(link) == after_remove(*old(link), key),
            removed == keys(*old(link)).contains(key),
            keys(*final(link)) == keys(*old(link)).remove(key),
            node_count(*final(link)) + (if removed {
                1int
            } else {
                0int
            }) == node_count(*old(link)),
            !removed ==> *final(link) == *old(link),
            ht(*old(link)) - 1 <= ht(*final(link)) <= ht(*old(link)),
        decreases *old(link),
    {
        match link.take() {
            None => {
                proof {
                    assert(keys(*old(link)).remove(key) =~= keys(*old(link)));
                }
                false
            },
            Some(node) => {
                let ghost old_node = node;
                proof {
                    lemma_height_below_count(node.left);
                    lemma_height_below_count(node.right);
                }
                let mut node = node;
                match key.compare(&node.key) {
                    Ordering::Less => {
                        proof {
                            Self::lemma_not_right_of(old_node, key);
                        }
                        let removed = Self::remove_recursive(&mut node.left, key);
                        proof {
                            assert(keys(Some(node)) =~= keys(Some(old_node)).remove(key));
                        }
                        if removed {
                            proof {
                                assert(ordered(Some(node)));
                            }
                            *link = Some(Self::check_balance(node));
                        } else {
                            *link = Some(node);
                        }
                        removed
                    },
                    Ordering::Greater => {
                        proof {
                            Self::lemma_not_left_of(old_node, key);
                        }
                        let removed = Self::remove_recursive(&mut node.right, key);
                        proof {
                            assert(keys(Some(node)) =~= keys(Some(old_node)).remove(key));
                        }
                        if removed {
                            proof {
                                assert(ordered(Some(node)));
                            }
                            *link = Some(Self::check_balance(node));
                        } else {
                            *link = Some(node);
                        }
                        removed
                    },
                    Ordering::Equal => {
                        proof {
                            Self::lemma_not_left_of(old_node, key);
                            Self::lemma_not_right_of(old_node, key);
                        }
                        if node.left.is_none() {
                            *link = node.right.take();
                            proof {
                                assert(keys(*link) =~= keys(Some(old_node)).remove(key));
                            }
                        } else if node.right.is_none() {
                            *link = node.left.take();
                            proof {
                                assert(keys(*link) =~= keys(Some(old_node)).remove(key));
                            }
                        } else {
                            let right = node.right.take().unwrap();
                            let (rest, successor) = Self::take_leftmost(right);
                            node.key = successor;
                            node.right = rest;
                            proof {
                                assert(keys(old_node.right).contains(successor));
                                assert(ordered(Some(node)));
                                assert(keys(Some(node)) =~= keys(Some(old_node)).remove(key));
                            }
                            *link = Some(Self::check_balance(node));
                        }
                        true
                    },
                }
            },
        }
    }
}

impl<T: TotalOrder> TreeAVL<T> {
    /// The root of the tree, `None` when it is empty.
    pub closed spec fn root_link(&self) -> Option<Box<Node<T>>> {
        self.root
    }

    /// The counter of live keys.
    pub closed spec fn size_field(&self) -> usize {
        self.size
    }

    /// The tree is an AVL tree (ordered, with cached heights and balanced at
    /// every node) and the counter equals its number of nodes.
    pub open spec fn well_formed(&self) -> bool {
        &&& avl(self.root_link())
        &&& self.size_field() == node_count(self.root_link())
    }

    /// An empty tree.
    pub fn new() -> (tree: Self)
        ensures
            tree.well_formed(),
            tree.root_link() is None,
            tree@ == Set::<T>::empty(),
    {
        TreeAVL { root: None, size: 0 }
    }

    /// Adds `key`. Where it is already present, nothing changes at all;
    /// otherwise the tree takes the shape given by `after_insert`.
    pub fn insert(&mut self, key: T)
        requires
            old(self).well_formed(),
            old(self)@.len() < usize::MAX || old(self)@.contains(key),
        ensures
            final(self).well_formed(),
            final(self).root_link() == after_insert(old(self).root_link(), key),
            final(self)@ == old(self)@.insert(key),
            old(self)@.contains(key) ==> *final(self) == *old(self),
    {
        proof {
            lemma_keys_count(self.root);
        }
        let inserted = Self::insert_recursive(&mut self.root, key);
        if inserted {
            self.size = self.size + 1;
        }
    }

    /// Removes `key`. Where it is absent, nothing changes at all;
    /// otherwise the tree takes the shape given by `after_remove`, in which
    /// a node with two children takes the key of its in-order successor.
    pub fn remove(&mut self, key: T)
        requires
            old(self).well_formed(),
        ensures
            final(self).well_formed(),
            final(self).root_link() == after_remove(old(self).root_link(), key),
            final(self)@ == old(self)@.remove(key),
            !old(self)@.contains(key) ==> *final(self) == *old(self),
    {
        let removed = Self::remove_recursive(&mut self.root, key);
        if removed {
            self.size = self.size - 1;
        }
    }

    /// Whether `key` is in the tree.
    pub fn contains(&self, key: T) -> (found: bool)
        requires
            self.well_formed(),
        ensures
            found == self@.contains(key),
    {
        let mut current: &Option<Box<Node<T>>> = &self.root;
        loop
            invariant
                ordered(*current),
                self@.contains(key) == keys(*current).contains(key),
            decreases node_count(*current),
        {
            match current {
                None => {
                    return false;
                },
                Some(node) => {
                    match key.compare(&node.key) {
                        Ordering::Less => {
                            proof {
                                Self::lemma_not_right_of(*node, key);
                            }
                            current = &node.left;
                        },
                        Ordering::Equal => {
                            return true;
                        },
                        Ordering::Greater => {
                            proof {
                                Self::lemma_not_left_of(*node, key);
                            }
                            current = &node.right;
                        },
                    }
                },
            }
        }
    }

    /// The number of keys.
    pub fn size(&self) -> (n: usize)
        requires
            self.well_formed(),
        ensures
            n == self@.len(),
    {
        proof {
            lemma_keys_count(self.root);
        }
        self.size
    }

    /// The height of the root: 0 for a single node, and 0 as well for an
    /// empty tree.
    pub fn height(&self) -> (h: usize)
        requires
            self.well_formed(),
        ensures
            h == if self.root_link() is Some {
                ht(self.root_link())
            } else {
                0
            },
    {
        match &self.root {
            Some(node) => {
                proof {
                    lemma_height_below_count(node.left);
                    lemma_height_below_count(node.right);
                }
                Self::calculate_height(node)
            },
            None => 0,
        }
    }

    /// Whether the tree holds no key.
    pub fn is_empty(&self) -> (empty: bool)
        requires
            self.well_formed(),
        ensures
            empty == (self@.len() == 0),
    {
        proof {
            lemma_keys_count(self.root);
        }
        self.root.is_none()
    }

    /// Removes every key.
    pub fn clear(&mut self)
        ensures
            final(self).well_formed(),
            final(self).root_link() is None,
            final(self)@ == Set::<T>::empty(),
    {
        self.root = None;
        self.size = 0;
    }

    /// The root node, from which the shape of the tree can be read.
    pub fn root(&self) -> (r: Option<&Box<Node<T>>>)
        ensures
            match r {
                Some(node) => self.root_link() == Some(*node),
                None => self.root_link() is None,
            },
    {
        self.root.as_ref()
    }
}

impl<T: TotalOrder> View for TreeAVL<T> {
    type V = Set<T>;

    /// The set of keys in the tree.
    open spec fn view(&self) -> Set<T> {
        keys(self.root_link())
    }
}

/// The set reached from `s` by inserting the keys of `ks` one after another.
pub open spec fn insert_all<T>(s: Set<T>, ks: Seq<T>) -> Set<T>
    decreases ks.len(),
{
    if ks.len() == 0 {
        s
    } else {
        insert_all(s.insert(ks[0]), ks.drop_first())
    }
}

/// The set reached from `s` by removing the keys of `ks` one after another.
pub open spec fn remove_all<T>(s: Set<T>, ks: Seq<T>) -> Set<T>
    decreases ks.len(),
{
    if ks.len() == 0 {
        s
    } else {
        remove_all(s.remove(ks[0]), ks.drop_first())
    }
}

proof fn lemma_insert_all_contains<T>(s: Set<T>, ks: Seq<T>, k: T)
    ensures
        insert_all(s, ks).contains(k) == (s.contains(k) || ks.contains(k)),
    decreases ks.len(),
{
    if ks.len() > 0 {
        lemma_insert_all_contains(s.insert(ks[0]), ks.drop_first(), k);
        if ks.contains(k) && k != ks[0] {
            let i = choose|i: int| 0 <= i < ks.len() && ks[i] == k;
            assert(ks.drop_first()[i - 1] == k);
        }
        if ks.drop_first().contains(k) {
            let i = choose|i: int| 0 <= i < ks.drop_first().len() && ks.drop_first()[i] == k;
            assert(ks[i + 1] == k);
        }
        assert(ks.contains(ks[0]));
    }
}

proof fn lemma_remove_all_contains<T>(s: Set<T>, ks: Seq<T>, k: T)
    ensures
        remove_all(s, ks).contains(k) == (s.contains(k) && !ks.contains(k)),
    decreases ks.len(),
{
    if ks.len() > 0 {
        lemma_remove_all_contains(s.remove(ks[0]), ks.drop_first(), k);
        if ks.contains(k) && k != ks[0] {
            let i = choose|i: int| 0 <= i < ks.len() && ks[i] == k;
            assert(ks.drop_first()[i - 1] == k);
        }
        if ks.drop_first().contains(k) {
            let i = choose|i: int| 0 <= i < ks.drop_first().len() && ks.drop_first()[i] == k;
            assert(ks[i + 1] == k);
        }
        assert(ks.contains(ks[0]));
    }
}

/// Inserting the keys of `inserted` into an empty tree and then removing
/// every one of them, in any order and with any other keys, leaves the tree
/// empty.
pub proof fn lemma_round_trip<T>(inserted: Seq<T>, removed: Seq<T>)
    requires
        forall|k: T| inserted.contains(k) ==> removed.contains(k),
    ensures
        remove_all(insert_all(Set::<T>::empty(), inserted), removed) == Set::<T>::empty(),
{
    let full = insert_all(Set::<T>::empty(), inserted);
    assert forall|k: T| !#[trigger] remove_all(full, removed).contains(k) by {
        lemma_insert_all_contains(Set::<T>::empty(), inserted, k);
        lemma_remove_all_contains(full, removed, k);
    }
    assert(remove_all(full, removed) =~= Set::<T>::empty());
}

/// After inserting the keys of `inserted` into an empty tree and then
/// removing the keys of `removed`, the tree holds exactly the distinct keys
/// inserted and not removed; its size (the size of its view) counts them.
pub proof fn lemma_size_accuracy<T>(inserted: Seq<T>, removed: Seq<T>)
    ensures
        remove_all(insert_all(Set::<T>::empty(), inserted), removed) == inserted.to_set().difference(
            removed.to_set(),
        ),
{
    let full = insert_all(Set::<T>::empty(), inserted);
    assert forall|k: T| #[trigger]
        remove_all(full, removed).contains(k) == inserted.to_set().difference(
            removed.to_set(),
        ).contains(k) by {
        lemma_insert_all_contains(Set::<T>::empty(), inserted, k);
        lemma_remove_all_contains(full, removed, k);
    }
    assert(remove_all(full, removed) =~= inserted.to_set().difference(removed.to_set()));
}

proof fn lemma_pow2_monotone(a: nat, b: nat)
    requires
        a <= b,
    ensures
        pow2(a) <= pow2(b),
{
    if a < b {
        lemma_pow2_strictly_increases(a, b);
    }
}

/// A balanced subtree of height `h` has at least `2^((h + 1) / 2) - 1`
/// nodes.
proof fn lemma_count_lower_bound<T>(link: Option<Box<Node<T>>>)
    requires
        balanced(link),
    ensures
        pow2(((ht(link) + 1) / 2) as nat) <= node_count(link) + 1,
    decreases link,
{
    lemma2_to64();
    if let Some(n) = link {
        lemma_count_lower_bound(n.left);
        lemma_count_lower_bound(n.right);
        lemma_height_below_count(n.left);
        lemma_height_below_count(n.right);
        let h = ht(link);
        let e = ((h + 1) / 2) as nat;
        if e > 0 {
            lemma_pow2_unfold(e);
            let el = ((ht(n.left) + 1) / 2) as nat;
            let er = ((ht(n.right) + 1) / 2) as nat;
            assert(e - 1 <= el);
            assert(e - 1 <= er);
            lemma_pow2_monotone((e - 1) as nat, el);
            lemma_pow2_monotone((e - 1) as nat, er);
        }
    }
}

/// A well-formed tree is shallow: with `n` keys its height `h` satisfies
/// `2^((h + 1) / 2) <= n + 1`, so `h` is at most about `2 log2(n + 1)`.
pub proof fn lemma_height_logarithmic<T: TotalOrder>(tree: &TreeAVL<T>)
    requires
        tree.well_formed(),
    ensures
        pow2(((ht(tree.root_link()) + 1) / 2) as nat) <= tree@.len() + 1,
{
    lemma_count_lower_bound(tree.root_link());
    lemma_keys_count(tree.root_link());
}

proof fn lemma_in_order_link<T: TotalOrder>(link: Option<Box<Node<T>>>)
    requires
        ordered(link),
    ensures
        in_order(link).len() == node_count(link),
        forall|i: int| 0 <= i < in_order(link).len() ==> keys(link).contains(#[trigger] in_order(link)[i]),
        forall|i: int, j: int|
            0 <= i < j < in_order(link).len() ==> #[trigger] in_order(link)[i].rank()
                < #[trigger] in_order(link)[j].rank(),
    decreases link,
{
    if let Some(n) = link {
        lemma_in_order_link(n.left);
        lemma_in_order_link(n.right);
        let l = in_order(n.left);
        let r = in_order(n.right);
        let s = in_order(link);
        assert(s == l.push(n.key) + r);
        assert forall|i: int| 0 <= i < s.len() implies keys(link).contains(#[trigger] s[i]) by {
            if i < l.len() {
                assert(s[i] == l[i]);
            } else if i > l.len() {
                assert(s[i] == r[i - l.len() - 1]);
            }
        }
        assert forall|i: int, j: int| 0 <= i < j < s.len() implies #[trigger] s[i].rank()
            < #[trigger] s[j].rank() by {
            if i < l.len() {
                assert(s[i] == l[i]);
                assert(keys(n.left).contains(l[i]));
            } else if i > l.len() {
                assert(s[i] == r[i - l.len() - 1]);
            }
            if j < l.len() {
                assert(s[j] == l[j]);
            } else if j > l.len() {
                assert(s[j] == r[j - l.len() - 1]);
                assert(keys(n.right).contains(r[j - l.len() - 1]));
            }
        }
    }
}

/// Reading a well-formed tree left to right lists each of its keys once, in
/// strictly ascending order.
pub proof fn lemma_in_order_ascending<T: TotalOrder>(tree: &TreeAVL<T>)
    requires
        tree.well_formed(),
    ensures
        in_order(tree.root_link()).len() == tree@.len(),
        forall|i: int|
            0 <= i < in_order(tree.root_link()).len() ==> tree@.contains(
                #[trigger] in_order(tree.root_link())[i],
            ),
        forall|i: int, j: int|
            0 <= i < j < in_order(tree.root_link()).len() ==> #[trigger] in_order(
                tree.root_link(),
            )[i].rank() < #[trigger] in_order(tree.root_link())[j].rank(),
{
    lemma_in_order_link(tree.root_link());
    lemma_keys_count(tree.root_link());
}

} // verus!
