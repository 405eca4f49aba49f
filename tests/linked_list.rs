use data_structures::linked_list::LinkedList;

#[test]
fn linked_list_add_first() {
    let mut x = LinkedList::new();
    x.add_first(10);
    x.add_first(5);
    assert_eq!(x.peek(), Some(&5));
}

#[test]
fn linked_list_add_last() {
    let mut x = LinkedList::new();
    x.add_last(5);
    x.add_last(10);
    assert_eq!(x.peek(), Some(&5));
}

#[test]
fn linked_list_add_last_no_elements() {
    let mut x = LinkedList::new();
    x.add_last(5);
    assert_eq!(x.peek(), Some(&5));
}

#[test]
fn linked_list_add_last_to_existing_list() {
    let mut x = LinkedList::new();
    x.add_first(10);
    x.add_first(5);
    x.add_last(15);
    let mut iter = x.into_iter();
    iter.next();
    iter.next();
    assert_eq!(iter.next(), Some(15));
}

#[test]
fn linked_list_remove_first_empty_list() {
    let mut x: LinkedList<i32> = LinkedList::new();
    x.remove_first();
    assert_eq!(x.size(), 0);
}

#[test]
fn linked_list_remove_last_empty_list() {
    let mut x: LinkedList<i32> = LinkedList::new();
    x.remove_last();
    assert_eq!(x.size(), 0);
}

#[test]
fn linked_list_remove_first_single_element() {
    let mut x = LinkedList::new();
    x.add_first(5);
    x.remove_first();
    assert_eq!(x.size(), 0);
    assert!(x.peek().is_none());
}

#[test]
fn linked_list_remove_last_single_element() {
    let mut x = LinkedList::new();
    x.add_first(5);
    x.remove_last();
    assert_eq!(x.size(), 0);
    assert!(x.peek().is_none());
}

#[test]
fn linked_list_remove_first_two_elements() {
    let mut x = LinkedList::new();
    x.add_first(5);
    x.add_first(10);
    x.remove_first();
    assert_eq!(x.size(), 1);
    assert_eq!(x.peek(), Some(&5));
}

#[test]
fn linked_list_remove_last_two_elements() {
    let mut x = LinkedList::new();
    x.add_first(5);
    x.add_first(10);
    x.remove_last();
    assert_eq!(x.size(), 1);
    assert_eq!(x.peek(), Some(&10));
}

#[test]
fn linked_list_into_iter() {
    let mut list = LinkedList::new();
    list.add_first(1);
    list.add_first(2);
    list.add_first(3);

    let mut iter = list.into_iter();
    assert_eq!(iter.next(), Some(3));
    assert_eq!(iter.next(), Some(2));
    assert_eq!(iter.next(), Some(1));
    assert_eq!(iter.next(), None);
}

#[test]
fn linked_list_reverse() {
    let mut list = LinkedList::new();
    list.add_first(3);
    list.add_first(2);
    list.add_first(1);

    list.reverse();

    let mut iter = list.into_iter();

    assert_eq!(iter.next(), Some(3));
    assert_eq!(iter.next(), Some(2));
    assert_eq!(iter.next(), Some(1));
}

#[test]
fn linked_list_counter() {
    let mut list = LinkedList::new();
    for x in 1..100 {
        list.add_first(x);
    }
    for _ in 1..100 {
        list.remove_last();
    }
    assert_eq!(list.size(), 0);
}
