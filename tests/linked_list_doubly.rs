use data_structures::linked_list_doubly::DoublyLinkedList;

#[test]
fn linked_list_doubly_add_first() {
    let mut x = DoublyLinkedList::new();
    x.add_first(10);
    x.add_first(5);
    assert_eq!(x.peek(), Some(&5));
}

#[test]
fn linked_list_doubly_add_last() {
    let mut x = DoublyLinkedList::new();
    x.add_last(5);
    x.add_last(10);
    assert_eq!(x.peek(), Some(&5));
}

#[test]
fn linked_list_doubly_add_last_no_elements() {
    let mut x = DoublyLinkedList::new();
    x.add_last(5);
    assert_eq!(x.peek(), Some(&5));
}

#[test]
fn linked_list_doubly_add_last_to_existing_list() {
    let mut x = DoublyLinkedList::new();
    x.add_first(10);
    x.add_first(5);
    x.add_last(15);
    let mut iter = x.into_iter();
    iter.next();
    iter.next();
    assert_eq!(iter.next(), Some(15));
}

#[test]
fn linked_list_doubly_add_last_multiple_elements() {
    let mut x = DoublyLinkedList::new();
    x.add_last(5);
    x.add_last(10);
    x.add_last(15);
    assert_eq!(x.peek(), Some(&5));
    assert_eq!(x.peek_last(), Some(&15));
}

#[test]
fn linked_list_doubly_add_last_check_counter() {
    let mut x = DoublyLinkedList::new();
    x.add_last(5);
    x.add_last(10);
    x.add_last(15);
    assert_eq!(x.size(), 3);
}

#[test]
fn linked_list_doubly_add_last_single_element() {
    let mut x = DoublyLinkedList::new();
    x.add_last(5);
    assert_eq!(x.peek(), Some(&5));
    assert_eq!(x.peek_last(), Some(&5));
}

#[test]
fn linked_list_doubly_remove_first_empty_list() {
    let mut x: DoublyLinkedList<i32> = DoublyLinkedList::new();
    x.remove_first();
    assert_eq!(x.size(), 0);
}

#[test]
fn linked_list_doubly_remove_last_empty_list() {
    let mut x: DoublyLinkedList<i32> = DoublyLinkedList::new();
    x.remove_last();
    assert_eq!(x.size(), 0);
}

#[test]
fn linked_list_doubly_remove_first_single_element() {
    let mut x = DoublyLinkedList::new();
    x.add_first(5);
    x.remove_first();
    assert_eq!(x.size(), 0);
    assert!(x.peek().is_none());
}

#[test]
fn linked_list_doubly_remove_last_single_element() {
    let mut x = DoublyLinkedList::new();
    x.add_first(5);
    x.remove_last();
    assert_eq!(x.size(), 0);
    assert!(x.peek().is_none());
}

#[test]
fn linked_list_doubly_remove_first_two_elements() {
    let mut x = DoublyLinkedList::new();
    x.add_first(5);
    x.add_first(10);
    x.remove_first();
    assert_eq!(x.size(), 1);
    assert_eq!(x.peek(), Some(&5));
}

#[test]
fn linked_list_doubly_remove_last_two_elements() {
    let mut x = DoublyLinkedList::new();
    x.add_first(5);
    x.add_first(10);
    x.remove_last();
    assert_eq!(x.size(), 1);
    assert_eq!(x.remove_first().unwrap(), 10);
    assert!(x.peek().is_none());
}

#[test]
fn linked_list_doubly_into_iter() {
    let mut list = DoublyLinkedList::new();
    list.add_first(1);
    list.add_first(2);
    list.add_first(3);

    let mut iter = list.into_iter();
    assert_eq!(iter.next(), Some(3));
    assert_eq!(iter.next(), Some(2));
    assert_eq!(iter.next(), Some(1));
    assert_eq!(iter.next(), None);
}

#[test]
fn linked_list_doubly_reverse() {
    let mut list = DoublyLinkedList::new();
    list.add_first(3);
    list.add_first(2);
    list.add_first(1);

    list.reverse();

    let mut iter = list.into_iter();

    assert_eq!(iter.next(), Some(3));
    assert_eq!(iter.next(), Some(2));
    assert_eq!(iter.next(), Some(1));
}

#[test]
fn linked_list_doubly_counter() {
    let mut list = DoublyLinkedList::new();
    for x in 1..100 {
        list.add_first(x);
    }
    for _ in 1..100 {
        list.remove_last();
    }
    assert_eq!(list.size(), 0);
}

#[test]
fn linked_list_doubly_remove_first_overflow() {
    let mut list = DoublyLinkedList::new();
    list.add_first(1);
    list.remove_first();
    list.remove_first();
}

#[test]
fn remove_middle() {
    let mut list = DoublyLinkedList::new();
    list.add_first(10);
    list.add_first(9);
    list.add_first(8);
    list.remove(9);
    assert_eq!(list.size(), 2);
    assert_eq!(list.remove_first().unwrap(), 8);
    assert_eq!(list.remove_first().unwrap(), 10);
}

#[test]
fn remove_head() {
    let mut list = DoublyLinkedList::new();
    list.add_first(10);
    list.add_first(9);
    list.add_first(8);
    list.remove(8);
    assert_eq!(list.size(), 2);
    assert_eq!(list.remove_first().unwrap(), 9);
}

#[test]
fn remove_empty_list() {
    let mut list = DoublyLinkedList::new();
    list.remove(2);
    assert_eq!(list.size(), 0);
}

#[test]
fn remove_tail() {
    let mut list = DoublyLinkedList::new();
    list.add_first(10);
    list.add_first(9);
    list.add_first(8);
    list.remove(10);
    assert_eq!(list.size(), 2);
    assert_eq!(list.remove_first().unwrap(), 8);
    assert_eq!(list.remove_first().unwrap(), 9);
    assert!(list.remove_first().is_none());
}

#[test]
fn remove_non_existent() {
    let mut list = DoublyLinkedList::new();
    list.add_first(10);
    list.add_first(9);
    list.add_first(8);
    list.remove(7);
    assert_eq!(list.size(), 3);
    assert_eq!(list.remove_first().unwrap(), 8);
    assert_eq!(list.remove_first().unwrap(), 9);
    assert_eq!(list.remove_first().unwrap(), 10);
}

#[test]
fn remove_repeated_element() {
    let mut list = DoublyLinkedList::new();
    list.add_first(10);
    list.add_first(9);
    list.add_first(9);
    list.add_first(8);
    list.remove(9);
    assert_eq!(list.size(), 3);
    assert_eq!(list.remove_first().unwrap(), 8);
    assert_eq!(list.remove_first().unwrap(), 9);
    assert_eq!(list.remove_first().unwrap(), 10);
}

#[test]
fn remove_from_single_element_list() {
    let mut list = DoublyLinkedList::new();
    list.add_first(8);
    list.remove(8);
    assert_eq!(list.size(), 0);
    assert!(list.remove_first().is_none());
}
