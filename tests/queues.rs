use data_structures::queue_with_linked_list::QueueLinkedList;
use data_structures::queue_with_vec::QueueVec;

#[test]
fn queue_with_vec_first_in_first_out() {
    let mut q = QueueVec::new();
    assert!(q.is_empty());
    q.enqueue(1);
    q.enqueue(2);
    q.enqueue(3);
    assert_eq!(q.size(), 3);
    assert_eq!(q.peek(), Some(&1));
    *q.peek_mut().unwrap() = 10;
    assert_eq!(q.dequeue(), Some(10));
    assert_eq!(q.dequeue(), Some(2));
    q.clear();
    assert_eq!(q.dequeue(), None);
    assert!(q.peek_mut().is_none());
}

#[test]
fn queue_with_linked_list_first_in_first_out() {
    let mut q = QueueLinkedList::new();
    assert!(q.is_empty());
    q.enqueue(1);
    q.enqueue(2);
    q.enqueue(3);
    assert_eq!(q.size(), 3);
    assert_eq!(q.peek(), Some(&1));
    *q.peek_mut().unwrap() = 10;
    assert_eq!(q.dequeue(), Some(10));
    assert_eq!(q.dequeue(), Some(2));
    q.clear();
    assert_eq!(q.size(), 0);
    assert_eq!(q.dequeue(), None);
    assert!(q.peek().is_none());
}
