use data_structures::stack_with_linked_list::StackLinkedList;

#[test]
fn stack_with_linked_list_push_pop() {
    let mut stack = StackLinkedList::new();
    stack.push(1);
    stack.push(2);
    assert_eq!(stack.pop(), Some(2));
    assert_eq!(stack.pop(), Some(1));
    assert_eq!(stack.pop(), None);
}

#[test]
fn stack_with_linked_list_peek() {
    let mut stack = StackLinkedList::new();
    stack.push(1);
    stack.push(2);
    assert_eq!(stack.peek(), Some(&2));
    stack.pop();
    assert_eq!(stack.peek(), Some(&1));
    stack.pop();
    assert_eq!(stack.peek(), None);
}

#[test]
fn stack_with_linked_list_size_and_is_empty() {
    let mut stack = StackLinkedList::new();
    assert_eq!(stack.is_empty(), true);
    stack.push(1);
    stack.push(2);
    assert_eq!(stack.size(), 2);
    stack.pop();
    stack.pop();
    assert_eq!(stack.is_empty(), true);
}

#[test]
fn stack_with_linked_list_clear() {
    let mut stack = StackLinkedList::new();
    stack.push(1);
    stack.push(2);
    stack.clear();
    assert_eq!(stack.size(), 0);
    assert_eq!(stack.pop(), None);
}

#[test]
fn peek_mut() {
    let mut stack = StackLinkedList::new();

    assert!(stack.peek_mut().is_none());

    stack.push(1);
    stack.push(2);

    *stack.peek_mut().unwrap() = 99;
    assert_eq!(stack.peek(), Some(&99));

    stack.pop();
    *stack.peek_mut().unwrap() = 88;
    assert_eq!(stack.peek(), Some(&88));

    stack.pop();
    assert!(stack.peek_mut().is_none());
}
