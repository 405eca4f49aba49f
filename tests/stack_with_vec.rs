use data_structures::safe_rust::stack_with_vec::StackVec;

#[test]
fn stack_with_vec_push_pop() {
    let mut stack = StackVec::new();
    stack.push(1);
    stack.push(2);
    assert_eq!(stack.pop(), Some(2));
    assert_eq!(stack.pop(), Some(1));
    assert_eq!(stack.pop(), None);
}

#[test]
fn stack_with_vec_peek() {
    let mut stack = StackVec::new();
    stack.push(1);
    stack.push(2);
    assert_eq!(stack.peek(), Some(&2));
    stack.pop();
    assert_eq!(stack.peek(), Some(&1));
    stack.pop();
    assert_eq!(stack.peek(), None);
}

#[test]
fn stack_with_vec_size_and_is_empty() {
    let mut stack = StackVec::new();
    assert_eq!(stack.is_empty(), true);
    stack.push(1);
    stack.push(2);
    assert_eq!(stack.size(), 2);
    stack.pop();
    stack.pop();
    assert_eq!(stack.is_empty(), true);
}

#[test]
fn stack_with_vec_clear() {
    let mut stack = StackVec::new();
    stack.push(1);
    stack.push(2);
    stack.clear();
    assert_eq!(stack.size(), 0);
    assert_eq!(stack.pop(), None);
}

#[test]
fn test_peek_mut_empty() {
    let mut stack: StackVec<i32> = StackVec::new();
    assert_eq!(stack.peek_mut(), None);
}

#[test]
fn test_peek_mut_single_item() {
    let mut stack = StackVec::new();
    stack.append(&mut vec![42]);
    assert_eq!(*stack.peek_mut().unwrap(), 42);
}

#[test]
fn test_peek_mut_multiple_items() {
    let mut stack = StackVec::new();
    stack.append(&mut vec![1, 2, 3, 4]);
    assert_eq!(*stack.peek_mut().unwrap(), 4);
}

#[test]
fn test_peek_mut_modify_value() {
    let mut stack = StackVec::new();
    stack.append(&mut vec![1, 2, 3, 4]);
    *stack.peek_mut().unwrap() = 99;
    assert_eq!(stack.pop(), Some(99));
    assert_eq!(stack.size(), 3);
}

#[test]
fn stack_with_vec_append_keeps_order_and_empties_source() {
    let mut stack = StackVec::new();
    stack.push(0);
    let mut more = vec![1, 2];
    stack.append(&mut more);
    assert!(more.is_empty());
    assert_eq!(stack.pop(), Some(2));
    assert_eq!(stack.pop(), Some(1));
    assert_eq!(stack.pop(), Some(0));
}
