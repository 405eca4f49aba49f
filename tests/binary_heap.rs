use data_structures::binary_heap::Heap;

#[test]
fn binary_heap_basic_add() {
    let mut heap = Heap::new();
    heap.add(5);
    assert_eq!(heap.peek(), Some(&5));
}

#[test]
fn binary_heap_multiple_adds_ascending() {
    let mut heap = Heap::new();
    heap.add(1);
    heap.add(2);
    heap.add(3);
    assert_eq!(heap.peek(), Some(&3));
}

#[test]
fn binary_heap_multiple_adds_descending() {
    let mut heap = Heap::new();
    heap.add(3);
    heap.add(2);
    heap.add(1);
    assert_eq!(heap.peek(), Some(&3));
}

#[test]
fn binary_heap_multiple_adds_random() {
    let mut heap = Heap::new();
    heap.add(2);
    heap.add(3);
    heap.add(1);
    assert_eq!(heap.peek(), Some(&3));
}

#[test]
fn binary_heap_duplicates() {
    let mut heap = Heap::new();
    heap.add(2);
    heap.add(2);
    assert_eq!(heap.peek(), Some(&2));
    assert_eq!(heap.remove(), Some(2));
    assert_eq!(heap.remove(), Some(2));
}

#[test]
fn binary_heap_remove_from_empty_heap() {
    let mut heap: Heap<i32> = Heap::new();
    assert_eq!(heap.remove(), None);
}

#[test]
fn binary_heap_add_and_remove_single_item() {
    let mut heap = Heap::new();
    heap.add(5);
    assert_eq!(heap.remove(), Some(5));
    assert_eq!(heap.remove(), None);
}

#[test]
fn binary_heap_add_multiple_and_remove() {
    let mut heap = Heap::new();
    heap.add(1);
    heap.add(2);
    heap.add(3);
    assert_eq!(heap.remove(), Some(3));
    assert_eq!(heap.remove(), Some(2));
    assert_eq!(heap.remove(), Some(1));
    assert_eq!(heap.remove(), None);
}

#[test]
fn binary_heap_add_and_remove_mixed() {
    let mut heap = Heap::new();
    heap.add(5);
    heap.add(1);
    heap.add(8);
    heap.add(3);
    assert_eq!(heap.remove(), Some(8));
    heap.add(7);
    assert_eq!(heap.remove(), Some(7));
    assert_eq!(heap.remove(), Some(5));
    heap.add(2);
    assert_eq!(heap.remove(), Some(3));
    assert_eq!(heap.remove(), Some(2));
    assert_eq!(heap.remove(), Some(1));
    assert_eq!(heap.remove(), None);
}

#[test]
fn binary_heap_add_remove_with_duplicates() {
    let mut heap = Heap::new();
    heap.add(5);
    heap.add(5);
    heap.add(2);
    heap.add(2);
    assert_eq!(heap.remove(), Some(5));
    assert_eq!(heap.remove(), Some(5));
    assert_eq!(heap.remove(), Some(2));
    assert_eq!(heap.remove(), Some(2));
    assert_eq!(heap.remove(), None);
}

#[test]
fn binary_heap_from_vec_yields_descending() {
    let mut heap = Heap::from_vec(vec![4, 9, 1, 7, 3, 9, 0, 12, 5]);
    assert_eq!(heap.peek(), Some(&12));
    let mut out = Vec::new();
    while let Some(x) = heap.remove() {
        out.push(x);
    }
    assert_eq!(out, vec![12, 9, 9, 7, 5, 4, 3, 1, 0]);
}

#[test]
fn binary_heap_peek_empty() {
    let heap: Heap<i32> = Heap::new();
    assert_eq!(heap.peek(), None);
}
