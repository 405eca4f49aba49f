use data_structures::linked_list::LinkedList;

#[test]
fn last_elem() {
    let mut list = LinkedList::new();
    for i in 0..100 {
        list.add_last(i);
    }
    assert_eq!(list.mth_to_last_element(0), Some(&99));
}

#[test]
fn first_elem() {
    let mut list = LinkedList::new();
    for i in 0..100 {
        list.add_last(i);
    }
    assert_eq!(list.mth_to_last_element(100), Some(&0));
}

#[test]
fn middle_elem() {
    let mut list = LinkedList::new();
    for i in 0..100 {
        list.add_last(i);
    }
    assert_eq!(list.mth_to_last_element(50), Some(&49));
}

#[test]
fn empty_list() {
    let list: LinkedList<i32> = LinkedList::new();
    assert!(list.mth_to_last_element(100).is_none());
}

#[test]
fn list_with_one_element() {
    let mut list = LinkedList::new();
    list.add_last(1);
    assert_eq!(list.mth_to_last_element(0), Some(&1));
}

#[test]
fn mth_to_last_beyond_first_is_none() {
    let mut list = LinkedList::new();
    for i in 0..10 {
        list.add_last(i);
    }
    assert_eq!(list.mth_to_last_element(9), Some(&0));
    assert!(list.mth_to_last_element(11).is_none());
}
