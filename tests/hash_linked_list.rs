use data_structures::hash_map::hash_linked_list::HashLinkedList;

#[test]
fn new_list() {
    let list = HashLinkedList::<&str, &str>::new();
    assert_eq!(list.get(&"key1"), None);
}

#[test]
fn insert_single_element() {
    let mut list = HashLinkedList::new();
    assert_eq!(list.insert("key1", "value1"), None);
    assert_eq!(list.get(&"key1"), Some(&"value1"));
}

#[test]
fn insert_multiple_elements() {
    let mut list = HashLinkedList::new();
    list.insert("key1", "value1");
    list.insert("key2", "value2");
    list.insert("key3", "value3");
    assert_eq!(list.get(&"key1"), Some(&"value1"));
    assert_eq!(list.get(&"key2"), Some(&"value2"));
    assert_eq!(list.get(&"key3"), Some(&"value3"));
}

#[test]
fn overwrite_existing_key() {
    let mut list = HashLinkedList::new();
    list.insert("key1", "value1");
    assert_eq!(list.insert("key1", "new_value1"), Some("value1"));
    assert_eq!(list.get(&"key1"), Some(&"new_value1"));
}

#[test]
fn remove_key_not_present() {
    let mut list: HashLinkedList<&str, i32> = HashLinkedList::new();
    assert_eq!(list.remove(&"key1"), None);
}

#[test]
fn remove_single_key_from_single_element_list() {
    let mut list = HashLinkedList::new();
    list.insert("key1", "value1");
    assert_eq!(list.remove(&"key1"), Some("value1"));
    assert_eq!(list.get(&"key1"), None);
}

#[test]
fn remove_first_key_from_multi_element_list() {
    let mut list = HashLinkedList::new();
    list.insert("key1", "value1");
    list.insert("key2", "value2");
    list.insert("key3", "value3");
    assert_eq!(list.remove(&"key1"), Some("value1"));
    assert_eq!(list.get(&"key1"), None);
    assert_eq!(list.get(&"key2"), Some(&"value2"));
    assert_eq!(list.get(&"key3"), Some(&"value3"));
}

#[test]
fn remove_middle_key_from_multi_element_list() {
    let mut list = HashLinkedList::new();
    list.insert("key1", "value1");
    list.insert("key2", "value2");
    list.insert("key3", "value3");
    assert_eq!(list.remove(&"key2"), Some("value2"));
    assert_eq!(list.get(&"key1"), Some(&"value1"));
    assert_eq!(list.get(&"key2"), None);
    assert_eq!(list.get(&"key3"), Some(&"value3"));
}

#[test]
fn remove_last_key_from_multi_element_list() {
    let mut list = HashLinkedList::new();
    list.insert("key1", "value1");
    list.insert("key2", "value2");
    list.insert("key3", "value3");
    assert_eq!(list.remove(&"key3"), Some("value3"));
    assert_eq!(list.get(&"key1"), Some(&"value1"));
    assert_eq!(list.get(&"key2"), Some(&"value2"));
    assert_eq!(list.get(&"key3"), None);
}

#[test]
fn remove_key_twice() {
    let mut list = HashLinkedList::new();
    list.insert("key1", "value1");
    assert_eq!(list.remove(&"key1"), Some("value1"));
    assert_eq!(list.remove(&"key1"), None);
}

#[test]
fn complex_sequence_of_operations() {
    let mut list = HashLinkedList::new();
    list.insert("key1", "value1");
    list.insert("key2", "value2");
    assert_eq!(list.get(&"key1"), Some(&"value1"));
    assert_eq!(list.insert("key2", "new_value2"), Some("value2"));
    assert_eq!(list.get(&"key2"), Some(&"new_value2"));
    list.insert("key3", "value3");
    assert_eq!(list.remove(&"key1"), Some("value1"));
    assert_eq!(list.get(&"key1"), None);
    assert_eq!(list.remove(&"key1"), None);
    assert_eq!(list.remove(&"key2"), Some("new_value2"));
    assert_eq!(list.get(&"key3"), Some(&"value3"));
}

#[test]
fn into_iter_hands_out_pairs_in_insertion_order() {
    let mut list = HashLinkedList::new();
    list.insert("a".to_string(), 1);
    list.insert("b".to_string(), 2);
    list.insert("a".to_string(), 3);
    let mut it = list.into_iter();
    assert_eq!(it.next(), Some(("a".to_string(), 3)));
    assert_eq!(it.next(), Some(("b".to_string(), 2)));
    assert_eq!(it.next(), None);
}
