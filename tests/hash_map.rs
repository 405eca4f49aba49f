use data_structures::hash_map::hash_chaining::HashMap;

#[test]
fn hash_test() {
    let hash_map: HashMap<String, i32> = HashMap::with_capacity(8);
    assert_eq!(hash_map.get(&"absent".to_string()), None);
}

#[test]
fn hash_insert() {
    let mut hash_map: HashMap<String, i32> = HashMap::new();
    assert_eq!(hash_map.insert("key1".to_string(), 42), None);
    assert_eq!(hash_map.insert("key1".to_string(), 100), Some(42));
}

#[test]
fn hash_insert_large_data() {
    let mut hash_map: HashMap<String, i32> = HashMap::new();

    for i in 0..10000 {
        assert_eq!(hash_map.insert(format!("key{}", i), i), None);
    }

    for i in 0..10000 {
        assert_eq!(hash_map.insert(format!("key{}", i), i + 10000), Some(i));
    }
}

#[test]
fn hash_get() {
    let mut hash_map: HashMap<String, i32> = HashMap::new();
    assert_eq!(hash_map.get(&"key1".to_string()), None);
    hash_map.insert("key1".to_string(), 42);
    assert_eq!(hash_map.get(&"key1".to_string()), Some(&42));
    assert_eq!(hash_map.get(&"key2".to_string()), None);
}

#[test]
fn hash_remove() {
    let mut hash_map: HashMap<String, i32> = HashMap::new();
    hash_map.insert("key1".to_string(), 42);
    assert_eq!(hash_map.remove(&"key1".to_string()), Some(42));
    assert_eq!(hash_map.get(&"key1".to_string()), None);
}

#[test]
fn hash_max_load_factor() {
    let mut hash_map: HashMap<String, i32> = HashMap::with_capacity(4);
    for i in 0..3 {
        hash_map.insert(format!("key{}", i), i);
    }

    hash_map.insert("key_trigger".to_string(), 42);

    for i in 0..3 {
        assert_eq!(hash_map.get(&format!("key{}", i)), Some(&i));
    }
    assert_eq!(hash_map.get(&"key_trigger".to_string()), Some(&42));
}

#[test]
fn hash_remove_absent_and_reinsert() {
    let mut hash_map: HashMap<String, i32> = HashMap::with_capacity(0);
    assert_eq!(hash_map.remove(&"k".to_string()), None);
    for i in 0..50 {
        hash_map.insert(format!("k{}", i), i);
    }
    for i in (0..50).step_by(2) {
        assert_eq!(hash_map.remove(&format!("k{}", i)), Some(i));
    }
    for i in 0..50 {
        let expected = if i % 2 == 0 { None } else { Some(&i) };
        assert_eq!(hash_map.get(&format!("k{}", i)), expected);
    }
    assert_eq!(hash_map.insert("k0".to_string(), 7), None);
    assert_eq!(hash_map.get(&"k0".to_string()), Some(&7));
}
