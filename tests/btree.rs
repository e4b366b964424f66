use btree::Btree;
use btree::KeyValue;

#[test]
fn new_btree() {
    let btree = Btree::<i64>::new(3);
    assert_eq!(btree.root().items.len(), 0);
    assert_eq!(btree.root().children.len(), 0);
}

#[test]
fn len() {
    let mut btree = Btree::<i64>::new(3);
    for i in 0..100 {
        btree.put(i.clone() as i64);
    }

    assert_eq!(btree.len(), 100);
}

#[test]
fn repeated_key_keeps_latest_value_and_count() {
    let mut btree = Btree::<KeyValue<String, String>>::new(3);
    for i in 0..10 {
        btree.put(KeyValue { key: format!("k{}", i), value: format!("v{}", i) });
    }
    btree.put(KeyValue { key: "k4".to_string(), value: "first".to_string() });
    btree.put(KeyValue { key: "k7".to_string(), value: "other".to_string() });
    btree.put(KeyValue { key: "k4".to_string(), value: "second".to_string() });
    assert_eq!(btree.len(), 10);
    let probe = KeyValue { key: "k4".to_string(), value: String::new() };
    assert_eq!(btree.get(&probe).map(|kv| kv.value.clone()), Some("second".to_string()));
}

#[test]
fn distinct_keys_are_counted() {
    let mut btree = Btree::<i64>::new(4);
    for i in 0..57 {
        btree.put(i * 7 % 57);
    }
    assert_eq!(btree.len(), 57);
    for i in 0..57 {
        assert_eq!(btree.get(&i), Some(&i));
    }
}

#[test]
fn missing_key_is_not_found() {
    let mut btree = Btree::<i64>::new(3);
    assert_eq!(btree.get(&5), None);
    for i in 0..40 {
        btree.put(2 * i);
    }
    assert_eq!(btree.get(&5), None);
    assert_eq!(btree.get(&-1), None);
    assert_eq!(btree.get(&80), None);
    assert_eq!(btree.get(&78), Some(&78));
}

#[test]
fn new_btree_has_empty_leaf_root_with_capacity() {
    let btree = Btree::<u8>::new(5);
    assert_eq!(btree.root().capacity, 5);
    assert!(btree.root().items.is_empty());
    assert!(btree.root().children.is_empty());
    assert_eq!(btree.len(), 0);
}
