use btree::KeyValue;
use btree::Node;

#[test]
fn split_three_items() {
    let mut node = Node::<i64>::new(3);
    node.items = vec![2, 4, 6];
    let (left, center, right) = node.split_three_items();
    assert!(node.items.is_empty());
    assert_eq!(left, vec![2]);
    assert_eq!(center, 4);
    assert_eq!(right, vec![6]);

    node = Node::<i64>::new(5);
    node.items = vec![2, 4, 6, 8, 10];
    let (left, center, right) = node.split_three_items();
    assert!(node.items.is_empty());
    assert_eq!(left, vec![2, 4]);
    assert_eq!(center, 6);
    assert_eq!(right, vec![8, 10]);
}

#[test]
fn new_node() {
    let node = Node::<i64>::new(3);
    assert!(node.children.len() == 0);
    assert!(node.items.capacity() == 3);
    assert!(node.children.capacity() == 4);
}

#[test]
fn search() {
    let mut node = Node::<i64>::new(5);
    node.items = vec![2, 4, 6, 8, 10];
    assert_eq!(node.search(&1), (0, false));
    assert_eq!(node.search(&2), (0, true));
    assert_eq!(node.search(&3), (1, false));
    assert_eq!(node.search(&4), (1, true));
    assert_eq!(node.search(&5), (2, false));
    assert_eq!(node.search(&6), (2, true));
    assert_eq!(node.search(&7), (3, false));
    assert_eq!(node.search(&8), (3, true));
    assert_eq!(node.search(&9), (4, false));
    assert_eq!(node.search(&10), (4, true));
    assert_eq!(node.search(&11), (5, false));
}

#[test]
fn is_items_filled() {
    let mut node = Node::<i64>::new(3);
    assert_eq!(node.is_items_filled(), false);
    node.items = vec![2, 4, 6, 8];
    assert_eq!(node.is_items_filled(), true);
}

#[test]
fn is_children_filled() {
    let mut node = Node::<i64>::new(3);
    node.children = vec![
        Node::<i64>::new(3),
        Node::<i64>::new(3),
        Node::<i64>::new(3),
    ];
}

#[test]
fn put_when_capacity_is_3() {
    let mut node = Node::<KeyValue<&[u8], &[u8]>>::new(3);

    let kv1 = KeyValue {
        key: "hello1".as_bytes(),
        value: "rust1".as_bytes(),
    };
    node.put(kv1.clone(), true);
    assert_eq!(node.items, vec![kv1.clone()]);

    let kv2 = KeyValue {
        key: "hello2".as_bytes(),
        value: "rust2".as_bytes(),
    };
    node.put(kv2.clone(), true);
    assert_eq!(node.items, vec![kv1.clone(), kv2.clone()]);

    let kv3 = KeyValue {
        key: "hello3".as_bytes(),
        value: "rust3".as_bytes(),
    };
    node.put(kv3.clone(), true);
    assert_eq!(node.items, vec![kv2.clone()]);
    assert_eq!(node.children.len(), 2);
    assert_eq!(node.children[0].items, vec![kv1.clone()]);
    assert_eq!(node.children[1].items, vec![kv3.clone()]);

    let kv4 = KeyValue {
        key: "hello4".as_bytes(),
        value: "rust4".as_bytes(),
    };
    node.put(kv4.clone(), true);
    assert_eq!(node.items, vec![kv2.clone()]);
    assert_eq!(node.children.len(), 2);
    assert_eq!(node.children[0].items, vec![kv1.clone()]);
    assert_eq!(node.children[1].items, vec![kv3.clone(), kv4.clone()]);

    let newkv2 = KeyValue {
        key: "hello2".as_bytes(),
        value: "new_rust2".as_bytes(),
    };
    node.put(newkv2.clone(), true);
    assert_eq!(node.items, vec![newkv2.clone()]);
    assert_eq!(node.children.len(), 2);
    assert_eq!(node.children[0].items, vec![kv1.clone()]);
    assert_eq!(node.children[1].items, vec![kv3.clone(), kv4.clone()]);

    let kv5 = KeyValue {
        key: "hello5".as_bytes(),
        value: "rust5".as_bytes(),
    };
    node.put(kv5.clone(), true);
    assert_eq!(node.items, vec![newkv2.clone(), kv4.clone()]);
    assert_eq!(node.children.len(), 3);
    assert_eq!(node.children[0].items, vec![kv1.clone()]);
    assert_eq!(node.children[1].items, vec![kv3.clone()]);
    assert_eq!(node.children[2].items, vec![kv5.clone()]);
    let kv6 = KeyValue {
        key: "hello6".as_bytes(),
        value: "rust6".as_bytes(),
    };
    node.put(kv6.clone(), true);
    assert_eq!(node.items, vec![newkv2.clone(), kv4.clone()]);
    assert_eq!(node.children.len(), 3);
    assert_eq!(node.children[0].items, vec![kv1.clone()]);
    assert_eq!(node.children[1].items, vec![kv3.clone()]);
    assert_eq!(node.children[2].items, vec![kv5.clone(), kv6.clone()]);
    let kv7 = KeyValue {
        key: "hello7".as_bytes(),
        value: "rust7".as_bytes(),
    };

    node.put(kv7.clone(), true);
    assert_eq!(node.items, vec![newkv2.clone(), kv4.clone(), kv6.clone()]);
    assert_eq!(node.children.len(), 4);
    assert_eq!(node.children[0].items, vec![kv1.clone()]);
    assert_eq!(node.children[1].items, vec![kv3.clone()]);
    assert_eq!(node.children[2].items, vec![kv5.clone()]);
    assert_eq!(node.children[3].items, vec![kv7.clone()]);
}

#[test]
fn put_when_capacity_is_5() {
    let mut node = Node::<KeyValue<&[u8], &[u8]>>::new(5);

    let kv1 = KeyValue {
        key: "hello".as_bytes(),
        value: "rust".as_bytes(),
    };
    node.put(kv1.clone(), true);
    assert_eq!(node.items, vec![kv1.clone()]);

    let kv2 = KeyValue {
        key: "hello2".as_bytes(),
        value: "rust2".as_bytes(),
    };
    node.put(kv2.clone(), true);
    assert_eq!(node.items, vec![kv1.clone(), kv2.clone()]);

    let kv3 = KeyValue {
        key: "hello3".as_bytes(),
        value: "rust3".as_bytes(),
    };
    node.put(kv3.clone(), true);
    assert_eq!(node.items, vec![kv1.clone(), kv2.clone(), kv3.clone()]);

    let kv4 = KeyValue {
        key: "hello4".as_bytes(),
        value: "rust4".as_bytes(),
    };
    node.put(kv4.clone(), true);
    assert_eq!(
        node.items,
        vec![kv1.clone(), kv2.clone(), kv3.clone(), kv4.clone()]
    );

    let kv5 = KeyValue {
        key: "hello5".as_bytes(),
        value: "rust5".as_bytes(),
    };
    node.put(kv5.clone(), true);
    assert_eq!(node.items, vec![kv3.clone()]);
    assert_eq!(node.children.len(), 2);
    assert_eq!(node.children[0].items, vec![kv1.clone(), kv2.clone()]);
    assert_eq!(node.children[1].items, vec![kv4.clone(), kv5.clone()]);
}

#[test]
fn get_when_capacity_is_5() {
    let mut node = Node::<KeyValue<String, String>>::new(5);

    let kv_list: Vec<KeyValue<String, String>> = (0..100)
        .map(|i| KeyValue {
            key: format!("hello{}", i),
            value: format!("rust{}", i),
        })
        .collect();

    for kv in &kv_list {
        node.put(kv.clone(), true);
    }
    for kv in &kv_list {
        assert_eq!(node.get(&kv), Some(kv));
    }

    assert_eq!(
        node.get(&KeyValue {
            key: "hello".to_string(),
            value: "not_found".to_string(),
        }),
        None,
    );
}

#[test]
fn split_three_items_even_length() {
    let mut node = Node::<i64>::new(4);
    node.items = vec![2, 4, 6, 8];
    let (left, center, right) = node.split_three_items();
    assert!(node.items.is_empty());
    assert_eq!(left, vec![2, 4]);
    assert_eq!(center, 6);
    assert_eq!(right, vec![8]);
}

#[test]
fn put_when_capacity_is_4() {
    let mut node = Node::<i64>::new(4);
    for i in 1..=4 {
        node.put(i, true);
    }
    assert_eq!(node.items, vec![3]);
    assert_eq!(node.children.len(), 2);
    assert_eq!(node.children[0].items, vec![1, 2]);
    assert_eq!(node.children[1].items, vec![4]);
    for i in 1..=4 {
        assert_eq!(node.get(&i), Some(&i));
    }
}

#[test]
fn put_when_capacity_is_1() {
    let mut node = Node::<i64>::new(1);
    for i in 0..20 {
        node.put(i, true);
    }
    for i in 0..20 {
        assert_eq!(node.get(&i), Some(&i));
    }
    assert_eq!(node.get(&20), None);
}

#[test]
fn put_reports_what_it_did() {
    let mut node = Node::<i64>::new(3);
    assert!(matches!(node.put(5, true), btree::PutResult::Inserted));
    assert!(matches!(node.put(5, true), btree::PutResult::Updated));
    let mut leaf = Node::<i64>::new(3);
    leaf.put(1, false);
    leaf.put(2, false);
    match leaf.put(3, false) {
        btree::PutResult::Putting(_, left, center, right) => {
            assert_eq!(left, vec![1]);
            assert_eq!(center, 2);
            assert_eq!(right, vec![3]);
        }
        _ => panic!("expected a split"),
    }
    assert!(leaf.items.is_empty());
}

#[test]
fn filled_checks() {
    let mut node = Node::<i64>::new(2);
    assert!(!node.is_children_filled());
    node.children = vec![Node::<i64>::new(2), Node::<i64>::new(2), Node::<i64>::new(2)];
    assert!(node.is_children_filled());
    node.items = vec![1, 2];
    assert!(node.is_items_filled());
    assert_eq!(node.new_items().len(), 0);
    assert_eq!(node.new_node().capacity, 2);
}

#[test]
fn put_results_compare_with_eq() {
    let mut node = Node::<u64>::new(3);
    assert!(node.put(7, true) == btree::PutResult::Inserted);
    assert!(node.put(7, true) == btree::PutResult::Updated);
    assert!(node.put(9, true) != btree::PutResult::Updated);
    let mut leaf = Node::<u64>::new(3);
    leaf.put(1, false);
    leaf.put(2, false);
    assert!(leaf.put(0, false) == btree::PutResult::Putting(0, vec![0], 1, vec![2]));
}

#[test]
fn update_keeps_shape() {
    let mut node = Node::<usize>::new(3);
    for i in 1..=7 {
        node.put(i, true);
    }
    assert_eq!(node.items, vec![2, 4, 6]);
    node.put(4, true);
    assert_eq!(node.items, vec![2, 4, 6]);
    assert_eq!(node.children.len(), 4);
    for child in &node.children {
        assert_eq!(child.items.len(), 1);
        assert!(child.children.is_empty());
    }
}

#[test]
fn full_parent_splits_child_in_place() {
    let mut node = Node::<i32>::new(3);
    for i in 1..=7 {
        node.put(i, true);
    }
    node.put(8, true);
    node.put(9, true);
    assert_eq!(node.items, vec![2, 4, 6]);
    assert_eq!(node.children.len(), 4);
    assert_eq!(node.children[3].items, vec![8]);
    assert_eq!(node.children[3].children.len(), 2);
    assert_eq!(node.children[3].children[0].items, vec![7]);
    assert_eq!(node.children[3].children[1].items, vec![9]);
}
