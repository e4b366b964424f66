use std::cmp::Ordering;

use btree::Comparable;
use btree::KeyValue;

#[test]
fn test_greater_than() {
    let i: i64 = 10;
    assert_eq!(i.cmp(&9), Ordering::Greater);
    assert_eq!(i.cmp(&10), Ordering::Equal);
    assert_eq!(i.cmp(&11), Ordering::Less);
}

#[test]
fn compare_integers() {
    let i: i64 = 10;
    assert_eq!(i.compare(&9), Ordering::Greater);
    assert_eq!(i.compare(&10), Ordering::Equal);
    assert_eq!(i.compare(&11), Ordering::Less);
}

#[test]
fn compare_bytes_lexicographically() {
    let a: &[u8] = "hello1".as_bytes();
    let b: &[u8] = "hello2".as_bytes();
    let c: &[u8] = "hello".as_bytes();
    assert_eq!(a.compare(&b), Ordering::Less);
    assert_eq!(b.compare(&a), Ordering::Greater);
    assert_eq!(c.compare(&a), Ordering::Less);
    assert_eq!(a.compare(&c), Ordering::Greater);
    assert_eq!(a.compare(&a), Ordering::Equal);
}

#[test]
fn compare_strings_as_bytes() {
    let a = "hello10".to_string();
    let b = "hello9".to_string();
    assert_eq!(a.compare(&b), Ordering::Less);
    assert_eq!(b.compare(&a), Ordering::Greater);
    assert_eq!("é".to_string().compare(&"z".to_string()), Ordering::Greater);
    assert_eq!(String::new().compare(&String::new()), Ordering::Equal);
}

#[test]
fn key_value_compares_by_key() {
    let a = KeyValue { key: 3i64, value: "x" };
    let b = KeyValue { key: 3i64, value: "y" };
    let c = KeyValue { key: 4i64, value: "x" };
    assert_eq!(a.compare(&b), Ordering::Equal);
    assert!(a == b);
    assert_eq!(a.compare(&c), Ordering::Less);
    assert!(a != c);
}
