use locale_codes::store::{NumericStore, TextStore};

#[test]
fn text_store_starts_empty() {
    let store: TextStore<u32> = TextStore::new();
    assert_eq!(store.len(), 0);
    assert_eq!(store.get("a"), None);
    assert_eq!(store.get(""), None);
}

#[test]
fn text_store_keeps_insertion_order() {
    let mut store = TextStore::new();
    store.insert("b".to_string(), 2);
    store.insert("a".to_string(), 1);
    store.insert("c".to_string(), 3);
    assert_eq!(store.len(), 3);
    assert_eq!(store.key_at(0), "b");
    assert_eq!(store.key_at(1), "a");
    assert_eq!(store.key_at(2), "c");
    assert_eq!(*store.value_at(0), 2);
    assert_eq!(*store.value_at(1), 1);
    assert_eq!(*store.value_at(2), 3);
    assert_eq!(store.get("a"), Some(&1));
    assert_eq!(store.get("b"), Some(&2));
    assert_eq!(store.get("c"), Some(&3));
    assert_eq!(store.get("d"), None);
}

#[test]
fn text_store_insert_of_a_present_key_replaces_the_value_in_place() {
    let mut store = TextStore::new();
    store.insert("a".to_string(), 1);
    store.insert("b".to_string(), 2);
    store.insert("a".to_string(), 10);
    assert_eq!(store.len(), 2);
    assert_eq!(store.key_at(0), "a");
    assert_eq!(*store.value_at(0), 10);
    assert_eq!(store.get("a"), Some(&10));
    assert_eq!(store.get("b"), Some(&2));
}

#[test]
fn text_store_from_entries_keeps_the_last_of_equal_keys() {
    let store = TextStore::from_entries(vec![
        ("x".to_string(), 1),
        ("y".to_string(), 2),
        ("x".to_string(), 3),
    ]);
    assert_eq!(store.len(), 2);
    assert_eq!(store.key_at(0), "x");
    assert_eq!(store.key_at(1), "y");
    assert_eq!(store.get("x"), Some(&3));
    assert_eq!(store.get("y"), Some(&2));
}

#[test]
fn text_store_from_entries_with_distinct_keys_keeps_every_entry() {
    let entries: Vec<(String, usize)> = (0..100).map(|i| (format!("k{}", i), i)).collect();
    let store = TextStore::from_entries(entries);
    assert_eq!(store.len(), 100);
    for i in 0..100 {
        assert_eq!(*store.key_at(i), format!("k{}", i));
        assert_eq!(*store.value_at(i), i);
        assert_eq!(store.get(&format!("k{}", i)), Some(&i));
    }
}

#[test]
fn text_store_keys_are_compared_exactly() {
    let mut store = TextStore::new();
    store.insert("Key".to_string(), 1);
    assert_eq!(store.get("key"), None);
    assert_eq!(store.get("Key "), None);
    assert_eq!(store.get("Ke"), None);
    assert_eq!(store.get("Key"), Some(&1));
}

#[test]
fn numeric_store_keeps_insertion_order_and_replaces_in_place() {
    let mut store = NumericStore::new();
    assert_eq!(store.len(), 0);
    store.insert(7, "seven");
    store.insert(0, "zero");
    store.insert(65535, "max");
    store.insert(7, "SEVEN");
    assert_eq!(store.len(), 3);
    assert_eq!(store.key_at(0), 7);
    assert_eq!(store.key_at(1), 0);
    assert_eq!(store.key_at(2), 65535);
    assert_eq!(*store.value_at(0), "SEVEN");
    assert_eq!(store.get(7), Some(&"SEVEN"));
    assert_eq!(store.get(0), Some(&"zero"));
    assert_eq!(store.get(65535), Some(&"max"));
    assert_eq!(store.get(8), None);
}

#[test]
fn insert_tells_whether_the_key_was_present() {
    let mut texts = TextStore::new();
    assert!(!texts.insert("a".to_string(), 1));
    assert!(!texts.insert("b".to_string(), 2));
    assert!(texts.insert("a".to_string(), 3));
    assert_eq!(texts.get("a"), Some(&3));
    let mut numbers = NumericStore::new();
    assert!(!numbers.insert(7, "seven"));
    assert!(numbers.insert(7, "SEVEN"));
    assert!(!numbers.insert(8, "eight"));
    assert_eq!(numbers.len(), 2);
}
