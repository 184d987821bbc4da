use clock::markers::MarkerStore;
use clock::ClockError;

#[test]
fn add_then_list_round_trip() {
    let mut store = MarkerStore::new();
    store.add(100, String::from("test"));
    let listed = store.list();
    assert_eq!(listed.len(), 1);
    assert_eq!(listed[0].0, 1);
    assert_eq!(listed[0].1.timestamp, 100);
    assert_eq!(listed[0].1.description, "test");
    store.clear();
    assert_eq!(store.list().len(), 0);
    assert_eq!(store.count(), 0);
}

#[test]
fn list_keeps_insertion_order_and_positions() {
    let mut store = MarkerStore::new();
    store.add(300, String::from("c"));
    store.add(100, String::from("a"));
    store.add(100, String::from("a"));
    let listed = store.list();
    assert_eq!(listed.len(), 3);
    assert_eq!(listed[0].0, 1);
    assert_eq!(listed[1].0, 2);
    assert_eq!(listed[2].0, 3);
    assert_eq!(listed[0].1.timestamp, 300);
    assert_eq!(listed[1].1.description, "a");
    // duplicates are kept, never merged
    assert_eq!(listed[2].1.timestamp, 100);
    assert_eq!(listed[2].1.description, "a");
}

#[test]
fn get_is_one_based() {
    let mut store = MarkerStore::new();
    store.add(10, String::from("first"));
    store.add(20, String::from("second"));
    let first = store.get(1).unwrap();
    assert_eq!(first.timestamp, 10);
    assert_eq!(first.description, "first");
    let second = store.get(2).unwrap();
    assert_eq!(second.timestamp, 20);
}

#[test]
fn get_outside_range_is_not_found() {
    let mut store = MarkerStore::new();
    assert!(matches!(store.get(0), Err(ClockError::MarkerNotFound)));
    assert!(matches!(store.get(1), Err(ClockError::MarkerNotFound)));
    store.add(10, String::from("only"));
    assert!(matches!(store.get(0), Err(ClockError::MarkerNotFound)));
    assert!(store.get(1).is_ok());
    assert!(matches!(store.get(2), Err(ClockError::MarkerNotFound)));
    assert!(matches!(store.get(u64::MAX), Err(ClockError::MarkerNotFound)));
}

#[test]
fn empty_store_lists_nothing() {
    let store = MarkerStore::new();
    assert_eq!(store.count(), 0);
    assert!(store.list().is_empty());
}
