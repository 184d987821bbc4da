use clock::markers::MarkerStore;
use clock::ClockError;

#[test]
fn serialized_document_shape() {
    let mut store = MarkerStore::new();
    store.add(100, String::from("test"));
    assert_eq!(
        store.serialize(),
        "events = [{timestamp = 100, description = \"test\"}]\n"
    );
}

#[test]
fn empty_store_serializes_to_empty_array() {
    let store = MarkerStore::new();
    assert_eq!(store.serialize(), "events = []\n");
}

#[test]
fn empty_text_loads_as_empty_store() {
    // a freshly created store file holds nothing at all
    let store = MarkerStore::load("").unwrap();
    assert_eq!(store.count(), 0);
}

#[test]
fn save_and_reload_preserves_all_entries() {
    let mut store = MarkerStore::new();
    store.add(100, String::from("test"));
    store.add(200, String::from(""));
    store.add(300, String::from("spaces and, commas"));
    let text = store.serialize();
    let reloaded = MarkerStore::load(&text).unwrap();
    let listed = reloaded.list();
    assert_eq!(listed.len(), 3);
    assert_eq!(listed[0].1.timestamp, 100);
    assert_eq!(listed[0].1.description, "test");
    assert_eq!(listed[1].1.timestamp, 200);
    assert_eq!(listed[1].1.description, "");
    assert_eq!(listed[2].1.timestamp, 300);
    assert_eq!(listed[2].1.description, "spaces and, commas");
}

#[test]
fn quotes_and_backslashes_survive_a_round_trip() {
    let mut store = MarkerStore::new();
    store.add(1, String::from("has \"quotes\" and a \\ backslash"));
    store.add(2, String::from("\\\\\""));
    let text = store.serialize();
    let reloaded = MarkerStore::load(&text).unwrap();
    let listed = reloaded.list();
    assert_eq!(listed[0].1.description, "has \"quotes\" and a \\ backslash");
    assert_eq!(listed[1].1.description, "\\\\\"");
}

#[test]
fn reserializing_a_reloaded_store_is_byte_identical() {
    let mut store = MarkerStore::new();
    store.add(1730172543, String::from("Started working on project"));
    store.add(1730172600, String::from(""));
    let text = store.serialize();
    let again = MarkerStore::load(&text).unwrap().serialize();
    assert_eq!(text, again);
}

#[test]
fn garbage_is_a_parse_error() {
    assert!(matches!(
        MarkerStore::load("garbage"),
        Err(ClockError::StorageParseError)
    ));
    assert!(matches!(
        MarkerStore::load("events = ["),
        Err(ClockError::StorageParseError)
    ));
    assert!(matches!(
        MarkerStore::load("events = []"),
        Err(ClockError::StorageParseError)
    ));
    assert!(matches!(
        MarkerStore::load("events = [{timestamp = , description = \"x\"}]\n"),
        Err(ClockError::StorageParseError)
    ));
    assert!(matches!(
        MarkerStore::load("events = [{timestamp = 1, description = \"x\"}]\ntrailing"),
        Err(ClockError::StorageParseError)
    ));
}

#[test]
fn timestamp_out_of_range_is_a_parse_error() {
    // one more than u64::MAX
    let text = "events = [{timestamp = 18446744073709551616, description = \"x\"}]\n";
    assert!(matches!(
        MarkerStore::load(text),
        Err(ClockError::StorageParseError)
    ));
    let ok = "events = [{timestamp = 18446744073709551615, description = \"x\"}]\n";
    let store = MarkerStore::load(ok).unwrap();
    assert_eq!(store.get(1).unwrap().timestamp, u64::MAX);
}

#[test]
fn unescaped_quote_ends_the_description() {
    // a lone backslash before an ordinary character is not a valid escape
    assert!(matches!(
        MarkerStore::load("events = [{timestamp = 1, description = \"a\\b\"}]\n"),
        Err(ClockError::StorageParseError)
    ));
}
