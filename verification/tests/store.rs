use plate_ingest::record::Record;
use plate_ingest::store::{preview, RecordStore, PREVIEW_LIMIT};
use std::time::{Duration, SystemTime};

fn at(seconds: u64) -> SystemTime {
    SystemTime::UNIX_EPOCH + Duration::from_secs(seconds)
}

fn record(plate: &str, seconds: u64) -> Record {
    Record::new(plate.to_string(), at(seconds)).unwrap()
}

fn store_of(plates: &[&str]) -> RecordStore {
    let mut store = RecordStore::new();
    for (i, plate) in plates.iter().enumerate() {
        store.insert(record(plate, i as u64));
    }
    store
}

#[test]
fn record_keeps_what_it_was_given() {
    let r = record("AB12345", 42);
    assert_eq!(r.identifier(), "AB12345");
    assert_eq!(r.observed_at(), at(42));
}

#[test]
fn record_needs_an_identifier() {
    assert!(Record::new(String::new(), at(1)).is_none());
    assert!(Record::new(" ".to_string(), at(1)).is_some());
}

#[test]
fn new_store_is_empty() {
    let store = RecordStore::new();
    assert_eq!(store.len(), 0);
    assert!(!store.contains("AB12345"));
    assert!(store.get("AB12345").is_none());
    assert_eq!(store.keys_sorted(), Vec::<String>::new());
}

#[test]
fn insert_files_under_the_identifier() {
    let mut store = RecordStore::new();
    store.insert(record("AB12345", 5));
    assert_eq!(store.len(), 1);
    assert!(store.contains("AB12345"));
    assert!(!store.contains("AB1234"));
    let found = store.get("AB12345").unwrap();
    assert_eq!(found.identifier(), "AB12345");
    assert_eq!(found.observed_at(), at(5));
}

#[test]
fn reinsert_keeps_one_entry_with_the_later_time() {
    let mut store = RecordStore::new();
    store.insert(record("AB12345", 100));
    store.insert(record("AB12345", 200));
    assert_eq!(store.len(), 1);
    assert_eq!(store.get("AB12345").unwrap().observed_at(), at(200));
    assert_eq!(store.keys_sorted(), vec!["AB12345".to_string()]);
}

#[test]
fn reinsert_leaves_the_others_alone() {
    let mut store = store_of(&["B", "A", "C"]);
    store.insert(record("A", 77));
    assert_eq!(store.len(), 3);
    assert_eq!(store.get("A").unwrap().observed_at(), at(77));
    assert_eq!(store.get("B").unwrap().observed_at(), at(0));
    assert_eq!(store.get("C").unwrap().observed_at(), at(2));
}

#[test]
fn sorted_keys_of_b_a_c() {
    let store = store_of(&["B", "A", "C"]);
    assert_eq!(store.keys_sorted(), vec!["A".to_string(), "B".to_string(), "C".to_string()]);
    assert_eq!(store.len(), 3);
}

#[test]
fn sorted_keys_go_by_characters() {
    let store = store_of(&["b", "AB", "B", "A", "a", "AA", "10", "9", "É", "Z"]);
    assert_eq!(
        store.keys_sorted(),
        vec!["10", "9", "A", "AA", "AB", "B", "Z", "a", "b", "É"]
            .into_iter()
            .map(String::from)
            .collect::<Vec<String>>()
    );
}

#[test]
fn sorted_keys_do_not_change_the_store() {
    let store = store_of(&["B", "A"]);
    let first = store.keys_sorted();
    let second = store.keys_sorted();
    assert_eq!(first, second);
    assert_eq!(store.len(), 2);
    assert_eq!(store.get("B").unwrap().observed_at(), at(0));
}

#[test]
fn preview_of_an_empty_store() {
    let head = preview(&RecordStore::new());
    assert_eq!(head.total, 0);
    assert_eq!(head.shown, Vec::<String>::new());
    assert_eq!(head.more, None);
}

#[test]
fn preview_of_a_small_store_shows_all() {
    let head = preview(&store_of(&["B", "A", "C"]));
    assert_eq!(head.total, 3);
    assert_eq!(head.shown, vec!["A".to_string(), "B".to_string(), "C".to_string()]);
    assert_eq!(head.more, None);
}

#[test]
fn preview_at_the_limit_tells_of_none_more() {
    let plates: Vec<String> = (0..10).map(|i| format!("P{}", i)).collect();
    let refs: Vec<&str> = plates.iter().map(|s| s.as_str()).collect();
    let head = preview(&store_of(&refs));
    assert_eq!(PREVIEW_LIMIT, 10);
    assert_eq!(head.total, 10);
    assert_eq!(head.shown, plates);
    assert_eq!(head.more, Some(0));
}

#[test]
fn preview_past_the_limit_shows_the_first_ten() {
    let plates: Vec<String> = (0..25).rev().map(|i| format!("P{:02}", i)).collect();
    let refs: Vec<&str> = plates.iter().map(|s| s.as_str()).collect();
    let head = preview(&store_of(&refs));
    let expected: Vec<String> = (0..10).map(|i| format!("P{:02}", i)).collect();
    assert_eq!(head.total, 25);
    assert_eq!(head.shown, expected);
    assert_eq!(head.more, Some(15));
}
