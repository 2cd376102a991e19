use batch_runner::cache::ProgressCache;
use batch_runner::keyed::StringMap;
use batch_runner::outcome::{ActionOutcome, CacheEntry, FailureKind};
use batch_runner::value::NewValue;

fn entry(receipt: &str, retry_count: u8) -> CacheEntry {
    CacheEntry { outcome: ActionOutcome::Success(receipt.to_string()), retry_count }
}

#[test]
fn empty_map_holds_nothing() {
    let map: StringMap<u32> = StringMap::new();
    assert_eq!(map.len(), 0);
    assert_eq!(map.get(&"a".to_string()), None);
    assert!(!map.contains_key(&"a".to_string()));
    assert_eq!(map.position(&"a".to_string()), None);
}

#[test]
fn insert_keeps_first_insertion_order() {
    let mut map = StringMap::new();
    map.insert("b".to_string(), 1u32);
    map.insert("a".to_string(), 2);
    map.insert("b".to_string(), 3);
    assert_eq!(map.len(), 2);
    assert_eq!(map.get(&"b".to_string()), Some(&3));
    assert_eq!(map.get(&"a".to_string()), Some(&2));
    assert_eq!(map.position(&"b".to_string()), Some(0));
    assert_eq!(map.position(&"a".to_string()), Some(1));
    assert_eq!(map.key_at(0), "b");
    assert_eq!(map.key_at(1), "a");
    assert_eq!(map.value_at(0), &3);
    assert_eq!(map.value_at(1), &2);
    assert!(map.contains_key(&"a".to_string()));
    assert!(!map.contains_key(&"c".to_string()));
    assert!(!map.contains_key(&"".to_string()));
}

#[test]
fn missing_file_means_empty_cache() {
    let cache = ProgressCache::new();
    assert_eq!(cache.len(), 0);
    assert_eq!(cache.get(&"A".to_string()), None);
    assert!(!cache.succeeded(&"A".to_string()));
}

#[test]
fn record_replaces_the_entry_of_an_identifier() {
    let mut cache = ProgressCache::new();
    cache.record(
        "A".to_string(),
        CacheEntry {
            outcome: ActionOutcome::Failure(FailureKind::RetriesExhausted, "t".to_string()),
            retry_count: 2,
        },
    );
    cache.record("B".to_string(), entry("rb", 0));
    assert!(!cache.succeeded(&"A".to_string()));
    cache.record("A".to_string(), entry("ra", 1));
    assert_eq!(cache.len(), 2);
    assert!(cache.succeeded(&"A".to_string()));
    assert_eq!(cache.get(&"A".to_string()), Some(&entry("ra", 1)));
    assert_eq!(cache.identifier_at(0), "A");
    assert_eq!(cache.identifier_at(1), "B");
    assert_eq!(cache.entry_at(0), &entry("ra", 1));
    assert_eq!(cache.entry_at(1), &entry("rb", 0));
}

#[test]
fn single_value_is_for_every_identifier() {
    let payload = NewValue::Single("X".to_string());
    assert_eq!(payload.value_for(&"anything".to_string()), Some(&"X".to_string()));
    assert_eq!(payload.first_missing(&vec!["a".to_string(), "b".to_string()]), None);
    assert_eq!(payload.first_missing(&Vec::new()), None);
}

#[test]
fn listed_values_are_per_identifier() {
    let mut values = StringMap::new();
    values.insert("a".to_string(), "1".to_string());
    values.insert("c".to_string(), "3".to_string());
    let payload = NewValue::List(values);
    assert_eq!(payload.value_for(&"a".to_string()), Some(&"1".to_string()));
    assert_eq!(payload.value_for(&"b".to_string()), None);
    let list = vec!["a".to_string(), "b".to_string(), "c".to_string(), "d".to_string()];
    assert_eq!(payload.first_missing(&list), Some(1));
    assert_eq!(payload.first_missing(&vec!["c".to_string(), "a".to_string()]), None);
}
