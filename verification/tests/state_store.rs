use bytes::Bytes;
use streaming_core::byte_string::{KeyOrder, compare_slices, starts_with};
use streaming_core::memory_store::{MemoryStateStore, MemoryStateStoreIter};

fn bytes(s: &str) -> Bytes {
    Bytes::copy_from_slice(s.as_bytes())
}

fn put(key: &str, value: &str) -> (Bytes, Option<Bytes>) {
    (bytes(key), Some(bytes(value)))
}

fn delete(key: &str) -> (Bytes, Option<Bytes>) {
    (bytes(key), None)
}

fn entry(key: &str, value: &str) -> (Bytes, Bytes) {
    (bytes(key), bytes(value))
}

fn filled() -> MemoryStateStore {
    let mut store = MemoryStateStore::new();
    let report = store.ingest_batch(vec![
        put("b2", "two"),
        put("a", "zero"),
        put("b1", "one"),
        put("c", "three"),
        put("b", ""),
    ]);
    assert!(report.distinct_keys);
    assert_eq!(report.phantom_delete, None);
    store
}

#[test]
fn new_stores_are_empty() {
    for store in vec![
        MemoryStateStore::new(),
        MemoryStateStore::new_without_sanity_check(),
        MemoryStateStore::default(),
    ] {
        assert_eq!(store.get(b""), None);
        assert_eq!(store.scan(b"", None), vec![]);
    }
}

#[test]
fn writes_are_read_back() {
    let mut store = filled();
    assert_eq!(store.get(b"b1"), Some(bytes("one")));
    assert_eq!(store.get(b"b"), Some(bytes("")));
    assert_eq!(store.get(b"b3"), None);
    let report = store.ingest_batch(vec![put("b1", "uno"), delete("c"), put("d", "four")]);
    assert!(report.distinct_keys);
    assert_eq!(report.phantom_delete, None);
    assert_eq!(store.get(b"b1"), Some(bytes("uno")));
    assert_eq!(store.get(b"c"), None);
    assert_eq!(store.get(b"d"), Some(bytes("four")));
    assert_eq!(store.get(b"a"), Some(bytes("zero")));
}

#[test]
fn empty_key_is_a_key() {
    let mut store = MemoryStateStore::new();
    store.ingest_batch(vec![put("", "nothing")]);
    assert_eq!(store.get(b""), Some(bytes("nothing")));
    assert_eq!(store.scan(b"", None), vec![entry("", "nothing")]);
    assert_eq!(store.scan(b"a", None), vec![]);
}

#[test]
fn empty_batch_changes_nothing() {
    let mut store = filled();
    let before = store.scan(b"", None);
    let report = store.ingest_batch(vec![]);
    assert!(report.distinct_keys);
    assert_eq!(report.phantom_delete, None);
    assert_eq!(store.scan(b"", None), before);
}

#[test]
fn order_in_the_batch_makes_no_difference() {
    let batch = vec![put("x", "1"), put("w", "2"), put("z", "3"), put("y", "4")];
    let mut forth = MemoryStateStore::new();
    let mut back = MemoryStateStore::new();
    forth.ingest_batch(batch.clone());
    back.ingest_batch(batch.into_iter().rev().collect());
    assert_eq!(forth.scan(b"", None), back.scan(b"", None));
}

#[test]
fn later_batch_decides() {
    let mut twice = MemoryStateStore::new();
    twice.ingest_batch(vec![put("x", "1"), put("y", "2")]);
    twice.ingest_batch(vec![put("y", "3"), delete("x"), put("z", "4")]);
    assert_eq!(twice.scan(b"", None), vec![entry("y", "3"), entry("z", "4")]);
}

#[test]
fn ingesting_puts_again_changes_nothing() {
    let mut store = filled();
    let before = store.scan(b"", None);
    store.ingest_batch(vec![put("b1", "one"), put("a", "zero")]);
    assert_eq!(store.scan(b"", None), before);
}

#[test]
fn first_entry_of_a_repeated_key_counts() {
    let mut store = MemoryStateStore::new();
    let report = store.ingest_batch(vec![put("k", "first"), put("j", "j"), put("k", "second")]);
    assert!(!report.distinct_keys);
    assert_eq!(store.get(b"k"), Some(bytes("first")));
    assert_eq!(store.get(b"j"), Some(bytes("j")));
}

#[test]
fn batch_is_sorted_and_deduplicated() {
    let store = MemoryStateStore::new();
    let mut batch = vec![put("b", "1"), delete("a"), put("b", "2"), put("", "3")];
    assert!(!store.verify_ingest_batch(&mut batch));
    assert_eq!(batch, vec![put("", "3"), delete("a"), put("b", "1")]);
    assert!(store.verify_ingest_batch(&mut batch));
    assert_eq!(batch, vec![put("", "3"), delete("a"), put("b", "1")]);
}

#[test]
fn phantom_deletes_are_reported() {
    let mut store = filled();
    let report = store.ingest_batch(vec![delete("x"), delete("a"), put("y", "1"), delete("w")]);
    assert!(report.distinct_keys);
    assert_eq!(report.phantom_delete, Some(bytes("w")));
    assert_eq!(store.get(b"a"), None);
    assert_eq!(store.get(b"y"), Some(bytes("1")));
}

#[test]
fn phantom_deletes_pass_without_the_check() {
    for mut store in
        vec![MemoryStateStore::new_without_sanity_check(), MemoryStateStore::default()]
    {
        let report = store.ingest_batch(vec![delete("x"), put("y", "1")]);
        assert!(report.distinct_keys);
        assert_eq!(report.phantom_delete, None);
        assert_eq!(store.scan(b"", None), vec![entry("y", "1")]);
    }
}

#[test]
fn scan_lists_the_prefix_in_order() {
    let store = filled();
    assert_eq!(
        store.scan(b"b", None),
        vec![entry("b", ""), entry("b1", "one"), entry("b2", "two")]
    );
    assert_eq!(store.scan(b"b2", None), vec![entry("b2", "two")]);
    assert_eq!(store.scan(b"b22", None), vec![]);
    assert_eq!(store.scan(b"", None).len(), 5);
}

#[test]
fn scan_stops_at_the_limit() {
    let store = filled();
    let all = store.scan(b"b", None);
    assert_eq!(store.scan(b"b", Some(0)), vec![]);
    for limit in 0..5 {
        let expected: Vec<(Bytes, Bytes)> = all.iter().take(limit).cloned().collect();
        assert_eq!(store.scan(b"b", Some(limit)), expected);
    }
}

#[test]
fn iterator_gives_what_a_scan_gives() {
    let store = filled();
    for prefix in vec!["", "b", "b2", "x"] {
        let mut iter = store.iter(prefix.as_bytes());
        assert!(!iter.is_open());
        iter.open(&store);
        assert!(iter.is_open());
        let mut seen = vec![];
        while let Some(entry) = iter.next() {
            seen.push(entry);
        }
        assert_eq!(seen, store.scan(prefix.as_bytes(), None));
        assert_eq!(iter.next(), None);
    }
}

#[test]
fn iterator_is_a_snapshot() {
    let mut store = filled();
    let mut iter = MemoryStateStoreIter::new(vec![b'c']);
    iter.open(&store);
    store.ingest_batch(vec![delete("c"), put("c1", "late")]);
    assert_eq!(iter.next(), Some(entry("c", "three")));
    assert_eq!(iter.next(), None);
    assert_eq!(store.scan(b"c", None), vec![entry("c1", "late")]);
    iter.open(&store);
    assert_eq!(iter.next(), Some(entry("c1", "late")));
    assert_eq!(iter.next(), None);
}

#[test]
fn bytes_are_ordered_lexicographically() {
    assert_eq!(compare_slices(b"", b""), KeyOrder::Equal);
    assert_eq!(compare_slices(b"", b"a"), KeyOrder::Less);
    assert_eq!(compare_slices(b"ab", b"a"), KeyOrder::Greater);
    assert_eq!(compare_slices(b"ab", b"b"), KeyOrder::Less);
    assert_eq!(compare_slices(&[255], &[1, 2]), KeyOrder::Greater);
    assert_eq!(compare_slices(b"abc", b"abc"), KeyOrder::Equal);
}

#[test]
fn keys_with_high_bytes_come_last() {
    let mut store = MemoryStateStore::new();
    let key = |b: u8| Bytes::copy_from_slice(&[b]);
    store.ingest_batch(vec![(key(200), Some(key(2))), (key(127), Some(key(1)))]);
    assert_eq!(store.scan(&[], None), vec![(key(127), key(1)), (key(200), key(2))]);
}

#[test]
fn prefixes() {
    assert!(starts_with(b"abc", b""));
    assert!(starts_with(b"abc", b"ab"));
    assert!(starts_with(b"abc", b"abc"));
    assert!(!starts_with(b"abc", b"abcd"));
    assert!(!starts_with(b"abc", b"b"));
    assert!(!starts_with(b"", b"a"));
}
