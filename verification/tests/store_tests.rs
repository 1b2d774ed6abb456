use kvs::KvError;
use kvs::KvStore;

fn fresh() -> KvStore {
    KvStore::open(String::new()).unwrap()
}

fn reopen(store: &KvStore) -> KvStore {
    KvStore::open(store.log_content().clone()).unwrap()
}

#[test]
fn set_get_consistency() {
    let mut store = fresh();
    store.set("k".to_string(), "v".to_string()).unwrap();
    assert_eq!(store.get("k".to_string()).unwrap(), Some("v".to_string()));
}

#[test]
fn set_get_empty_strings() {
    let mut store = fresh();
    store.set(String::new(), String::new()).unwrap();
    assert_eq!(store.get(String::new()).unwrap(), Some(String::new()));
    store.set("k".to_string(), String::new()).unwrap();
    assert_eq!(store.get("k".to_string()).unwrap(), Some(String::new()));
}

#[test]
fn set_get_spaces_and_unicode() {
    let mut store = fresh();
    store
        .set("key with spaces".to_string(), "value with spaces".to_string())
        .unwrap();
    store.set("clé".to_string(), "väl".to_string()).unwrap();
    assert_eq!(
        store.get("key with spaces".to_string()).unwrap(),
        Some("value with spaces".to_string())
    );
    assert_eq!(store.get("clé".to_string()).unwrap(), Some("väl".to_string()));
}

#[test]
fn get_absent_is_none() {
    let store = fresh();
    assert_eq!(store.get("missing".to_string()).unwrap(), None);
}

#[test]
fn overwrite_resolves_to_latest() {
    let mut store = fresh();
    store.set("k".to_string(), "v1".to_string()).unwrap();
    store.set("k".to_string(), "v2".to_string()).unwrap();
    assert_eq!(store.get("k".to_string()).unwrap(), Some("v2".to_string()));
    // the log physically retains the first record
    assert_eq!(store.log_content().as_str(), "S 1 kv1\nS 1 kv2\n");
}

#[test]
fn remove_semantics() {
    let mut store = fresh();
    store.set("k".to_string(), "v".to_string()).unwrap();
    store.remove("k".to_string()).unwrap();
    assert_eq!(store.get("k".to_string()).unwrap(), None);
}

#[test]
fn remove_appends_tombstone() {
    let mut store = fresh();
    store.set("a".to_string(), "v".to_string()).unwrap();
    store.remove("a".to_string()).unwrap();
    // the tombstone is appended; history stays in place
    assert_eq!(store.log_content().as_str(), "S 1 av\nR a\n");
}

#[test]
fn newline_key_is_never_present() {
    let mut store = fresh();
    store.set("a".to_string(), "1".to_string()).unwrap();
    assert_eq!(store.get("a\nb".to_string()).unwrap(), None);
    assert_eq!(
        store.remove("a\nb".to_string()),
        Err(KvError::KeyNotFoundError)
    );
    // the failed remove left the log untouched
    assert_eq!(store.log_content().as_str(), "S 1 a1\n");
}

#[test]
fn remove_missing_key_fails() {
    let mut store = fresh();
    assert_eq!(
        store.remove("never".to_string()),
        Err(KvError::KeyNotFoundError)
    );
    store.set("k".to_string(), "v".to_string()).unwrap();
    store.remove("k".to_string()).unwrap();
    assert_eq!(store.remove("k".to_string()), Err(KvError::KeyNotFoundError));
}

#[test]
fn replay_equivalence() {
    let mut store = fresh();
    store.set("a".to_string(), "1".to_string()).unwrap();
    store.set("b".to_string(), "2".to_string()).unwrap();
    store.remove("a".to_string()).unwrap();
    store.set("c".to_string(), "3".to_string()).unwrap();
    let replayed = reopen(&store);
    for key in ["a", "b", "c", "d"] {
        assert_eq!(
            replayed.get(key.to_string()).unwrap(),
            store.get(key.to_string()).unwrap(),
            "key {key:?}"
        );
    }
}

#[test]
fn open_rejects_malformed_content() {
    assert_eq!(
        KvStore::open("garbage\n".to_string()).err(),
        Some(KvError::MalformedRecordError)
    );
    // a trailing record without its newline is refused too
    assert_eq!(
        KvStore::open("S 1 a1".to_string()).err(),
        Some(KvError::MalformedRecordError)
    );
}

#[test]
fn open_replays_offsets_exactly() {
    // hand-written log: set a, set b, overwrite a, remove b
    let log = "S 1 a1\nS 1 b2\nS 1 a3\nR b\n".to_string();
    let store = KvStore::open(log).unwrap();
    assert_eq!(store.get("a".to_string()).unwrap(), Some("3".to_string()));
    assert_eq!(store.get("b".to_string()).unwrap(), None);
}

#[test]
fn compaction_keeps_every_answer() {
    let mut store = fresh();
    store.set("a".to_string(), "1".to_string()).unwrap();
    store.set("b".to_string(), "2".to_string()).unwrap();
    store.set("a".to_string(), "3".to_string()).unwrap();
    store.remove("b".to_string()).unwrap();
    let before_a = store.get("a".to_string()).unwrap();
    let before_b = store.get("b".to_string()).unwrap();
    store.compact();
    assert_eq!(store.get("a".to_string()).unwrap(), before_a);
    assert_eq!(store.get("b".to_string()).unwrap(), before_b);
}

#[test]
fn compaction_leaves_one_line_per_live_key() {
    let mut store = fresh();
    store.set("a".to_string(), "1".to_string()).unwrap();
    store.set("b".to_string(), "2".to_string()).unwrap();
    store.set("a".to_string(), "3".to_string()).unwrap();
    store.remove("b".to_string()).unwrap();
    store.compact();
    // only the live binding a -> 3 remains: one line, no tombstones
    assert_eq!(store.log_content().as_str(), "S 1 a3\n");
    store.compact();
    assert_eq!(store.log_content().as_str(), "S 1 a3\n");
}

#[test]
fn compaction_of_two_live_keys() {
    let mut store = fresh();
    store.set("a".to_string(), "1".to_string()).unwrap();
    store.set("b".to_string(), "2".to_string()).unwrap();
    store.compact();
    assert_eq!(store.log_content().as_str(), "S 1 a1\nS 1 b2\n");
    let replayed = reopen(&store);
    assert_eq!(replayed.get("a".to_string()).unwrap(), Some("1".to_string()));
    assert_eq!(replayed.get("b".to_string()).unwrap(), Some("2".to_string()));
}

#[test]
fn threshold_triggers_compaction() {
    let mut store = fresh();
    let big = "x".repeat(4096);
    // far more than a megabyte of overwrites of ten keys
    for i in 0..300 {
        let key = format!("k{}", i % 10);
        store.set(key, big.clone()).unwrap();
    }
    // the trigger fired: dead history was dropped
    assert!(store.log_content().len() < 1024 * 1024);
    for i in 0..10 {
        assert_eq!(store.get(format!("k{i}")).unwrap(), Some(big.clone()));
    }
}

#[test]
fn concrete_scenario() {
    let mut store = fresh();
    store.set("a".to_string(), "1".to_string()).unwrap();
    store.set("b".to_string(), "2".to_string()).unwrap();
    store.set("a".to_string(), "3".to_string()).unwrap();
    store.remove("b".to_string()).unwrap();
    assert_eq!(store.get("a".to_string()).unwrap(), Some("3".to_string()));
    assert_eq!(store.get("b".to_string()).unwrap(), None);
    let replayed = reopen(&store);
    assert_eq!(replayed.get("a".to_string()).unwrap(), Some("3".to_string()));
    assert_eq!(replayed.get("b".to_string()).unwrap(), None);
}
