use rust_logger::kv_store::KvStore;

#[test]
fn test_set_and_get_permanent() {
    let mut store = KvStore::new();
    store.set("name".to_string(), "alice".to_string(), None);
    assert_eq!(store.get("name"), Some("alice"));
    assert_eq!(store.get("missing"), None);
}

#[test]
fn test_delete() {
    let mut store = KvStore::new();
    store.set("key".to_string(), "val".to_string(), None);
    assert!(store.delete("key"));
    assert!(!store.delete("key"));
    assert_eq!(store.get("key"), None);
}

#[test]
fn kv_ttl_expiry_at_given_times() {
    let mut store = KvStore::new();
    store.set_at("token".to_string(), "abc123".to_string(), Some(1), 100);
    assert_eq!(store.get_at("token", 100), Some("abc123"));
    assert_eq!(store.get_at("token", 101), Some("abc123"));
    assert_eq!(store.get_at("token", 102), None);
}

#[test]
fn kv_purge_expired_at() {
    let mut store = KvStore::new();
    store.set_at("expires".to_string(), "soon".to_string(), Some(1), 10);
    store.set_at("permanent".to_string(), "forever".to_string(), None, 10);
    assert_eq!(store.active_len_at(11), 2);
    assert_eq!(store.active_len_at(12), 1);
    let removed = store.purge_expired_at(12);
    assert_eq!(removed, 1);
    assert_eq!(store.len(), 1);
    assert_eq!(store.get_at("permanent", 12), Some("forever"));
    assert_eq!(store.get_at("expires", 10), None);
}

#[test]
fn kv_set_replaces_value_and_ttl() {
    let mut store = KvStore::new();
    store.set_at("k".to_string(), "one".to_string(), Some(5), 0);
    store.set_at("k".to_string(), "two".to_string(), None, 0);
    assert_eq!(store.len(), 1);
    assert_eq!(store.get_at("k", 1_000_000), Some("two"));
}

#[test]
fn kv_delete_removes_expired_entries_too() {
    let mut store = KvStore::new();
    store.set_at("old".to_string(), "x".to_string(), Some(0), 5);
    assert_eq!(store.get_at("old", 6), None);
    assert_eq!(store.len(), 1);
    assert!(store.delete("old"));
    assert_eq!(store.len(), 0);
}

#[test]
fn kv_contains_key_and_clock_versions() {
    let mut store = KvStore::new();
    store.set("a".to_string(), "1".to_string(), None);
    store.set("b".to_string(), "2".to_string(), Some(3600));
    assert!(store.contains_key("a"));
    assert!(store.contains_key("b"));
    assert!(!store.contains_key("c"));
    assert_eq!(store.active_len(), 2);
    assert_eq!(store.purge_expired(), 0);
    assert_eq!(store.len(), 2);
}

#[test]
fn kv_huge_ttl_never_expires() {
    let mut store = KvStore::new();
    store.set("forever".to_string(), "v".to_string(), Some(u64::MAX));
    assert_eq!(store.get("forever"), Some("v"));
}

#[test]
fn kv_delete_shrinks_len_by_one_only_when_present() {
    let mut store = KvStore::new();
    store.set_at("a".to_string(), "1".to_string(), None, 0);
    store.set_at("b".to_string(), "2".to_string(), Some(5), 0);
    assert_eq!(store.len(), 2);
    assert!(store.delete("b"));
    assert_eq!(store.len(), 1);
    assert!(!store.delete("b"));
    assert_eq!(store.len(), 1);
    assert_eq!(store.get_at("a", 100), Some("1"));
}
