use rust_logger::lru_cache::{LruCache, ThreadSafeLruCache};

#[test]
fn test_basic_put_and_get() {
    let mut cache = LruCache::new(2);

    cache.put("a".to_string(), "1".to_string());
    cache.put("b".to_string(), "2".to_string());

    assert_eq!(cache.get("a"), Some("1".to_string()));
    assert_eq!(cache.get("b"), Some("2".to_string()));
    assert_eq!(cache.get("c"), None);
}

#[test]
fn test_eviction_evicts_lru() {
    let mut cache = LruCache::new(2);

    cache.put("a".to_string(), "1".to_string());
    cache.put("b".to_string(), "2".to_string());

    cache.get("a");

    cache.put("c".to_string(), "3".to_string());

    assert_eq!(cache.get("a"), Some("1".to_string()));
    assert_eq!(cache.get("b"), None);
    assert_eq!(cache.get("c"), Some("3".to_string()))
}

#[test]
fn test_update_existing_key() {
    let mut cache = LruCache::new(2);

    cache.put("a".to_string(), "1".to_string());
    cache.put("b".to_string(), "2".to_string());
    cache.put("a".to_string(), "updated".to_string());

    cache.put("c".to_string(), "3".to_string());

    assert_eq!(cache.get("a"), Some("updated".to_string()));
    assert_eq!(cache.get("b"), None);
    assert_eq!(cache.len(), 2);
}

#[test]
fn lru_starts_empty_and_counts() {
    let mut cache = LruCache::new(3);
    assert!(cache.is_empty());
    cache.put("x".to_string(), "1".to_string());
    assert!(!cache.is_empty());
    assert_eq!(cache.len(), 1);
    assert!(cache.can_stamp());
}

#[test]
fn lru_capacity_one_evicts_each_time() {
    let mut cache = LruCache::new(1);
    cache.put("a".to_string(), "1".to_string());
    cache.put("b".to_string(), "2".to_string());
    assert_eq!(cache.len(), 1);
    assert_eq!(cache.get("a"), None);
    assert_eq!(cache.get("b"), Some("2".to_string()));
}

#[test]
fn lru_get_after_put_returns_value() {
    let mut cache = LruCache::new(2);
    cache.put("k".to_string(), "v1".to_string());
    cache.put("k".to_string(), "v2".to_string());
    assert_eq!(cache.get("k"), Some("v2".to_string()));
    assert_eq!(cache.len(), 1);
}

#[test]
fn lru_miss_does_not_refresh() {
    let mut cache = LruCache::new(2);
    cache.put("a".to_string(), "1".to_string());
    cache.put("b".to_string(), "2".to_string());
    assert_eq!(cache.get("zzz"), None);
    cache.put("c".to_string(), "3".to_string());
    assert_eq!(cache.get("a"), None);
    assert_eq!(cache.get("b"), Some("2".to_string()));
}

#[test]
fn thread_safe_lru_single_thread() {
    let cache = ThreadSafeLruCache::new(2);
    cache.put("name".to_string(), "alice".to_string());
    let other = cache.clone();
    assert_eq!(other.get("name"), Some("alice".to_string()));
    other.put("x".to_string(), "1".to_string());
    other.put("y".to_string(), "2".to_string());
    assert_eq!(cache.len(), 2);
    assert_eq!(cache.get("name"), None);
}
