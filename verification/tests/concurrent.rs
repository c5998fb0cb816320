use rust_logger::concurrent_kv::ConcurrentKvStore;
use rust_logger::concurrent_rate_limiter::ConcurrentRateLimiter;
use rust_logger::log_pipeline::LogLine;

#[test]
fn concurrent_kv_basic_operations() {
    let store = ConcurrentKvStore::new();
    store.set("k".to_string(), "v".to_string(), None);
    let other = store.clone();
    assert_eq!(other.get("k"), Some("v".to_string()));
    assert_eq!(other.get("missing"), None);
    store.set("t".to_string(), "x".to_string(), Some(3600));
    assert_eq!(store.active_len(), 2);
    assert_eq!(store.purge_expired(), 0);
    assert!(other.delete("k"));
    assert!(!store.delete("k"));
    assert_eq!(store.active_len(), 1);
}

#[test]
fn concurrent_rate_limiter_single_thread() {
    let rl = ConcurrentRateLimiter::new(2, 60);
    let shared = rl.clone();
    assert_eq!(rl.remaining(), 2);
    assert!(rl.allow());
    assert!(shared.allow());
    assert!(!rl.allow());
    assert_eq!(shared.remaining(), 0);
    rl.reset();
    assert_eq!(shared.remaining(), 2);
}

#[test]
fn log_line_holds_fields() {
    let line = LogLine { source: "svc".to_string(), content: "[INFO] up".to_string() };
    let copy = line.clone();
    assert_eq!(copy.source, "svc");
    assert!(copy.content.contains("INFO"));
}
