//! A key-value store shared between threads.
//!
//! One [`KvStore`] lives behind a reader-writer lock: reads share the lock,
//! writes hold it alone.  Cloning the handle shares the same store.  The lock
//! only admits stores that are well formed, so every operation runs the
//! verified store operation on a well-formed store.  What a call returns
//! depends on the calls of other threads and on the clock, so the contracts
//! here say what holds of the store as the call found it.
use vstd::prelude::*;
use vstd::rwlock::{RwLock, RwLockPredicate};
use std::sync::Arc;
use crate::kv_store::{live_keys, lookup, KvStore};

verus! {

/// The lock's admission rule: a well-formed store.
pub struct KvStoreInvariant;

impl RwLockPredicate<KvStore> for KvStoreInvariant {
    open spec fn inv(self, v: KvStore) -> bool {
        v.wf()
    }
}

/// A thread-safe handle on a shared [`KvStore`]; clones share the store.
#[derive(Clone)]
pub struct ConcurrentKvStore {
    inner: Arc<RwLock<KvStore, KvStoreInvariant>>,
}

impl ConcurrentKvStore {
    /// A handle on a new, empty store.
    pub fn new() -> (r: Self) {
        ConcurrentKvStore { inner: Arc::new(RwLock::new(KvStore::new(), Ghost(KvStoreInvariant))) }
    }

    /// The value of `key` now: the store as this call found it held `key`
    /// unexpired with this value, or it did not.
    pub fn get(&self, key: &str) -> (r: Option<String>)
        ensures
            exists|s: KvStore, now: u64|
                s.wf() && #[trigger] lookup(s@, key@, now) == match r {
                    Some(v) => Some(v@),
                    None => None,
                },
    {
        let handle = self.inner.acquire_read();
        let store = handle.borrow();
        let found = store.get(key);
        let r = match found {
            Some(v) => Some(v.to_string()),
            None => None,
        };
        handle.release_read();
        r
    }

    /// Store `value` under `key`, with an optional time-to-live in seconds.
    pub fn set(&self, key: String, value: String, ttl_secs: Option<u64>) {
        let (mut store, handle) = self.inner.acquire_write();
        store.set(key, value, ttl_secs);
        handle.release_write(store);
    }

    /// Remove `key`; true when the store as this call found it held `key`.
    pub fn delete(&self, key: &str) -> (r: bool)
        ensures
            exists|s: KvStore| s.wf() && r == (#[trigger] s@).contains_key(key@),
    {
        let (mut store, handle) = self.inner.acquire_write();
        let r = store.delete(key);
        handle.release_write(store);
        r
    }

    /// Drop the entries expired now; returns how many were dropped.
    pub fn purge_expired(&self) -> (r: usize)
        ensures
            exists|s: KvStore, now: u64|
                s.wf() && r == s@.len() - (#[trigger] live_keys(s@, now)).len(),
    {
        let (mut store, handle) = self.inner.acquire_write();
        let ghost before = store;
        let r = store.purge_expired();
        proof {
            let now = choose|now: u64| store@ == crate::kv_store::purged(before@, now);
            assert(store@.dom() =~= live_keys(before@, now));
        }
        handle.release_write(store);
        r
    }

    /// The number of keys alive now.
    pub fn active_len(&self) -> (r: usize)
        ensures
            exists|s: KvStore, now: u64| s.wf() && r == (#[trigger] live_keys(s@, now)).len(),
    {
        let handle = self.inner.acquire_read();
        let r = handle.borrow().active_len();
        handle.release_read();
        r
    }
}

} // verus!
