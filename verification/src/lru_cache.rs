//! A least-recently-used cache of strings.
//!
//! Every access stamps the accessed key with a fresh, strictly increasing
//! counter value; when a new key arrives at a full cache the key with the
//! smallest stamp, the least recently used, is evicted.  The cache is
//! modelled as [`LruView`]: the capacity, the last stamp handed out, and a
//! map from each key to its value and stamp.
use vstd::prelude::*;
use std::collections::BTreeMap;
use std::sync::Arc;
use vstd::rwlock::{RwLock, RwLockPredicate};
use crate::assoc::{assoc_map, has_key, keys_unique, lemma_assoc_dom, lemma_assoc_facts, lemma_assoc_len, lemma_assoc_push, lemma_assoc_remove, lemma_assoc_update};
use crate::text::str_eq;

verus! {

broadcast use vstd::laws_cmp::group_laws_cmp, vstd::std_specs::btree::group_btree_axioms;

/// What a cache is: its capacity, the last stamp handed out, and for each
/// key its value and the stamp of its last access.
pub struct LruView {
    pub capacity: nat,
    pub counter: u64,
    pub entries: Map<Seq<char>, (Seq<char>, u64)>,
}

/// A cache that can be: positive capacity, never more keys than that, every
/// stamp handed out already, and no two keys sharing a stamp.
pub open spec fn lru_wf(v: LruView) -> bool {
    &&& v.capacity > 0
    &&& v.entries.dom().finite()
    &&& v.entries.len() <= v.capacity
    &&& forall|k: Seq<char>| #[trigger] v.entries.contains_key(k) ==> v.entries[k].1 <= v.counter
    &&& forall|a: Seq<char>, b: Seq<char>|
        #[trigger] v.entries.contains_key(a) && #[trigger] v.entries.contains_key(b) && a != b
            ==> v.entries[a].1 != v.entries[b].1
}

/// `k` is the least recently used key of `e`.
pub open spec fn is_lru(e: Map<Seq<char>, (Seq<char>, u64)>, k: Seq<char>) -> bool {
    &&& e.contains_key(k)
    &&& forall|j: Seq<char>| #[trigger] e.contains_key(j) ==> e[k].1 <= e[j].1
}

/// The least recently used key of `e`.
pub open spec fn lru_victim(e: Map<Seq<char>, (Seq<char>, u64)>) -> Seq<char> {
    choose|k: Seq<char>| is_lru(e, k)
}

/// The cache after `get(k)`, and the answer.
pub open spec fn get_spec(v: LruView, k: Seq<char>) -> (LruView, Option<Seq<char>>) {
    if v.entries.contains_key(k) {
        let t = (v.counter + 1) as u64;
        (
            LruView { counter: t, entries: v.entries.insert(k, (v.entries[k].0, t)), ..v },
            Some(v.entries[k].0),
        )
    } else {
        (v, None)
    }
}

/// The cache after `put(k, x)`.
pub open spec fn put_spec(v: LruView, k: Seq<char>, x: Seq<char>) -> LruView {
    let t = (v.counter + 1) as u64;
    if v.entries.contains_key(k) {
        LruView { counter: t, entries: v.entries.insert(k, (x, t)), ..v }
    } else if v.entries.len() == v.capacity {
        LruView {
            counter: t,
            entries: v.entries.remove(lru_victim(v.entries)).insert(k, (x, t)),
            ..v
        }
    } else {
        LruView { counter: t, entries: v.entries.insert(k, (x, t)), ..v }
    }
}

/// The text of an optional owned string.
pub open spec fn opt_string_view(r: Option<String>) -> Option<Seq<char>> {
    match r {
        Some(s) => Some(s@),
        None => None,
    }
}

/// With distinct stamps, a least recently used key is the only one.
pub proof fn lemma_victim_unique(e: Map<Seq<char>, (Seq<char>, u64)>, k: Seq<char>)
    requires
        forall|a: Seq<char>, b: Seq<char>|
            #[trigger] e.contains_key(a) && #[trigger] e.contains_key(b) && a != b ==> e[a].1
                != e[b].1,
        is_lru(e, k),
    ensures
        lru_victim(e) == k,
{
    let c = lru_victim(e);
    assert(is_lru(e, c));
    if c != k {
        assert(e[c].1 <= e[k].1);
        assert(e[k].1 <= e[c].1);
    }
}

/// `BTreeMap::first_key_value`: the entry with the smallest key, `None` for
/// an empty map.
#[verifier::external_body]
fn first_entry(order: &BTreeMap<u64, String>) -> (r: Option<(u64, &String)>)
    ensures
        r is None <==> order@.is_empty(),
        r matches Some((t, s)) ==> {
            &&& order@.contains_key(t)
            &&& order@[t] == *s
            &&& forall|k: u64| #[trigger] order@.contains_key(k) ==> t <= k
        },
{
    match order.first_key_value() {
        Some((k, v)) => Some((*k, v)),
        None => None,
    }
}

pub(crate) open spec fn store_view(s: Seq<(String, (String, u64))>) -> Seq<
    (Seq<char>, (Seq<char>, u64)),
> {
    s.map_values(|p: (String, (String, u64))| (p.0@, (p.1.0@, p.1.1)))
}

/// A least-recently-used cache mapping strings to strings.
pub struct LruCache {
    capacity: usize,
    store: Vec<(String, (String, u64))>,
    order: BTreeMap<u64, String>,
    counter: u64,
}

impl View for LruCache {
    type V = LruView;

    closed spec fn view(&self) -> LruView {
        LruView {
            capacity: self.capacity as nat,
            counter: self.counter,
            entries: assoc_map(store_view(self.store@)),
        }
    }
}

impl LruCache {
    /// The cache's internal consistency: keys and stamps distinct, stamps
    /// handed out, and the recency index holding exactly the stamps, each
    /// pointing at the key it stamps.
    pub closed spec fn wf(&self) -> bool {
        &&& 0 < self.capacity
        &&& keys_unique(store_view(self.store@))
        &&& self.store@.len() <= self.capacity
        &&& forall|i: int| 0 <= i < self.store@.len() ==> #[trigger] self.store@[i].1.1 <= self.counter
        &&& forall|i: int, j: int|
            0 <= i < self.store@.len() && 0 <= j < self.store@.len() && i != j
                ==> #[trigger] self.store@[i].1.1 != #[trigger] self.store@[j].1.1
        &&& forall|i: int|
            0 <= i < self.store@.len() ==> self.order@.contains_key(#[trigger] self.store@[i].1.1)
                && self.order@[self.store@[i].1.1]@ == self.store@[i].0@
        &&& forall|t: u64| #[trigger]
            self.order@.contains_key(t) ==> exists|i: int|
                0 <= i < self.store@.len() && #[trigger] self.store@[i].1.1 == t
    }

    /// The model of a well-formed cache is well formed: finitely many keys,
    /// at most `capacity` of them, with distinct stamps none above the
    /// counter.
    pub proof fn lemma_wf_view(&self)
        requires
            self.wf(),
        ensures
            lru_wf(self@),
    {
        self.lemma_view_facts();
    }

    proof fn lemma_view_facts(&self)
        requires
            self.wf(),
        ensures
            lru_wf(self@),
            self@.entries.len() == self.store@.len(),
            forall|k: Seq<char>| #[trigger]
                self@.entries.contains_key(k) <==> has_key(store_view(self.store@), k),
            forall|i: int|
                0 <= i < self.store@.len() ==> #[trigger] self@.entries[self.store@[i].0@] == (
                    self.store@[i].1.0@,
                    self.store@[i].1.1,
                ),
    {
        let s = store_view(self.store@);
        lemma_assoc_facts(s);
        lemma_assoc_len(s);
        assert forall|i: int| 0 <= i < self.store@.len() implies #[trigger] self@.entries[self.store@[
            i].0@] == (self.store@[i].1.0@, self.store@[i].1.1) by {
            assert(s[i] == (self.store@[i].0@, (self.store@[i].1.0@, self.store@[i].1.1)));
        }
        let e = self@.entries;
        assert forall|k: Seq<char>| #[trigger] e.contains_key(k) implies e[k].1 <= self.counter by {
            let i = choose|i: int| 0 <= i < s.len() && s[i].0 == k;
            assert(s[i] == (self.store@[i].0@, (self.store@[i].1.0@, self.store@[i].1.1)));
        }
        assert forall|a: Seq<char>, b: Seq<char>|
            #[trigger] e.contains_key(a) && #[trigger] e.contains_key(b) && a != b implies e[a].1
            != e[b].1 by {
            let i = choose|i: int| 0 <= i < s.len() && s[i].0 == a;
            let j = choose|j: int| 0 <= j < s.len() && s[j].0 == b;
            assert(s[i] == (self.store@[i].0@, (self.store@[i].1.0@, self.store@[i].1.1)));
            assert(s[j] == (self.store@[j].0@, (self.store@[j].1.0@, self.store@[j].1.1)));
        }
    }

    /// An empty cache holding at most `capacity` keys; the capacity must be
    /// positive.
    pub fn new(capacity: usize) -> (r: Self)
        requires
            capacity > 0,
        ensures
            r.wf(),
            r@ == (LruView { capacity: capacity as nat, counter: 0, entries: Map::empty() }),
    {
        let r = LruCache { capacity, store: Vec::new(), order: BTreeMap::new(), counter: 0 };
        assert(store_view(r.store@) =~= Seq::empty());
        r
    }

    /// Hand out the next stamp.
    fn next_ts(&mut self) -> (r: u64)
        requires
            old(self).counter < u64::MAX,
        ensures
            r == old(self).counter + 1,
            final(self).counter == r,
            final(self).capacity == old(self).capacity,
            final(self).store == old(self).store,
            final(self).order == old(self).order,
    {
        self.counter = self.counter + 1;
        self.counter
    }

    /// The position of `key` in the store, if it is there.
    fn find(&self, key: &str) -> (r: Option<usize>)
        requires
            self.wf(),
        ensures
            match r {
                Some(i) => i < self.store@.len() && self.store@[i as int].0@ == key@,
                None => !self@.entries.contains_key(key@),
            },
    {
        proof {
            self.lemma_view_facts();
        }
        let mut i: usize = 0;
        while i < self.store.len()
            invariant
                i <= self.store@.len(),
                forall|j: int| 0 <= j < i ==> self.store@[j].0@ != key@,
            decreases self.store@.len() - i,
        {
            if str_eq(self.store[i].0.as_str(), key) {
                return Some(i);
            }
            i = i + 1;
        }
        proof {
            let s = store_view(self.store@);
            if has_key(s, key@) {
                let j = choose|j: int| 0 <= j < s.len() && s[j].0 == key@;
                assert(s[j].0 == self.store@[j].0@);
            }
        }
        None
    }

    /// Give the entry at position `i` the next stamp (and value `value`),
    /// keeping the recency index in step.
    fn restamp(&mut self, i: usize, key: String, value: String)
        requires
            old(self).wf(),
            i < old(self).store@.len(),
            key@ == old(self).store@[i as int].0@,
            old(self).counter < u64::MAX,
        ensures
            final(self).wf(),
            final(self)@ == (LruView {
                counter: (old(self)@.counter + 1) as u64,
                entries: old(self)@.entries.insert(key@, (value@, (old(self)@.counter + 1) as u64)),
                ..old(self)@
            }),
    {
        proof {
            self.lemma_view_facts();
        }
        let ghost s0 = self.store@;
        let old_ts = self.store[i].1.1;
        let _ = self.order.remove(&old_ts);
        let ts = self.next_ts();
        let key_copy = key.clone();
        self.order.insert(ts, key_copy);
        let ghost kv = key@;
        let ghost vv = value@;
        self.store.set(i, (key, (value, ts)));
        proof {
            let sv0 = store_view(s0);
            lemma_assoc_update(sv0, i as int, (vv, ts));
            assert(store_view(self.store@) =~= sv0.update(i as int, (sv0[i as int].0, (vv, ts))));
            assert forall|t: u64| #[trigger] self.order@.contains_key(t) implies exists|j: int|
                0 <= j < self.store@.len() && #[trigger] self.store@[j].1.1 == t by {
                if t != ts {
                    let j = choose|j: int| 0 <= j < s0.len() && #[trigger] s0[j].1.1 == t;
                    assert(j != i);
                    assert(self.store@[j] == s0[j]);
                } else {
                    assert(self.store@[i as int].1.1 == t);
                }
            }
            assert forall|a: int|
                0 <= a < self.store@.len() implies self.order@.contains_key(
                #[trigger] self.store@[a].1.1,
            ) && self.order@[self.store@[a].1.1]@ == self.store@[a].0@ by {
                if a != i {
                    assert(self.store@[a] == s0[a]);
                    assert(s0[a].1.1 != s0[i as int].1.1);
                }
            }
        }
    }

    /// The value of `key`, marking it most recently used; `None` when absent.
    pub fn get(&mut self, key: &str) -> (r: Option<String>)
        requires
            old(self).wf(),
            old(self)@.entries.contains_key(key@) ==> old(self)@.counter < u64::MAX,
        ensures
            final(self).wf(),
            (final(self)@, opt_string_view(r)) == get_spec(old(self)@, key@),
    {
        proof {
            self.lemma_view_facts();
        }
        match self.find(key) {
            Some(i) => {
                let value = self.store[i].1.0.clone();
                let result = value.clone();
                proof {
                    assert(store_view(self.store@)[i as int].0 == key@);
                    assert(self@.entries[self.store@[i as int].0@] == (
                        self.store@[i as int].1.0@,
                        self.store@[i as int].1.1,
                    ));
                }
                self.restamp(i, key.to_owned(), value);
                Some(result)
            },
            None => None,
        }
    }

    /// Store `value` under `key`, marking it most recently used.  A new key
    /// arriving at a full cache first evicts the least recently used key.
    pub fn put(&mut self, key: String, value: String)
        requires
            old(self).wf(),
            old(self)@.counter < u64::MAX,
        ensures
            final(self).wf(),
            final(self)@ == put_spec(old(self)@, key@, value@),
    {
        proof {
            self.lemma_view_facts();
        }
        match self.find(key.as_str()) {
            Some(i) => {
                proof {
                    assert(store_view(self.store@)[i as int].0 == key@);
                }
                self.restamp(i, key, value);
                return ;
            },
            None => {},
        }
        let ghost v0 = self@;
        if self.store.len() == self.capacity {
            self.evict_oldest();
        }
        proof {
            self.lemma_view_facts();
        }
        let ghost v1 = self@;
        let ghost s1 = self.store@;
        let ts = self.next_ts();
        let key_copy = key.clone();
        self.order.insert(ts, key_copy);
        let ghost kv = key@;
        let ghost vv = value@;
        proof {
            lemma_assoc_dom(store_view(s1));
        }
        self.store.push((key, (value, ts)));
        proof {
            let sv1 = store_view(s1);
            lemma_assoc_push(sv1, kv, (vv, ts));
            assert(store_view(self.store@) =~= sv1.push((kv, (vv, ts))));
            assert forall|t: u64| #[trigger] self.order@.contains_key(t) implies exists|j: int|
                0 <= j < self.store@.len() && #[trigger] self.store@[j].1.1 == t by {
                if t != ts {
                    let j = choose|j: int| 0 <= j < s1.len() && #[trigger] s1[j].1.1 == t;
                    assert(self.store@[j] == s1[j]);
                } else {
                    assert(self.store@[s1.len() as int].1.1 == t);
                }
            }
            assert forall|a: int|
                0 <= a < self.store@.len() implies self.order@.contains_key(
                #[trigger] self.store@[a].1.1,
            ) && self.order@[self.store@[a].1.1]@ == self.store@[a].0@ by {
                if a < s1.len() {
                    assert(self.store@[a] == s1[a]);
                }
            }
            assert forall|a: int, b: int|
                0 <= a < self.store@.len() && 0 <= b < self.store@.len() && a != b implies #[trigger] self.store@[a].1.1
                != #[trigger] self.store@[b].1.1 by {
                if a < s1.len() && b < s1.len() {
                    assert(self.store@[a] == s1[a]);
                    assert(self.store@[b] == s1[b]);
                } else if a < s1.len() {
                    assert(self.store@[a] == s1[a]);
                } else {
                    assert(self.store@[b] == s1[b]);
                }
            }
            assert(self@ == put_spec(v0, kv, vv));
        }
    }

    /// Remove the least recently used key (the cache is full, so not empty).
    fn evict_oldest(&mut self)
        requires
            old(self).wf(),
            old(self).store@.len() == old(self).capacity,
        ensures
            final(self).wf(),
            final(self)@ == (LruView {
                entries: old(self)@.entries.remove(lru_victim(old(self)@.entries)),
                ..old(self)@
            }),
            final(self).store@.len() < final(self).capacity,
    {
        proof {
            self.lemma_view_facts();
        }
        let ghost s0 = self.store@;
        let ghost e0 = self@.entries;
        let first = first_entry(&self.order);
        match first {
            Some((ts, oldest_key)) => {
                let victim = oldest_key.clone();
                let ghost i0 = choose|i: int| 0 <= i < s0.len() && #[trigger] s0[i].1.1 == ts;
                proof {
                    assert(self.order@.contains_key(ts));
                    assert(0 <= i0 < s0.len() && s0[i0].1.1 == ts);
                    assert(victim@ == s0[i0].0@);
                    assert(store_view(s0)[i0].0 == victim@);
                    assert(e0[s0[i0].0@] == (s0[i0].1.0@, s0[i0].1.1));
                    assert forall|j: Seq<char>| #[trigger] e0.contains_key(j) implies e0[victim@].1
                        <= e0[j].1 by {
                        let sv = store_view(s0);
                        let a = choose|a: int| 0 <= a < sv.len() && sv[a].0 == j;
                        assert(sv[a] == (s0[a].0@, (s0[a].1.0@, s0[a].1.1)));
                        assert(self.order@.contains_key(s0[a].1.1));
                    }
                    lemma_victim_unique(e0, victim@);
                }
                let found = self.find(victim.as_str());
                let _ = self.order.remove(&ts);
                match found {
                    Some(j) => {
                        let ghost sv = store_view(s0);
                        proof {
                            assert(sv[j as int].0 == victim@);
                            assert(sv[i0].0 == victim@);
                            assert(j as int == i0);
                        }
                        let _ = self.store.remove(j);
                        proof {
                            lemma_assoc_remove(sv, j as int);
                            assert(store_view(self.store@) =~= sv.remove(j as int));
                            assert forall|t: u64| #[trigger] self.order@.contains_key(t) implies exists|
                                k: int,
                            | 0 <= k < self.store@.len() && #[trigger] self.store@[k].1.1 == t by {
                                let k = choose|k: int| 0 <= k < s0.len() && #[trigger] s0[k].1.1 == t;
                                assert(k != j);
                                if k < j {
                                    assert(self.store@[k] == s0[k]);
                                } else {
                                    assert(self.store@[k - 1] == s0[k]);
                                }
                            }
                            assert forall|a: int|
                                0 <= a < self.store@.len() implies self.order@.contains_key(
                                #[trigger] self.store@[a].1.1,
                            ) && self.order@[self.store@[a].1.1]@ == self.store@[a].0@ by {
                                let a0 = if a < j { a } else { a + 1 };
                                assert(self.store@[a] == s0[a0]);
                                assert(s0[a0].1.1 != s0[j as int].1.1);
                            }
                            assert forall|a: int, b: int|
                                0 <= a < self.store@.len() && 0 <= b < self.store@.len() && a != b
                                    implies #[trigger] self.store@[a].1.1
                                != #[trigger] self.store@[b].1.1 by {
                                let a0 = if a < j { a } else { a + 1 };
                                let b0 = if b < j { b } else { b + 1 };
                                assert(self.store@[a] == s0[a0]);
                                assert(self.store@[b] == s0[b0]);
                            }
                            assert forall|a: int| 0 <= a < self.store@.len() implies #[trigger] self.store@[a].1.1 <= self.counter by {
                                let a0 = if a < j { a } else { a + 1 };
                                assert(self.store@[a] == s0[a0]);
                            }
                        }
                    },
                    None => {
                        proof {
                            assert(has_key(store_view(s0), victim@)) by {
                                assert(store_view(s0)[i0].0 == victim@);
                            }
                        }
                    },
                }
            },
            None => {
                proof {
                    assert(s0.len() > 0);
                    assert(self.order@.contains_key(s0[0].1.1));
                }
            },
        }
    }

    /// Whether another access can still be stamped (the stamp counter is not
    /// exhausted).
    pub fn can_stamp(&self) -> (r: bool)
        ensures
            r == (self@.counter < u64::MAX),
    {
        self.counter < u64::MAX
    }

    /// The number of keys held.
    pub fn len(&self) -> (r: usize)
        requires
            self.wf(),
        ensures
            r == self@.entries.len(),
    {
        proof {
            self.lemma_view_facts();
        }
        self.store.len()
    }

    /// Whether no key is held.
    pub fn is_empty(&self) -> (r: bool)
        requires
            self.wf(),
        ensures
            r == (self@.entries.len() == 0),
    {
        proof {
            self.lemma_view_facts();
        }
        self.store.len() == 0
    }
}

/// The lock's admission rule: a well-formed cache of the capacity given at
/// construction.
pub struct LruInvariant {
    pub capacity: usize,
}

impl RwLockPredicate<LruCache> for LruInvariant {
    closed spec fn inv(self, v: LruCache) -> bool {
        &&& v.wf()
        &&& v@.capacity == self.capacity
    }
}

/// A thread-safe handle on a shared [`LruCache`]; clones share the cache and
/// each operation holds the lock for its whole duration.
#[derive(Clone)]
pub struct ThreadSafeLruCache {
    inner: Arc<RwLock<LruCache, LruInvariant>>,
}

impl ThreadSafeLruCache {
    /// The capacity given at construction.
    pub closed spec fn capacity(&self) -> nat {
        self.inner.pred().capacity as nat
    }

    /// A handle on a new, empty cache of `capacity` keys; the capacity must be
    /// positive.
    pub fn new(capacity: usize) -> (r: Self)
        requires
            capacity > 0,
        ensures
            r.capacity() == capacity,
    {
        let cache = LruCache::new(capacity);
        ThreadSafeLruCache { inner: Arc::new(RwLock::new(cache, Ghost(LruInvariant { capacity }))) }
    }

    /// The value of `key`, marking it most recently used: what
    /// [`LruCache::get`] answers on the cache as this call found it.  Once
    /// the stamp counter is exhausted the cache is left as it is and the
    /// answer is `None`.
    pub fn get(&self, key: &str) -> (r: Option<String>)
        ensures
            exists|v: LruView|
                #[trigger] lru_wf(v) && v.capacity == self.capacity() && if v.counter < u64::MAX {
                    opt_string_view(r) == get_spec(v, key@).1
                } else {
                    r is None
                },
    {
        let (mut cache, handle) = self.inner.acquire_write();
        let ghost before = cache@;
        proof {
            cache.lemma_view_facts();
        }
        let r = if cache.can_stamp() {
            cache.get(key)
        } else {
            None
        };
        proof {
            assert(lru_wf(before) && before.capacity == self.capacity());
            assert(if before.counter < u64::MAX {
                opt_string_view(r) == get_spec(before, key@).1
            } else {
                r is None
            });
        }
        handle.release_write(cache);
        r
    }

    /// Store `value` under `key`, as [`LruCache::put`] does on the cache as
    /// this call finds it.  Once the stamp counter is exhausted the cache is
    /// left as it is.
    pub fn put(&self, key: String, value: String) {
        let (mut cache, handle) = self.inner.acquire_write();
        if cache.can_stamp() {
            cache.put(key, value);
        }
        handle.release_write(cache);
    }

    /// The number of keys held; never more than the capacity.
    pub fn len(&self) -> (r: usize)
        ensures
            r <= self.capacity(),
    {
        let handle = self.inner.acquire_read();
        let cache = handle.borrow();
        proof {
            cache.lemma_view_facts();
        }
        let r = cache.len();
        handle.release_read();
        r
    }
}

/// A nonempty cache has a least recently used key.
pub proof fn lemma_victim_exists(e: Map<Seq<char>, (Seq<char>, u64)>)
    requires
        e.dom().finite(),
        e.len() > 0,
    ensures
        is_lru(e, lru_victim(e)),
    decreases e.len(),
{
    let a = e.dom().choose();
    assert(e.contains_key(a));
    let rest = e.remove(a);
    if rest.len() == 0 {
        assert forall|j: Seq<char>| #[trigger] e.contains_key(j) implies e[a].1 <= e[j].1 by {
            if j != a {
                assert(rest.contains_key(j));
            }
        }
        assert(is_lru(e, a));
    } else {
        lemma_victim_exists(rest);
        let b = lru_victim(rest);
        if e[a].1 <= e[b].1 {
            assert forall|j: Seq<char>| #[trigger] e.contains_key(j) implies e[a].1 <= e[j].1 by {
                if j != a {
                    assert(rest.contains_key(j));
                }
            }
            assert(is_lru(e, a));
        } else {
            assert forall|j: Seq<char>| #[trigger] e.contains_key(j) implies e[b].1 <= e[j].1 by {
                if j != a {
                    assert(rest.contains_key(j));
                }
            }
            assert(is_lru(e, b));
        }
    }
}

/// Every put and every get on a well-formed cache leaves it well formed: in
/// particular the cache never holds more keys than its capacity.
pub proof fn law_capacity_respected(v: LruView, k: Seq<char>, x: Seq<char>)
    requires
        lru_wf(v),
        v.counter < u64::MAX,
    ensures
        lru_wf(put_spec(v, k, x)),
        lru_wf(get_spec(v, k).0),
{
    let e = v.entries;
    let t = (v.counter + 1) as u64;
    if !e.contains_key(k) && e.len() == v.capacity {
        lemma_victim_exists(e);
        let w = lru_victim(e);
        assert(e.remove(w).len() == e.len() - 1);
    }
    let n = put_spec(v, k, x).entries;
    assert forall|a: Seq<char>, b: Seq<char>|
        #[trigger] n.contains_key(a) && #[trigger] n.contains_key(b) && a != b implies n[a].1
        != n[b].1 by {
        if a != k && b != k {
            assert(e.contains_key(a) && e.contains_key(b));
        } else if a != k {
            assert(e.contains_key(a));
        } else {
            assert(e.contains_key(b));
        }
    }
    assert forall|a: Seq<char>| #[trigger] n.contains_key(a) implies n[a].1 <= t by {
        if a != k {
            assert(e.contains_key(a));
        }
    }
    let g = get_spec(v, k).0.entries;
    assert forall|a: Seq<char>, b: Seq<char>|
        #[trigger] g.contains_key(a) && #[trigger] g.contains_key(b) && a != b implies g[a].1
        != g[b].1 by {
        if a != k && b != k {
        } else if a != k {
            assert(e.contains_key(a));
        } else {
            assert(e.contains_key(b));
        }
    }
}

/// A get right after a put of the same key returns the value put.
pub proof fn law_get_after_put(v: LruView, k: Seq<char>, x: Seq<char>)
    ensures
        get_spec(put_spec(v, k, x), k).1 == Some(x),
{
}

/// A put stores its value under its key, and evicts only to make room for a
/// new key: putting a key already held keeps every other key with its value
/// and stamp, and so does putting a new key while there is room, which only
/// adds the key.
pub proof fn law_put_evicts_only_for_new_key(v: LruView, k: Seq<char>, x: Seq<char>)
    ensures
        put_spec(v, k, x).entries.contains_key(k),
        put_spec(v, k, x).entries[k].0 == x,
        v.entries.contains_key(k) ==> put_spec(v, k, x).entries.dom() == v.entries.dom(),
        !v.entries.contains_key(k) && v.entries.len() < v.capacity ==> put_spec(v, k, x).entries.dom()
            == v.entries.dom().insert(k),
        v.entries.contains_key(k) || v.entries.len() < v.capacity ==> forall|j: Seq<char>|
            #[trigger] v.entries.contains_key(j) && j != k ==> put_spec(v, k, x).entries[j]
                == v.entries[j],
{
    let e = v.entries;
    let t = (v.counter + 1) as u64;
    if e.contains_key(k) {
        assert(e.insert(k, (x, t)).dom() =~= e.dom());
    } else if e.len() < v.capacity {
        assert(e.insert(k, (x, t)).dom() =~= e.dom().insert(k));
    }
}

/// The key just put or read is the most recently used: its stamp is larger
/// than every other key's, so it is the last candidate for eviction.
pub proof fn law_access_is_most_recent(v: LruView, k: Seq<char>, x: Seq<char>)
    requires
        lru_wf(v),
        v.counter < u64::MAX,
    ensures
        forall|j: Seq<char>| #[trigger]
            put_spec(v, k, x).entries.contains_key(j) && j != k ==> put_spec(v, k, x).entries[j].1
                < put_spec(v, k, x).entries[k].1,
        v.entries.contains_key(k) ==> forall|j: Seq<char>| #[trigger]
            get_spec(v, k).0.entries.contains_key(j) && j != k ==> get_spec(v, k).0.entries[j].1
                < get_spec(v, k).0.entries[k].1,
{
    let e = v.entries;
    assert forall|j: Seq<char>| #[trigger]
        put_spec(v, k, x).entries.contains_key(j) && j != k implies put_spec(v, k, x).entries[j].1
        < put_spec(v, k, x).entries[k].1 by {
        assert(e.contains_key(j));
    }
}

/// Putting a new key into a full cache evicts exactly one key, the least
/// recently used one, and leaves every other key with its value and stamp.
pub proof fn law_eviction_removes_lru(v: LruView, k: Seq<char>, x: Seq<char>)
    requires
        lru_wf(v),
        !v.entries.contains_key(k),
        v.entries.len() == v.capacity,
    ensures
        is_lru(v.entries, lru_victim(v.entries)),
        !put_spec(v, k, x).entries.contains_key(lru_victim(v.entries)),
        put_spec(v, k, x).entries.dom() == v.entries.dom().remove(lru_victim(v.entries)).insert(k),
        forall|j: Seq<char>|
            #[trigger] v.entries.contains_key(j) && j != lru_victim(v.entries) ==> put_spec(
                v,
                k,
                x,
            ).entries[j] == v.entries[j],
        forall|j: Seq<char>| is_lru(v.entries, j) ==> j == lru_victim(v.entries),
{
    lemma_victim_exists(v.entries);
    let w = lru_victim(v.entries);
    assert(put_spec(v, k, x).entries.dom() =~= v.entries.dom().remove(w).insert(k));
    assert forall|j: Seq<char>| is_lru(v.entries, j) implies j == w by {
        lemma_victim_unique(v.entries, j);
    }
}

} // verus!
