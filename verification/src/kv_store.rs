//! A string key-value store whose values may carry a time-to-live.
//!
//! The store is modelled as a finite map from key text to [`EntryView`].
//! Every operation that reads the clock has a twin ending in `_at` that takes
//! the current time as an argument and whose contract is exact; the clocked
//! version is that twin applied to whatever time the clock gave.
use vstd::prelude::*;
use crate::assoc::{assoc_map, has_key, keys_unique, lemma_assoc_dom, lemma_assoc_facts, lemma_assoc_len, lemma_assoc_push, lemma_assoc_remove, lemma_assoc_update};
use crate::clock::now_secs;
use crate::text::str_eq;

verus! {

/// A stored value: its text, and for a value with a time-to-live the last
/// second (since the Unix epoch) at which it is still alive.
pub struct EntryView {
    pub value: Seq<char>,
    pub expires_at: Option<u64>,
}

/// An entry is expired at `now` when it has an expiry and `now` is past it.
pub open spec fn is_expired_at(e: EntryView, now: u64) -> bool {
    match e.expires_at {
        Some(t) => now > t,
        None => false,
    }
}

/// The expiry of a value set at `now` with time-to-live `ttl`.
pub open spec fn expiry_for(ttl: Option<u64>, now: u64) -> Option<u64> {
    match ttl {
        Some(t) => Some((now + t) as u64),
        None => None,
    }
}

/// The expiry of a value set at `now` with time-to-live `ttl`, held at the
/// largest representable second when the sum would pass it.
pub open spec fn clamped_expiry(ttl: Option<u64>, now: u64) -> Option<u64> {
    match ttl {
        Some(t) => Some(if now + t <= u64::MAX { (now + t) as u64 } else { u64::MAX }),
        None => None,
    }
}

/// What `get` answers at `now`: the value of a present, unexpired key.
pub open spec fn lookup(m: Map<Seq<char>, EntryView>, k: Seq<char>, now: u64) -> Option<Seq<char>> {
    if m.contains_key(k) && !is_expired_at(m[k], now) {
        Some(m[k].value)
    } else {
        None
    }
}

/// The keys whose entries are alive at `now`.
pub open spec fn live_keys(m: Map<Seq<char>, EntryView>, now: u64) -> Set<Seq<char>> {
    m.dom().filter(|k: Seq<char>| !is_expired_at(m[k], now))
}

/// The store after dropping every entry expired at `now`.
pub open spec fn purged(m: Map<Seq<char>, EntryView>, now: u64) -> Map<Seq<char>, EntryView> {
    m.restrict(live_keys(m, now))
}

/// The text of an optional borrowed string.
pub open spec fn opt_str_view(r: Option<&str>) -> Option<Seq<char>> {
    match r {
        Some(s) => Some(s@),
        None => None,
    }
}

pub(crate) enum StoreEntry {
    WithTTL { value: String, expires_at: u64 },
    Permanent { value: String },
}

impl View for StoreEntry {
    type V = EntryView;

    closed spec fn view(&self) -> EntryView {
        match self {
            StoreEntry::WithTTL { value, expires_at } => EntryView {
                value: value@,
                expires_at: Some(*expires_at),
            },
            StoreEntry::Permanent { value } => EntryView { value: value@, expires_at: None },
        }
    }
}

impl StoreEntry {
    /// Whether this entry has expired at `now`.
    pub(crate) fn is_expired(&self, now: u64) -> (r: bool)
        ensures
            r == is_expired_at(self@, now),
    {
        match self {
            StoreEntry::WithTTL { expires_at, .. } => now > *expires_at,
            StoreEntry::Permanent { .. } => false,
        }
    }

    /// The stored text.
    pub(crate) fn value(&self) -> (r: &str)
        ensures
            r@ == self@.value,
    {
        match self {
            StoreEntry::WithTTL { value, .. } => value.as_str(),
            StoreEntry::Permanent { value } => value.as_str(),
        }
    }

    /// The entry for `value` set at `now` with time-to-live `ttl`.
    pub(crate) fn make(value: String, ttl: Option<u64>, now: u64) -> (r: StoreEntry)
        requires
            ttl is Some ==> now + ttl->0 <= u64::MAX,
        ensures
            r@ == (EntryView { value: value@, expires_at: expiry_for(ttl, now) }),
    {
        match ttl {
            Some(t) => StoreEntry::WithTTL { value, expires_at: now + t },
            None => StoreEntry::Permanent { value },
        }
    }
}

/// The view of the pairs stored in a store.
pub(crate) open spec fn pairs_view(s: Seq<(String, StoreEntry)>) -> Seq<(Seq<char>, EntryView)> {
    s.map_values(|p: (String, StoreEntry)| (p.0@, p.1@))
}

/// The number of pairs of `s` alive at `now`.
pub open spec fn count_live(s: Seq<(Seq<char>, EntryView)>, now: u64) -> nat
    decreases s.len(),
{
    if s.len() == 0 {
        0
    } else {
        count_live(s.drop_last(), now) + if is_expired_at(s.last().1, now) {
            0nat
        } else {
            1nat
        }
    }
}

/// Counting live pairs counts the live keys of the map they stand for.
pub proof fn lemma_count_live(s: Seq<(Seq<char>, EntryView)>, now: u64)
    requires
        keys_unique(s),
    ensures
        live_keys(assoc_map(s), now).finite(),
        count_live(s, now) == live_keys(assoc_map(s), now).len(),
    decreases s.len(),
{
    lemma_assoc_dom(s);
    if s.len() == 0 {
        assert(live_keys(assoc_map(s), now) =~= Set::empty());
    } else {
        let t = s.drop_last();
        let (k, e) = s.last();
        assert(keys_unique(t));
        lemma_count_live(t, now);
        lemma_assoc_dom(t);
        if has_key(t, k) {
            let i = choose|i: int| 0 <= i < t.len() && t[i].0 == k;
            assert(s[i].0 == s[s.len() - 1].0);
        }
        let m = assoc_map(s);
        let mt = assoc_map(t);
        assert(!mt.contains_key(k));
        assert(live_keys(mt, now).finite());
        if is_expired_at(e, now) {
            assert(live_keys(m, now) =~= live_keys(mt, now));
        } else {
            assert(live_keys(m, now) =~= live_keys(mt, now).insert(k));
            assert(!live_keys(mt, now).contains(k));
            assert(live_keys(mt, now).insert(k).len() == live_keys(mt, now).len() + 1);
        }
    }
}

/// A key-value store with optional per-entry time-to-live.
pub struct KvStore {
    data: Vec<(String, StoreEntry)>,
}

impl View for KvStore {
    type V = Map<Seq<char>, EntryView>;

    closed spec fn view(&self) -> Map<Seq<char>, EntryView> {
        assoc_map(pairs_view(self.data@))
    }
}

impl KvStore {
    /// The store's internal consistency: no key is stored twice.
    pub closed spec fn wf(&self) -> bool {
        keys_unique(pairs_view(self.data@))
    }

    /// A well-formed store holds finitely many keys.
    pub proof fn lemma_wf_finite(&self)
        requires
            self.wf(),
        ensures
            self@.dom().finite(),
    {
        self.lemma_view_facts();
    }

    proof fn lemma_view_facts(&self)
        requires
            self.wf(),
        ensures
            self@.dom().finite(),
            self@.len() == self.data@.len(),
            forall|k: Seq<char>| #[trigger]
                self@.contains_key(k) <==> has_key(pairs_view(self.data@), k),
            forall|i: int|
                0 <= i < self.data@.len() ==> #[trigger] self@[self.data@[i].0@]
                    == self.data@[i].1@,
    {
        let s = pairs_view(self.data@);
        lemma_assoc_facts(s);
        lemma_assoc_len(s);
        assert forall|i: int| 0 <= i < self.data@.len() implies #[trigger] self@[self.data@[i].0@]
            == self.data@[i].1@ by {
            assert(s[i] == (self.data@[i].0@, self.data@[i].1@));
        }
    }

    /// An empty store.
    pub fn new() -> (r: Self)
        ensures
            r.wf(),
            r@ == Map::<Seq<char>, EntryView>::empty(),
    {
        let r = KvStore { data: Vec::new() };
        assert(pairs_view(r.data@) =~= Seq::empty());
        r
    }

    /// The position of `key` among the stored pairs, if it is stored.
    fn find(&self, key: &str) -> (r: Option<usize>)
        requires
            self.wf(),
        ensures
            match r {
                Some(i) => i < self.data@.len() && self.data@[i as int].0@ == key@,
                None => !self@.contains_key(key@),
            },
    {
        proof {
            self.lemma_view_facts();
        }
        let mut i: usize = 0;
        while i < self.data.len()
            invariant
                i <= self.data@.len(),
                forall|j: int| 0 <= j < i ==> self.data@[j].0@ != key@,
            decreases self.data@.len() - i,
        {
            if str_eq(self.data[i].0.as_str(), key) {
                return Some(i);
            }
            i = i + 1;
        }
        proof {
            let s = pairs_view(self.data@);
            if has_key(s, key@) {
                let j = choose|j: int| 0 <= j < s.len() && s[j].0 == key@;
                assert(s[j].0 == self.data@[j].0@);
            }
        }
        None
    }

    /// Store `value` under `key` as of time `now`; with `Some(ttl)` the value
    /// stays alive through second `now + ttl`.  An existing value is replaced.
    pub fn set_at(&mut self, key: String, value: String, ttl_secs: Option<u64>, now: u64)
        requires
            old(self).wf(),
            ttl_secs is Some ==> now + ttl_secs->0 <= u64::MAX,
        ensures
            final(self).wf(),
            final(self)@ == old(self)@.insert(
                key@,
                EntryView { value: value@, expires_at: expiry_for(ttl_secs, now) },
            ),
    {
        let ghost k = key@;
        let entry = StoreEntry::make(value, ttl_secs, now);
        let ghost ev = entry@;
        let found = self.find(key.as_str());
        match found {
            Some(i) => {
                let ghost s = pairs_view(self.data@);
                self.data.set(i, (key, entry));
                proof {
                    lemma_assoc_update(s, i as int, ev);
                    assert(pairs_view(self.data@) =~= s.update(i as int, (s[i as int].0, ev)));
                }
            },
            None => {
                let ghost s = pairs_view(self.data@);
                proof {
                    lemma_assoc_dom(s);
                }
                self.data.push((key, entry));
                proof {
                    lemma_assoc_push(s, k, ev);
                    assert(pairs_view(self.data@) =~= s.push((k, ev)));
                }
            },
        }
    }

    /// Store `value` under `key`, timed by the wall clock.  A time-to-live that
    /// would carry the expiry past the largest representable second is cut
    /// short so that the expiry is that second.
    pub fn set(&mut self, key: String, value: String, ttl_secs: Option<u64>)
        requires
            old(self).wf(),
        ensures
            final(self).wf(),
            exists|now: u64|
                final(self)@ == old(self)@.insert(
                    key@,
                    EntryView { value: value@, expires_at: #[trigger] clamped_expiry(ttl_secs, now) },
                ),
    {
        let now = now_secs();
        let ttl = match ttl_secs {
            Some(t) => Some(
                if t <= u64::MAX - now {
                    t
                } else {
                    u64::MAX - now
                },
            ),
            None => None,
        };
        assert(clamped_expiry(ttl_secs, now) == expiry_for(ttl, now));
        self.set_at(key, value, ttl, now);
    }

    /// The value of `key` at time `now`: `None` when the key is missing or
    /// its entry has expired.
    pub fn get_at(&self, key: &str, now: u64) -> (r: Option<&str>)
        requires
            self.wf(),
        ensures
            opt_str_view(r) == lookup(self@, key@, now),
    {
        proof {
            self.lemma_view_facts();
        }
        match self.find(key) {
            Some(i) => {
                let entry = &self.data[i].1;
                assert(pairs_view(self.data@)[i as int].0 == key@);
                assert(self@[self.data@[i as int].0@] == self.data@[i as int].1@);
                if entry.is_expired(now) {
                    None
                } else {
                    Some(entry.value())
                }
            },
            None => None,
        }
    }

    /// The value of `key` now, by the wall clock.
    pub fn get(&self, key: &str) -> (r: Option<&str>)
        requires
            self.wf(),
        ensures
            exists|now: u64| opt_str_view(r) == lookup(self@, key@, now),
    {
        let now = now_secs();
        self.get_at(key, now)
    }

    /// Whether `key` is present and unexpired now, by the wall clock.
    pub fn contains_key(&self, key: &str) -> (r: bool)
        requires
            self.wf(),
        ensures
            exists|now: u64| r == (lookup(self@, key@, now) is Some),
    {
        self.get(key).is_some()
    }

    /// Remove `key`, expired or not; true when it was stored.
    pub fn delete(&mut self, key: &str) -> (r: bool)
        requires
            old(self).wf(),
        ensures
            final(self).wf(),
            r == old(self)@.contains_key(key@),
            final(self)@ == old(self)@.remove(key@),
    {
        proof {
            self.lemma_view_facts();
        }
        match self.find(key) {
            Some(i) => {
                let ghost s = pairs_view(self.data@);
                proof {
                    assert(s[i as int].0 == key@);
                }
                let _removed = self.data.remove(i);
                proof {
                    lemma_assoc_remove(s, i as int);
                    assert(pairs_view(self.data@) =~= s.remove(i as int));
                }
                true
            },
            None => {
                proof {
                    assert(old(self)@.remove(key@) =~= old(self)@);
                }
                false
            },
        }
    }

    /// Drop every entry expired at `now`; returns how many were dropped.
    pub fn purge_expired_at(&mut self, now: u64) -> (r: usize)
        requires
            old(self).wf(),
        ensures
            final(self).wf(),
            final(self)@ == purged(old(self)@, now),
            r == old(self)@.len() - final(self)@.len(),
    {
        proof {
            self.lemma_view_facts();
        }
        let ghost m0 = self@;
        let n0: usize = self.data.len();
        let mut count: usize = 0;
        let mut i: usize = 0;
        while i < self.data.len()
            invariant
                self.wf(),
                i <= self.data@.len(),
                count + self.data@.len() == n0,
                m0.dom().finite(),
                m0.len() == n0,
                forall|j: int| 0 <= j < i ==> !is_expired_at(#[trigger] self.data@[j].1@, now),
                forall|k: Seq<char>| #[trigger]
                    self@.contains_key(k) ==> m0.contains_key(k) && self@[k] == m0[k],
                forall|k: Seq<char>|
                    #[trigger] m0.contains_key(k) && !is_expired_at(m0[k], now)
                        ==> self@.contains_key(k),
            decreases self.data@.len() - i,
        {
            if self.data[i].1.is_expired(now) {
                let ghost s = pairs_view(self.data@);
                let ghost before = self@;
                proof {
                    self.lemma_view_facts();
                    assert(s[i as int] == (self.data@[i as int].0@, self.data@[i as int].1@));
                }
                let _gone = self.data.remove(i);
                proof {
                    lemma_assoc_remove(s, i as int);
                    assert(pairs_view(self.data@) =~= s.remove(i as int));
                    assert(before[s[i as int].0] == s[i as int].1);
                }
                count = count + 1;
            } else {
                i = i + 1;
            }
        }
        proof {
            self.lemma_view_facts();
            let target = purged(m0, now);
            assert forall|k: Seq<char>| #[trigger] self@.contains_key(k) implies target.contains_key(
                k,
            ) by {
                let s = pairs_view(self.data@);
                let j = choose|j: int| 0 <= j < s.len() && s[j].0 == k;
                assert(s[j] == (self.data@[j].0@, self.data@[j].1@));
                assert(self@[self.data@[j].0@] == self.data@[j].1@);
                assert(!is_expired_at(self.data@[j].1@, now));
            }
            assert(self@ =~= target);
        }
        count
    }

    /// Drop every entry expired now, by the wall clock; returns how many.
    pub fn purge_expired(&mut self) -> (r: usize)
        requires
            old(self).wf(),
        ensures
            final(self).wf(),
            exists|now: u64| final(self)@ == purged(old(self)@, now),
            r == old(self)@.len() - final(self)@.len(),
    {
        let now = now_secs();
        self.purge_expired_at(now)
    }

    /// The number of stored keys, expired ones included.
    pub fn len(&self) -> (r: usize)
        requires
            self.wf(),
        ensures
            self@.dom().finite(),
            r == self@.len(),
    {
        proof {
            self.lemma_view_facts();
        }
        self.data.len()
    }

    /// The number of keys alive at `now`.
    pub fn active_len_at(&self, now: u64) -> (r: usize)
        requires
            self.wf(),
        ensures
            r == live_keys(self@, now).len(),
    {
        let ghost s = pairs_view(self.data@);
        let mut count: usize = 0;
        let mut i: usize = 0;
        while i < self.data.len()
            invariant
                i <= self.data@.len(),
                s == pairs_view(self.data@),
                count == count_live(s.take(i as int), now),
                count <= i,
            decreases self.data@.len() - i,
        {
            proof {
                assert(s.take(i + 1).drop_last() =~= s.take(i as int));
                assert(s.take(i + 1).last() == s[i as int]);
            }
            if !self.data[i].1.is_expired(now) {
                count = count + 1;
            }
            i = i + 1;
        }
        proof {
            assert(s.take(i as int) =~= s);
            lemma_count_live(s, now);
        }
        count
    }

    /// The number of keys alive now, by the wall clock.
    pub fn active_len(&self) -> (r: usize)
        requires
            self.wf(),
        ensures
            exists|now: u64| r == live_keys(self@, now).len(),
    {
        let now = now_secs();
        self.active_len_at(now)
    }
}

/// A value stored without a time-to-live is read back at every later time; a
/// value stored at `now` with time-to-live `t` is read back exactly through
/// second `now + t`, and not after.
pub proof fn law_get_after_set(
    m: Map<Seq<char>, EntryView>,
    k: Seq<char>,
    v: Seq<char>,
    ttl: Option<u64>,
    now: u64,
    later: u64,
)
    requires
        ttl is Some ==> now + ttl->0 <= u64::MAX,
    ensures
        lookup(m.insert(k, EntryView { value: v, expires_at: expiry_for(ttl, now) }), k, later)
            == (if ttl is None || later <= now + ttl->0 {
            Some(v)
        } else {
            None
        }),
{
}

/// Setting or deleting one key leaves what every other key reads unchanged.
pub proof fn law_other_keys_untouched(
    m: Map<Seq<char>, EntryView>,
    k: Seq<char>,
    other: Seq<char>,
    e: EntryView,
    now: u64,
)
    requires
        k != other,
    ensures
        lookup(m.insert(k, e), other, now) == lookup(m, other, now),
        lookup(m.remove(k), other, now) == lookup(m, other, now),
{
}

/// After a delete the key reads as missing, whatever the time.
pub proof fn law_get_after_delete(m: Map<Seq<char>, EntryView>, k: Seq<char>, now: u64)
    ensures
        lookup(m.remove(k), k, now) is None,
{
}

/// Purging at `now` changes no answer that `get` gives at `now`, leaves only
/// live entries, and leaves as many keys as `active_len` counted at `now`.
pub proof fn law_purge_preserves_reads(m: Map<Seq<char>, EntryView>, now: u64, k: Seq<char>)
    requires
        m.dom().finite(),
    ensures
        lookup(purged(m, now), k, now) == lookup(m, k, now),
        forall|j: Seq<char>| #[trigger]
            purged(m, now).contains_key(j) ==> !is_expired_at(purged(m, now)[j], now),
        purged(m, now).len() == live_keys(m, now).len(),
{
    assert(purged(m, now).dom() =~= live_keys(m, now));
}

} // verus!
