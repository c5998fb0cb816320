//! A sliding-window rate limiter shared between threads.
//!
//! The limiter state sits behind a lock held for the whole of each decision,
//! so checking the window and recording the request happen as one step for
//! every other thread: no two threads can both see the last free slot.  The
//! decision rule is the one of [`crate::rate_limiter`], stated by
//! [`check_step`].
use vstd::prelude::*;
use vstd::rwlock::{RwLock, RwLockPredicate};
use std::sync::Arc;
use crate::clock::now_secs;
use crate::rate_limiter::{check_step, evict, lemma_evict_suffix, limiter_wf, live_stamps, window_start, LimiterView};

verus! {

/// One operation on a shared limiter, with the second at which it ran.
pub enum LimiterEvent {
    /// A request decided at that second.
    Check(u64),
    /// A count of the window ending at that second (which forgets the
    /// requests that left it).
    Count(u64),
    /// A reset.
    Clear,
}

/// The limiter after `ev`.
pub open spec fn apply_event(v: LimiterView, ev: LimiterEvent) -> LimiterView {
    match ev {
        LimiterEvent::Check(now) => check_step(v, now).0,
        LimiterEvent::Count(now) => LimiterView { stamps: live_stamps(v, now), ..v },
        LimiterEvent::Clear => LimiterView { stamps: Seq::empty(), ..v },
    }
}

/// The limiter that starts as `v` after the operations `h`, in order.
pub open spec fn replay(v: LimiterView, h: Seq<LimiterEvent>) -> LimiterView
    decreases h.len(),
{
    if h.len() == 0 {
        v
    } else {
        apply_event(replay(v, h.drop_last()), h.last())
    }
}

/// The fresh limiter of a configuration.
pub open spec fn fresh(capacity: u32, window_secs: u64) -> LimiterView {
    LimiterView { capacity, window_secs, stamps: Seq::empty() }
}

/// Replaying one more operation applies it to the replayed limiter.
proof fn lemma_replay_push(v: LimiterView, h: Seq<LimiterEvent>, ev: LimiterEvent)
    ensures
        replay(v, h.push(ev)) == apply_event(replay(v, h), ev),
{
    assert(h.push(ev).drop_last() =~= h);
}

/// A refused request records nothing: the limiter only forgets the requests
/// that left the window, and counts as many as it did; a request let through
/// adds exactly its own second.
pub proof fn law_refusal_records_nothing(v: LimiterView, now: u64)
    ensures
        !check_step(v, now).1 ==> check_step(v, now).0.stamps == live_stamps(v, now),
        !check_step(v, now).1 ==> check_step(v, now).0.stamps.len() >= v.capacity,
        check_step(v, now).1 ==> check_step(v, now).0.stamps == live_stamps(v, now).push(now),
        check_step(v, now).0.capacity == v.capacity && check_step(v, now).0.window_secs == v.window_secs,
{
}

struct RateLimiterInner {
    capacity: u32,
    window_secs: u64,
    timestamps: std::collections::VecDeque<u64>,
    history: Ghost<Seq<LimiterEvent>>,
}

impl View for RateLimiterInner {
    type V = LimiterView;

    closed spec fn view(&self) -> LimiterView {
        LimiterView {
            capacity: self.capacity,
            window_secs: self.window_secs,
            stamps: self.timestamps@,
        }
    }
}

impl RateLimiterInner {
    fn new(capacity: u32, window_secs: u64) -> (r: Self)
        ensures
            r@ == (LimiterView { capacity, window_secs, stamps: Seq::empty() }),
            r.history@ == Seq::<LimiterEvent>::empty(),
    {
        RateLimiterInner {
            capacity,
            window_secs,
            timestamps: std::collections::VecDeque::with_capacity(capacity as usize),
            history: Ghost(Seq::empty()),
        }
    }

    fn evict_expired(&mut self, now: u64)
        requires
            limiter_wf(old(self)@),
        ensures
            final(self)@ == (LimiterView { stamps: live_stamps(old(self)@, now), ..old(self)@ }),
            limiter_wf(final(self)@),
            final(self).history == old(self).history,
    {
        let start = now.saturating_sub(self.window_secs);
        proof {
            lemma_evict_suffix(self.timestamps@, start);
        }
        while self.timestamps.len() > 0 && self.timestamps[0] <= start
            invariant
                evict(self.timestamps@, start) == live_stamps(old(self)@, now),
                self.capacity == old(self).capacity,
                self.window_secs == old(self).window_secs,
                self.history == old(self).history,
                start == window_start(now, self.window_secs),
                self.timestamps@.len() <= old(self).timestamps@.len(),
                limiter_wf(old(self)@),
            decreases self.timestamps@.len(),
        {
            let ghost before = self.timestamps@;
            let _ = self.timestamps.pop_front();
            proof {
                assert(self.timestamps@ =~= before.drop_first());
            }
        }
    }

    /// Decide a request made at `now`; true when let through.
    fn check_at(&mut self, now: u64) -> (r: bool)
        requires
            limiter_wf(old(self)@),
        ensures
            limiter_wf(final(self)@),
            (final(self)@, r) == check_step(old(self)@, now),
            final(self).history@ == old(self).history@.push(LimiterEvent::Check(now)),
    {
        self.evict_expired(now);
        self.history = Ghost(self.history@.push(LimiterEvent::Check(now)));
        if self.timestamps.len() as u32 >= self.capacity {
            return false;
        }
        self.timestamps.push_back(now);
        true
    }

    /// Decide a request made now, by the wall clock; true when let through.
    fn check(&mut self) -> (r: bool)
        requires
            limiter_wf(old(self)@),
        ensures
            limiter_wf(final(self)@),
            exists|now: u64|
                (final(self)@, r) == #[trigger] check_step(old(self)@, now)
                    && final(self).history@ == old(self).history@.push(LimiterEvent::Check(now)),
    {
        let now = now_secs();
        self.check_at(now)
    }

    /// How many more requests the window lets through at `now`.
    fn remaining_at(&mut self, now: u64) -> (r: u32)
        requires
            limiter_wf(old(self)@),
        ensures
            limiter_wf(final(self)@),
            final(self)@ == (LimiterView { stamps: live_stamps(old(self)@, now), ..old(self)@ }),
            r == old(self)@.capacity - live_stamps(old(self)@, now).len(),
            final(self).history@ == old(self).history@.push(LimiterEvent::Count(now)),
    {
        self.evict_expired(now);
        self.history = Ghost(self.history@.push(LimiterEvent::Count(now)));
        self.capacity.saturating_sub(self.timestamps.len() as u32)
    }

    /// How many more requests the window lets through now.
    fn remaining(&mut self) -> (r: u32)
        requires
            limiter_wf(old(self)@),
        ensures
            limiter_wf(final(self)@),
            exists|now: u64|
                final(self)@ == (LimiterView {
                    stamps: #[trigger] live_stamps(old(self)@, now),
                    ..old(self)@
                }) && r == old(self)@.capacity - live_stamps(old(self)@, now).len()
                    && final(self).history@ == old(self).history@.push(LimiterEvent::Count(now)),
    {
        let now = now_secs();
        self.remaining_at(now)
    }
}

/// The lock's admission rule: a well-formed limiter with the configuration
/// given at construction.
pub struct LimiterInvariant {
    pub capacity: u32,
    pub window_secs: u64,
}

impl RwLockPredicate<RateLimiterInner> for LimiterInvariant {
    closed spec fn inv(self, v: RateLimiterInner) -> bool {
        &&& limiter_wf(v@)
        &&& v@.capacity == self.capacity
        &&& v@.window_secs == self.window_secs
        &&& v@ == replay(fresh(self.capacity, self.window_secs), v.history@)
    }
}

/// A thread-safe handle on a shared rate limiter; clones share the limiter.
#[derive(Clone)]
pub struct ConcurrentRateLimiter {
    inner: Arc<RwLock<RateLimiterInner, LimiterInvariant>>,
}

impl ConcurrentRateLimiter {
    /// The configured capacity.
    pub closed spec fn capacity(&self) -> u32 {
        self.inner.pred().capacity
    }

    /// The configured window, in seconds.
    pub closed spec fn window_secs(&self) -> u64 {
        self.inner.pred().window_secs
    }

    /// A limiter letting through at most `capacity` requests in any window
    /// of `window_secs` seconds; both must be positive.
    pub fn new(capacity: u32, window_secs: u64) -> (r: Self)
        requires
            capacity > 0,
            window_secs > 0,
        ensures
            r.capacity() == capacity,
            r.window_secs() == window_secs,
    {
        let inner = RateLimiterInner::new(capacity, window_secs);
        ConcurrentRateLimiter {
            inner: Arc::new(RwLock::new(inner, Ghost(LimiterInvariant { capacity, window_secs }))),
        }
    }

    /// Decide a request and record it when let through, under one hold of
    /// the lock: it goes through exactly when the window, as this call found
    /// it, held fewer than `capacity` requests.
    pub fn allow(&self) -> (r: bool)
        ensures
            exists|v: LimiterView, now: u64|
                limiter_wf(v) && v.capacity == self.capacity() && v.window_secs == self.window_secs()
                    && r == (#[trigger] check_step(
                    v,
                    now,
                )).1,
    {
        let (mut state, handle) = self.inner.acquire_write();
        let ghost v0 = state@;
        let ghost h0 = state.history@;
        let r = state.check();
        proof {
            let now = choose|now: u64|
                (state@, r) == #[trigger] check_step(v0, now) && state.history@ == h0.push(
                    LimiterEvent::Check(now),
                );
            let pr = self.inner.pred();
            lemma_replay_push(fresh(pr.capacity, pr.window_secs), h0, LimiterEvent::Check(now));
        }
        handle.release_write(state);
        r
    }

    /// How many more requests the window lets through now; never more than
    /// the capacity.
    pub fn remaining(&self) -> (r: u32)
        ensures
            r <= self.capacity(),
    {
        let (mut state, handle) = self.inner.acquire_write();
        let ghost v0 = state@;
        let ghost h0 = state.history@;
        let r = state.remaining();
        proof {
            let now = choose|now: u64|
                state@ == (LimiterView { stamps: #[trigger] live_stamps(v0, now), ..v0 }) && r
                    == v0.capacity - live_stamps(v0, now).len() && state.history@ == h0.push(
                    LimiterEvent::Count(now),
                );
            let pr = self.inner.pred();
            lemma_replay_push(fresh(pr.capacity, pr.window_secs), h0, LimiterEvent::Count(now));
        }
        handle.release_write(state);
        r
    }

    /// Forget every recorded request.
    pub fn reset(&self) {
        let (mut state, handle) = self.inner.acquire_write();
        let ghost h0 = state.history@;
        state.timestamps.clear();
        state.history = Ghost(h0.push(LimiterEvent::Clear));
        proof {
            let pr = self.inner.pred();
            lemma_replay_push(fresh(pr.capacity, pr.window_secs), h0, LimiterEvent::Clear);
            assert(state@ == apply_event(replay(fresh(pr.capacity, pr.window_secs), h0), LimiterEvent::Clear));
        }
        handle.release_write(state);
    }
}

} // verus!
