//! A sliding-window rate limiter over Unix timestamps.
//!
//! The limiter remembers the seconds at which it let requests through.
//! Before every decision it forgets those that have left the window
//! `(now - window_secs, now]`; a request is let through when fewer than
//! `capacity` remain.  Every operation that reads the clock has a twin ending
//! in `_at` that takes the time as an argument and has an exact contract.
use vstd::prelude::*;
use crate::clock::now_secs;

verus! {

/// Why the limiter refused a request or a configuration.
#[derive(Debug, PartialEq)]
pub enum RateLimitError {
    /// The window already held `requests` let-through requests.
    LimitExceeded { requests: u32, window_secs: u64 },
    /// The configuration cannot describe a limiter.
    InvalidConfig(String),
}

/// What a limiter is: its configuration and the seconds of the requests it
/// let through, oldest first.
pub struct LimiterView {
    pub capacity: u32,
    pub window_secs: u64,
    pub stamps: Seq<u64>,
}

/// The last second that lies outside the window ending at `now`
/// (`now - window_secs`, floored at zero).
pub open spec fn window_start(now: u64, window_secs: u64) -> u64 {
    if now >= window_secs {
        (now - window_secs) as u64
    } else {
        0
    }
}

/// `stamps` without its leading run of seconds at or before `start`.
pub open spec fn evict(stamps: Seq<u64>, start: u64) -> Seq<u64>
    decreases stamps.len(),
{
    if stamps.len() > 0 && stamps[0] <= start {
        evict(stamps.drop_first(), start)
    } else {
        stamps
    }
}

/// The stamps a limiter still counts at `now`.
pub open spec fn live_stamps(v: LimiterView, now: u64) -> Seq<u64> {
    evict(v.stamps, window_start(now, v.window_secs))
}

/// The limiter after one request at `now`, and whether it was let through.
pub open spec fn check_step(v: LimiterView, now: u64) -> (LimiterView, bool) {
    let live = live_stamps(v, now);
    if live.len() >= v.capacity {
        (LimiterView { stamps: live, ..v }, false)
    } else {
        (LimiterView { stamps: live.push(now), ..v }, true)
    }
}

/// How many of `k` requests made at the same second `now` are let through.
pub open spec fn allowed_in_burst(v: LimiterView, now: u64, k: nat) -> nat
    decreases k,
{
    if k == 0 {
        0
    } else {
        let (next, ok) = check_step(v, now);
        (if ok {
            1nat
        } else {
            0nat
        }) + allowed_in_burst(next, now, (k - 1) as nat)
    }
}

/// A well-formed limiter: positive capacity and window, and never more
/// stamps than the capacity.
pub open spec fn limiter_wf(v: LimiterView) -> bool {
    &&& v.capacity > 0
    &&& v.window_secs > 0
    &&& v.stamps.len() <= v.capacity
}

/// Eviction keeps a suffix of the stamps.
pub proof fn lemma_evict_suffix(stamps: Seq<u64>, start: u64)
    ensures
        evict(stamps, start).len() <= stamps.len(),
        evict(stamps, start) == stamps.subrange(
            stamps.len() - evict(stamps, start).len(),
            stamps.len() as int,
        ),
        evict(stamps, start).len() > 0 ==> evict(stamps, start)[0] > start,
    decreases stamps.len(),
{
    if stamps.len() > 0 && stamps[0] <= start {
        lemma_evict_suffix(stamps.drop_first(), start);
        let e = evict(stamps.drop_first(), start);
        assert(e == stamps.subrange(stamps.len() - e.len(), stamps.len() as int));
    } else {
        assert(stamps == stamps.subrange(0, stamps.len() as int));
    }
}

/// Evicting what is already evicted changes nothing.
pub proof fn lemma_evict_idempotent(stamps: Seq<u64>, start: u64)
    ensures
        evict(evict(stamps, start), start) == evict(stamps, start),
    decreases stamps.len(),
{
    if stamps.len() > 0 && stamps[0] <= start {
        lemma_evict_idempotent(stamps.drop_first(), start);
    }
}

/// Evicting a sequence that starts after `start` changes nothing.
pub proof fn lemma_evict_fresh(stamps: Seq<u64>, start: u64)
    requires
        stamps.len() > 0 ==> stamps[0] > start,
    ensures
        evict(stamps, start) == stamps,
{
}

/// The predicate "after second `start`".
pub open spec fn above(start: u64) -> spec_fn(u64) -> bool {
    |t: u64| t > start
}

/// Stamps in the order of time, none before an earlier one.
pub open spec fn stamps_sorted(s: Seq<u64>) -> bool {
    forall|i: int, j: int| 0 <= i <= j < s.len() ==> s[i] <= s[j]
}

/// Every stamp the limiter holds that lies inside the window ending at `now`.
pub open spec fn in_window(v: LimiterView, now: u64) -> Seq<u64> {
    v.stamps.filter(above(window_start(now, v.window_secs)))
}

/// On stamps in time order, eviction keeps exactly those after `start`.
proof fn lemma_evict_sorted(s: Seq<u64>, start: u64)
    requires
        stamps_sorted(s),
    ensures
        evict(s, start) == s.filter(above(start)),
    decreases s.len(),
{
    let p = above(start);
    if s.len() == 0 {
        assert(s.filter(p) =~= s);
    } else {
        let rest = s.drop_first();
        assert(stamps_sorted(rest)) by {
            assert forall|i: int, j: int| 0 <= i <= j < rest.len() implies rest[i] <= rest[j] by {
                assert(rest[i] == s[i + 1] && rest[j] == s[j + 1]);
            }
        }
        assert(s =~= seq![s[0]] + rest);
        rest.lemma_filter_prepend(s[0], p);
        lemma_evict_sorted(rest, start);
        if s[0] > start {
            assert(rest.len() > 0 ==> rest[0] > start) by {
                if rest.len() > 0 {
                    assert(rest[0] == s[1]);
                }
            }
            lemma_evict_fresh(rest, start);
            assert(seq![s[0]] + rest.filter(p) =~= s);
        }
    }
}

/// While the clock does not run backwards, a request is let through exactly
/// when fewer than `capacity` of the recorded requests lie inside the window
/// `(now - window_secs, now]`; one let through is recorded, one refused
/// changes the count of nothing.  The limiter then still holds its stamps in
/// time order, none after `now`, and never more than `capacity` of them.
pub proof fn law_check_counts_window(v: LimiterView, now: u64)
    requires
        limiter_wf(v),
        stamps_sorted(v.stamps),
        forall|i: int| 0 <= i < v.stamps.len() ==> #[trigger] v.stamps[i] <= now,
    ensures
        live_stamps(v, now) == in_window(v, now),
        check_step(v, now).1 == (in_window(v, now).len() < v.capacity),
        check_step(v, now).0.stamps.len() == in_window(v, now).len() + if check_step(v, now).1 {
            1int
        } else {
            0int
        },
        limiter_wf(check_step(v, now).0),
        stamps_sorted(check_step(v, now).0.stamps),
        forall|i: int|
            0 <= i < check_step(v, now).0.stamps.len() ==> #[trigger] check_step(v, now).0.stamps[i]
                <= now,
{
    let start = window_start(now, v.window_secs);
    lemma_evict_sorted(v.stamps, start);
    lemma_evict_suffix(v.stamps, start);
    law_count_within_capacity(v, now);
    let live = live_stamps(v, now);
    let off = v.stamps.len() - live.len();
    assert forall|i: int| 0 <= i < live.len() implies live[i] == v.stamps[off + i] by {}
    let out = check_step(v, now).0.stamps;
    assert forall|i: int| 0 <= i < out.len() implies #[trigger] out[i] <= now by {
        if i < live.len() {
            assert(live[i] == v.stamps[off + i]);
        }
    }
    assert forall|i: int, j: int| 0 <= i <= j < out.len() implies out[i] <= out[j] by {
        if j < live.len() {
            assert(live[i] == v.stamps[off + i]);
            assert(live[j] == v.stamps[off + j]);
        } else if i < live.len() {
            assert(live[i] == v.stamps[off + i]);
        }
    }
}

/// A full window refuses: when the limiter holds `capacity` requests all
/// made within the last `window_secs` seconds before `now`, a request at
/// `now` is refused, nothing is forgotten and nothing is recorded.
pub proof fn law_full_window_refuses(v: LimiterView, now: u64)
    requires
        limiter_wf(v),
        v.stamps.len() == v.capacity,
        forall|i: int| 0 <= i < v.stamps.len() ==> #[trigger] v.stamps[i] > window_start(now, v.window_secs),
    ensures
        !check_step(v, now).1,
        check_step(v, now).0 == v,
{
    lemma_evict_fresh(v.stamps, window_start(now, v.window_secs));
    assert(check_step(v, now).0.stamps == v.stamps);
}

/// The internal state of a limiter.
#[derive(Debug)]
pub struct RateLimiter {
    capacity: u32,
    window_secs: u64,
    timestamps: std::collections::VecDeque<u64>,
}

impl View for RateLimiter {
    type V = LimiterView;

    closed spec fn view(&self) -> LimiterView {
        LimiterView {
            capacity: self.capacity,
            window_secs: self.window_secs,
            stamps: self.timestamps@,
        }
    }
}

impl RateLimiter {
    /// A limiter letting through at most `capacity` requests in any window
    /// of `window_secs` seconds.  A zero capacity or window is refused.
    pub fn new(capacity: u32, window_secs: u64) -> (r: Result<Self, RateLimitError>)
        ensures
            capacity == 0 ==> (r matches Err(RateLimitError::InvalidConfig(msg)) && msg@
                == "capacity must be > 0"@),
            capacity > 0 && window_secs == 0 ==> (r matches Err(
                RateLimitError::InvalidConfig(msg),
            ) && msg@ == "window_secs must be > 0"@),
            capacity > 0 && window_secs > 0 ==> (r matches Ok(l) && l@ == (LimiterView {
                capacity,
                window_secs,
                stamps: Seq::empty(),
            })),
            r matches Ok(l) ==> limiter_wf(l@),
    {
        if capacity == 0 {
            return Err(RateLimitError::InvalidConfig("capacity must be > 0".to_string()));
        }
        if window_secs == 0 {
            return Err(RateLimitError::InvalidConfig("window_secs must be > 0".to_string()));
        }
        Ok(RateLimiter {
            capacity,
            window_secs,
            timestamps: std::collections::VecDeque::with_capacity(capacity as usize),
        })
    }

    /// Forget the stamps that have left the window ending at `now`.
    fn evict_expired(&mut self, now: u64)
        requires
            limiter_wf(old(self)@),
        ensures
            final(self)@ == (LimiterView { stamps: live_stamps(old(self)@, now), ..old(self)@ }),
            limiter_wf(final(self)@),
    {
        let start = now.saturating_sub(self.window_secs);
        proof {
            lemma_evict_suffix(self.timestamps@, start);
        }
        while self.timestamps.len() > 0 && self.timestamps[0] <= start
            invariant
                evict(self.timestamps@, start) == live_stamps(old(self)@, now),
                self.capacity == old(self).capacity,
                self.window_secs == old(self).window_secs,
                start == window_start(now, self.window_secs),
                self.timestamps@.len() <= old(self).timestamps@.len(),
                limiter_wf(old(self)@),
            decreases self.timestamps@.len(),
        {
            let ghost before = self.timestamps@;
            let _ = self.timestamps.pop_front();
            proof {
                assert(self.timestamps@ =~= before.drop_first());
            }
        }
        proof {
            assert(limiter_wf(self@));
        }
    }

    /// Decide a request made at `now`: let it through and record it, or
    /// refuse it with the number of requests the window holds.
    pub fn check_at(&mut self, now: u64) -> (r: Result<(), RateLimitError>)
        requires
            limiter_wf(old(self)@),
        ensures
            limiter_wf(final(self)@),
            final(self)@ == check_step(old(self)@, now).0,
            (r is Ok) == check_step(old(self)@, now).1,
            r matches Err(e) ==> e == (RateLimitError::LimitExceeded {
                requests: live_stamps(old(self)@, now).len() as u32,
                window_secs: old(self)@.window_secs,
            }),
    {
        self.evict_expired(now);
        let current = self.timestamps.len() as u32;
        if current >= self.capacity {
            return Err(RateLimitError::LimitExceeded { requests: current, window_secs: self.window_secs });
        }
        self.timestamps.push_back(now);
        Ok(())
    }

    /// Decide a request made now, by the wall clock.
    pub fn check(&mut self) -> (r: Result<(), RateLimitError>)
        requires
            limiter_wf(old(self)@),
        ensures
            limiter_wf(final(self)@),
            exists|now: u64|
                {
                    &&& final(self)@ == (#[trigger] check_step(old(self)@, now)).0
                    &&& (r is Ok) == check_step(old(self)@, now).1
                    &&& r matches Err(e) ==> e == (RateLimitError::LimitExceeded {
                        requests: live_stamps(old(self)@, now).len() as u32,
                        window_secs: old(self)@.window_secs,
                    })
                },
    {
        let now = now_secs();
        self.check_at(now)
    }

    /// Like `check_at`, answering only whether the request went through.
    pub fn allow_at(&mut self, now: u64) -> (r: bool)
        requires
            limiter_wf(old(self)@),
        ensures
            limiter_wf(final(self)@),
            (final(self)@, r) == check_step(old(self)@, now),
    {
        self.check_at(now).is_ok()
    }

    /// Like `check`, answering only whether the request went through.
    pub fn allow(&mut self) -> (r: bool)
        requires
            limiter_wf(old(self)@),
        ensures
            limiter_wf(final(self)@),
            exists|now: u64| (final(self)@, r) == #[trigger] check_step(old(self)@, now),
    {
        self.check().is_ok()
    }

    /// The number of requests the window ending at `now` holds.
    pub fn current_count_at(&mut self, now: u64) -> (r: u32)
        requires
            limiter_wf(old(self)@),
        ensures
            limiter_wf(final(self)@),
            final(self)@ == (LimiterView { stamps: live_stamps(old(self)@, now), ..old(self)@ }),
            r == live_stamps(old(self)@, now).len(),
    {
        self.evict_expired(now);
        self.timestamps.len() as u32
    }

    /// The number of requests the window holds now, by the wall clock.
    pub fn current_count(&mut self) -> (r: u32)
        requires
            limiter_wf(old(self)@),
        ensures
            limiter_wf(final(self)@),
            exists|now: u64|
                {
                    &&& final(self)@ == (LimiterView {
                        stamps: #[trigger] live_stamps(old(self)@, now),
                        ..old(self)@
                    })
                    &&& r == live_stamps(old(self)@, now).len()
                },
    {
        let now = now_secs();
        self.current_count_at(now)
    }

    /// How many more requests the window ending at `now` lets through.
    pub fn remaining_at(&mut self, now: u64) -> (r: u32)
        requires
            limiter_wf(old(self)@),
        ensures
            limiter_wf(final(self)@),
            final(self)@ == (LimiterView { stamps: live_stamps(old(self)@, now), ..old(self)@ }),
            r == old(self)@.capacity - live_stamps(old(self)@, now).len(),
    {
        self.capacity.saturating_sub(self.current_count_at(now))
    }

    /// How many more requests the window lets through now, by the wall clock.
    pub fn remaining(&mut self) -> (r: u32)
        requires
            limiter_wf(old(self)@),
        ensures
            limiter_wf(final(self)@),
            exists|now: u64|
                {
                    &&& final(self)@ == (LimiterView {
                        stamps: #[trigger] live_stamps(old(self)@, now),
                        ..old(self)@
                    })
                    &&& r == old(self)@.capacity - live_stamps(old(self)@, now).len()
                },
    {
        self.capacity.saturating_sub(self.current_count())
    }

    /// Forget every recorded request.
    pub fn reset(&mut self)
        requires
            limiter_wf(old(self)@),
        ensures
            limiter_wf(final(self)@),
            final(self)@ == (LimiterView { stamps: Seq::empty(), ..old(self)@ }),
    {
        self.timestamps.clear();
    }

    /// The configured capacity.
    pub fn capacity(&self) -> (r: u32)
        ensures
            r == self@.capacity,
    {
        self.capacity
    }

    /// The configured window, in seconds.
    pub fn window_secs(&self) -> (r: u64)
        ensures
            r == self@.window_secs,
    {
        self.window_secs
    }

    /// Whether the window ending at `now` is full.
    pub fn is_throttled_at(&mut self, now: u64) -> (r: bool)
        requires
            limiter_wf(old(self)@),
        ensures
            limiter_wf(final(self)@),
            final(self)@ == (LimiterView { stamps: live_stamps(old(self)@, now), ..old(self)@ }),
            r == (live_stamps(old(self)@, now).len() == old(self)@.capacity),
    {
        self.remaining_at(now) == 0
    }

    /// Whether the window is full now, by the wall clock.
    pub fn is_throttled(&mut self) -> (r: bool)
        requires
            limiter_wf(old(self)@),
        ensures
            limiter_wf(final(self)@),
            exists|now: u64|
                {
                    &&& final(self)@ == (LimiterView {
                        stamps: #[trigger] live_stamps(old(self)@, now),
                        ..old(self)@
                    })
                    &&& r == (live_stamps(old(self)@, now).len() == old(self)@.capacity)
                },
    {
        self.remaining() == 0
    }
}

/// The stamps a well-formed limiter counts never exceed its capacity, so the
/// count it reports and the remaining allowance add up to the capacity.
pub proof fn law_count_within_capacity(v: LimiterView, now: u64)
    requires
        limiter_wf(v),
    ensures
        live_stamps(v, now).len() <= v.capacity,
        (v.capacity - live_stamps(v, now).len()) + live_stamps(v, now).len() == v.capacity,
{
    lemma_evict_suffix(v.stamps, window_start(now, v.window_secs));
}

/// A request at `now` leaves the limiter counting, at `now`, exactly the
/// stamps it kept: nothing of the new state is evicted again.
proof fn lemma_step_is_stable(v: LimiterView, now: u64)
    requires
        limiter_wf(v),
        now > 0,
    ensures
        live_stamps(check_step(v, now).0, now) == check_step(v, now).0.stamps,
        limiter_wf(check_step(v, now).0),
{
    let start = window_start(now, v.window_secs);
    let live = live_stamps(v, now);
    lemma_evict_suffix(v.stamps, start);
    let next = check_step(v, now).0;
    if next.stamps.len() > 0 {
        if live.len() > 0 {
            assert(next.stamps[0] == live[0]);
        }
    }
    lemma_evict_fresh(next.stamps, start);
}

/// Of `k` requests made in the same second `now > 0`, exactly as many are
/// let through as the window has room for: the first
/// `capacity - count` of them, and none after.  A new limiter therefore lets
/// through exactly `min(k, capacity)` of a burst of `k`.
pub proof fn law_burst(v: LimiterView, now: u64, k: nat)
    requires
        limiter_wf(v),
        now > 0,
    ensures
        allowed_in_burst(v, now, k) == if k <= v.capacity - live_stamps(v, now).len() {
            k as int
        } else {
            v.capacity - live_stamps(v, now).len()
        },
    decreases k,
{
    law_count_within_capacity(v, now);
    if k > 0 {
        let (next, ok) = check_step(v, now);
        lemma_step_is_stable(v, now);
        law_burst(next, now, (k - 1) as nat);
    }
}

/// Once every recorded request lies at or before `now - window_secs`, the
/// window ending at `now` is empty and the full capacity is available again.
pub proof fn law_window_slides(v: LimiterView, now: u64)
    requires
        forall|i: int| 0 <= i < v.stamps.len() ==> v.stamps[i] <= window_start(now, v.window_secs),
    ensures
        live_stamps(v, now).len() == 0,
    decreases v.stamps.len(),
{
    if v.stamps.len() > 0 {
        let rest = LimiterView { stamps: v.stamps.drop_first(), ..v };
        law_window_slides(rest, now);
    }
}

/// After a reset, every request up to the capacity goes through.
pub proof fn law_reset_restores_capacity(v: LimiterView, now: u64)
    ensures
        live_stamps(LimiterView { stamps: Seq::empty(), ..v }, now).len() == 0,
{
}

} // verus!
