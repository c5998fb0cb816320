# rust_logger

A small logging toolkit whose core is verified with Verus: the public
functions in `src/` carry `requires`/`ensures` contracts over a mathematical
model of their type, and the laws that tie several operations together are
stated and proved as public proof functions (their names start with `law_`).
The handles shared between threads say only what holds of the state as each
call finds it; a few of their operations (`ConcurrentKvStore::new` and `set`,
`ThreadSafeLruCache::put`, `ConcurrentRateLimiter::reset`) promise nothing
about the shared state beyond keeping it well formed.

## Layout

- `src/` — the verified library.
  - `circular_buffer`, `rolling_window`: fixed-capacity buffers that keep
    the most recent values.
  - `kv_store`: string key-value store with optional time-to-live.
  - `rate_limiter`: sliding-window rate limiter.
  - `lru_cache`: least-recently-used cache over a `BTreeMap` recency index.
  - `merge_stream`: k-way merge of log-record streams, batch and lazy.
  - `log_parser`: parser for `[LEVEL] timestamp source: message` lines,
    per-level counts, top sources and a text summary.
  - `concurrent_kv`, `concurrent_rate_limiter`, and the thread-safe LRU
    cache: the same structures behind `vstd` locks.
  - `clock`, `text`, `assoc`: the wall clock, string helpers and the
    association-list model shared by the map-like structures.
- `tests/` — tests run against the compiled library.
- `app/` — what stays outside the verifier: the threaded log pipeline,
  floating-point window statistics, and the `Display`/`Error` forms of the
  library's types.

## Checking

Verification runs Verus on `src/lib.rs`; the tests are ordinary
`cargo test` integration tests.
