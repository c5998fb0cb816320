//! A small logging toolkit: ring buffers, sliding windows, a TTL key-value
//! store, rate limiting, an LRU cache, a log-line parser and a k-way merge
//! of sorted log streams, each with a machine-checked contract.

pub mod clock;
pub mod assoc;
pub mod text;
pub mod kv_store;
pub mod rate_limiter;
pub mod circular_buffer;
pub mod rolling_window;
pub mod lru_cache;
pub mod merge_stream;
pub mod log_parser;
pub mod concurrent_kv;
pub mod concurrent_rate_limiter;
pub mod log_pipeline;
