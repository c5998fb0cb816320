use rust_logger::rate_limiter::{RateLimitError, RateLimiter};

#[test]
fn test_allows_within_limit() {
    let mut r1 = RateLimiter::new(3, 60).unwrap();

    assert_eq!(r1.check(), Ok(()));
    assert_eq!(r1.check(), Ok(()));
    assert_eq!(r1.check(), Ok(()));
}

#[test]
fn test_rejects_over_limit() {
    let mut r1 = RateLimiter::new(2, 60).unwrap();

    assert!(r1.check().is_ok());
    assert!(r1.check().is_ok());

    let result = r1.check();
    assert!(result.is_err());

    match result.unwrap_err() {
        RateLimitError::LimitExceeded { requests, window_secs } => {
            assert_eq!(requests, 2);
            assert_eq!(window_secs, 60);
        }
        _ => panic!("wrong error variant"),
    }
}

#[test]
fn test_remaining_and_reset() {
    let mut rl = RateLimiter::new(5, 60).unwrap();

    rl.check().unwrap();
    rl.check().unwrap();

    assert_eq!(rl.remaining(), 3);
    assert_eq!(rl.current_count(), 2);

    rl.reset();

    assert_eq!(rl.remaining(), 5);
    assert_eq!(rl.current_count(), 0);
}

#[test]
fn test_invalid_config() {
    let result = RateLimiter::new(0, 60);
    assert!(result.is_err());
    assert!(matches!(
        result.unwrap_err(),
        RateLimitError::InvalidConfig(_)
    ));
}

#[test]
fn test_allow_bool_api() {
    let mut rl = RateLimiter::new(1, 60).unwrap();

    assert!(rl.allow());
    assert!(!rl.allow());
}

#[test]
fn rate_limiter_invalid_config_messages() {
    assert_eq!(
        RateLimiter::new(0, 60).unwrap_err(),
        RateLimitError::InvalidConfig("capacity must be > 0".to_string())
    );
    assert_eq!(
        RateLimiter::new(3, 0).unwrap_err(),
        RateLimitError::InvalidConfig("window_secs must be > 0".to_string())
    );
}

#[test]
fn rate_limiter_window_slides_at_given_times() {
    let mut rl = RateLimiter::new(2, 1).unwrap();
    assert!(rl.check_at(100).is_ok());
    assert!(rl.check_at(100).is_ok());
    assert_eq!(
        rl.check_at(100),
        Err(RateLimitError::LimitExceeded { requests: 2, window_secs: 1 })
    );
    // At 101 the window (100, 101] no longer holds the requests made at 100.
    assert!(rl.check_at(101).is_ok());
    assert!(rl.check_at(101).is_ok());
    assert!(!rl.allow_at(101));
    assert_eq!(rl.current_count_at(101), 2);
    assert_eq!(rl.remaining_at(102), 2);
}

#[test]
fn rate_limiter_burst_lets_exactly_capacity_through() {
    let mut rl = RateLimiter::new(5, 60).unwrap();
    let mut allowed = 0;
    for _ in 0..10 {
        if rl.allow_at(1_000) {
            allowed += 1;
        }
    }
    assert_eq!(allowed, 5);
    assert!(rl.is_throttled_at(1_000));
    assert!(!rl.is_throttled_at(1_060));
}

#[test]
fn rate_limiter_accessors() {
    let mut rl = RateLimiter::new(7, 30).unwrap();
    assert_eq!(rl.capacity(), 7);
    assert_eq!(rl.window_secs(), 30);
    assert!(!rl.is_throttled());
}

#[test]
fn rate_limiter_remaining_plus_count_is_capacity() {
    let mut rl = RateLimiter::new(4, 10).unwrap();
    rl.check_at(50).unwrap();
    rl.check_at(55).unwrap();
    rl.check_at(58).unwrap();
    assert_eq!(rl.current_count_at(61) + rl.remaining_at(61), 4);
    assert_eq!(rl.current_count_at(61), 2);
}

#[test]
fn rate_limiter_counts_only_requests_inside_window() {
    let mut rl = RateLimiter::new(3, 10).unwrap();
    assert!(rl.check_at(1).is_ok());
    assert!(rl.check_at(5).is_ok());
    // Window (2, 12]: the request at 1 has left, the one at 5 remains.
    assert!(rl.check_at(12).is_ok());
    assert_eq!(rl.current_count_at(12), 2);
    assert!(rl.check_at(13).is_ok());
    assert_eq!(
        rl.check_at(14),
        Err(RateLimitError::LimitExceeded { requests: 3, window_secs: 10 })
    );
    // Window (6, 16]: only the requests at 12 and 13 remain.
    assert_eq!(rl.current_count_at(16), 2);
}
