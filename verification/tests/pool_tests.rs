use api_key_pool::{APIKey, APIKeyPool, RateLimitPolicy};

#[test]
fn empty_pool_reports_none() {
    let mut pool = APIKeyPool::new();
    assert_eq!(pool.poll_for_key_at(0), None);
    assert_eq!(pool.poll_for_key_at(1_000_000), None);
}

#[test]
fn rotation_scenario() {
    // One use per rolling 2 seconds, three keys polled in insertion order.
    let pol = RateLimitPolicy::new(1, 2000);
    let mut pool = APIKeyPool::new();
    pool.add_key(APIKey::new("1", pol));
    pool.add_key(APIKey::new("2", pol));
    pool.add_key(APIKey::new("3", pol));

    assert_eq!(pool.poll_for_key_at(0), Some(String::from("1")));
    assert_eq!(pool.poll_for_key_at(0), Some(String::from("2")));
    assert_eq!(pool.poll_for_key_at(0), Some(String::from("3")));
    assert_eq!(pool.poll_for_key_at(0), None);

    // After 2.1 seconds the first key's single use has rolled out.
    assert_eq!(pool.poll_for_key_at(2100), Some(String::from("1")));
}

#[test]
fn single_key_scenario() {
    // Two uses per rolling second on a one-key pool.
    let pol = RateLimitPolicy::new(2, 1000);
    let mut pool = APIKeyPool::new();
    pool.add_key(APIKey::new("A", pol));

    assert_eq!(pool.poll_for_key_at(0), Some(String::from("A")));
    assert_eq!(pool.poll_for_key_at(0), Some(String::from("A")));
    assert_eq!(pool.poll_for_key_at(0), None);

    // After 1.1 seconds the oldest use has rolled out of the window.
    assert_eq!(pool.poll_for_key_at(1100), Some(String::from("A")));
}

#[test]
fn first_fit_prefers_earliest_ready() {
    let pol = RateLimitPolicy::new(1, 1000);
    let mut pool = APIKeyPool::new();
    pool.add_key(APIKey::new("k1", pol));
    pool.add_key(APIKey::new("k2", pol));
    pool.add_key(APIKey::new("k3", pol));

    // All ready: the first key wins.
    assert_eq!(pool.poll_for_key_at(0), Some(String::from("k1")));
    // Only k2 and k3 ready: k2 wins.
    assert_eq!(pool.poll_for_key_at(0), Some(String::from("k2")));
}

#[test]
fn exhausted_poll_mutates_nothing() {
    let pol = RateLimitPolicy::new(1, 2000);
    let mut pool = APIKeyPool::new();
    pool.add_key(APIKey::new("A", pol));

    assert_eq!(pool.poll_for_key_at(0), Some(String::from("A")));
    // Repeated failing polls record nothing...
    assert_eq!(pool.poll_for_key_at(10), None);
    assert_eq!(pool.poll_for_key_at(1999), None);
    // ...so the key becomes ready exactly when the first use expires.
    assert_eq!(pool.poll_for_key_at(2001), Some(String::from("A")));
}

#[test]
fn quota_bounds_uses_in_every_window() {
    // Three uses per rolling second: a fourth poll inside the same window
    // always fails, wherever in the window it lands.
    let pol = RateLimitPolicy::new(3, 1000);
    let mut pool = APIKeyPool::new();
    pool.add_key(APIKey::new("A", pol));

    assert_eq!(pool.poll_for_key_at(0), Some(String::from("A")));
    assert_eq!(pool.poll_for_key_at(100), Some(String::from("A")));
    assert_eq!(pool.poll_for_key_at(200), Some(String::from("A")));
    assert_eq!(pool.poll_for_key_at(300), None);
    assert_eq!(pool.poll_for_key_at(999), None);
    assert_eq!(pool.poll_for_key_at(1000), None);
    // The use at 0 expires once the window no longer reaches back to it.
    assert_eq!(pool.poll_for_key_at(1001), Some(String::from("A")));
}

#[test]
fn wall_clock_poll() {
    // A window so long that the clock cannot cross it during the test:
    // the first poll uses the key, the second finds it exhausted.
    let pol = RateLimitPolicy::new(1, 4_000_000_000_000_000_000);
    let mut pool = APIKeyPool::new();
    pool.add_key(APIKey::new("only", pol));

    assert_eq!(pool.poll_for_key(), Some(String::from("only")));
    assert_eq!(pool.poll_for_key(), None);
}
