use api_key_pool::{APIKey, RateLimitPolicy};

#[test]
fn policy_keeps_its_fields() {
    let pol = RateLimitPolicy::new(3, 500);
    assert_eq!(pol.count, 3);
    assert_eq!(pol.per, 500);
}

#[test]
fn key_returns_identifier_verbatim() {
    let pol = RateLimitPolicy::new(1, 100);
    let key = APIKey::new("secret-token", pol);
    assert_eq!(key.get_key(), String::from("secret-token"));
}

#[test]
fn use_key_returns_identifier() {
    let pol = RateLimitPolicy::new(1, 100);
    let mut key = APIKey::new("B", pol);
    assert!(key.is_ready(0));
    assert_eq!(key.use_key(0), String::from("B"));
}

#[test]
fn eviction_drops_single_oldest() {
    let pol = RateLimitPolicy::new(2, 1000);
    let mut key = APIKey::new("A", pol);
    key.use_key(10);
    key.use_key(20);

    // At capacity, neither use expired yet.
    assert!(!key.is_ready(500));
    // The oldest use (10) expires first.
    assert!(key.is_ready(1011));
    key.use_key(1011);

    // Exactly the oldest was evicted: 20 is still recorded, so the key is
    // not ready again until 20 expires in turn.
    assert!(!key.is_ready(1015));
    assert!(key.is_ready(1021));
}

#[test]
fn readiness_holds_until_a_use() {
    let pol = RateLimitPolicy::new(1, 100);
    let mut key = APIKey::new("A", pol);
    key.use_key(0);

    assert!(!key.is_ready(50));
    // Once ready, the key stays ready as the clock advances...
    assert!(key.is_ready(101));
    assert!(key.is_ready(500));
    assert!(key.is_ready(1_000_000));
    // ...until a use is recorded against it.
    key.use_key(500);
    assert!(!key.is_ready(550));
}

#[test]
fn backward_clock_still_evicts_oldest() {
    let pol = RateLimitPolicy::new(2, 100);
    let mut key = APIKey::new("A", pol);
    // The clock moves backward between the two uses.
    key.use_key(200);
    key.use_key(50);

    // The oldest recorded use is 50, whatever order it arrived in.
    assert!(!key.is_ready(140));
    assert!(key.is_ready(151));
    key.use_key(151);

    // 50 was evicted; 151 and 200 remain, with 151 now the oldest.
    assert!(!key.is_ready(240));
    assert!(key.is_ready(260));
}
