use open_runo::security::{ApiKey, ApiKeyError, JwtCodec, RateLimiter};

const SECOND: i64 = 1_000_000;

fn now() -> i64 {
    chrono::Utc::now().timestamp_micros()
}

#[test]
fn rejects_revoked_key() {
    let key = ApiKey { key: "k".into(), owner: "alice".into(), expires_at: None, revoked: true };
    assert!(key.validate(now()).is_err());
    assert_eq!(key.validate(now()), Err(ApiKeyError::Revoked { owner: "alice".into() }));
}

#[test]
fn rejects_expired_key() {
    let t = now();
    let key = ApiKey { key: "k".into(), owner: "alice".into(), expires_at: Some(t - SECOND), revoked: false };
    assert!(key.validate(t).is_err());
    assert!(key.validate(t - SECOND).is_err(), "a key is expired from its expiry time on");
}

#[test]
fn accepts_valid_key() {
    let t = now();
    let key = ApiKey { key: "k".into(), owner: "alice".into(), expires_at: Some(t + 3600 * SECOND), revoked: false };
    assert!(key.validate(t).is_ok());
}

#[test]
fn rate_limiter_blocks_after_max_requests() {
    let mut limiter = RateLimiter::new(2, 60 * SECOND);
    let t = now();
    assert!(limiter.check("client-a", t).is_ok());
    assert!(limiter.check("client-a", t).is_ok());
    assert!(limiter.check("client-a", t).is_err());
}

#[test]
fn rate_limiter_resets_after_window() {
    let mut limiter = RateLimiter::new(1, SECOND);
    let t0 = now();
    assert!(limiter.check("client-b", t0).is_ok());
    assert!(limiter.check("client-b", t0).is_err());
    let t1 = t0 + 2 * SECOND;
    assert!(limiter.check("client-b", t1).is_ok());
}

#[test]
fn seconds_until_reset_counts_down_within_the_window() {
    let mut limiter = RateLimiter::new(1, 10 * SECOND);
    let t0 = now();
    assert!(limiter.check("client-c", t0).is_ok());
    assert_eq!(limiter.seconds_until_reset("client-c", t0), 10);
    assert_eq!(limiter.seconds_until_reset("client-c", t0 + 4 * SECOND), 6);
}

#[test]
fn seconds_until_reset_is_zero_for_an_unseen_key() {
    let limiter = RateLimiter::new(1, 10 * SECOND);
    assert_eq!(limiter.seconds_until_reset("never-seen", now()), 0);
}

#[test]
fn separate_keys_get_separate_budgets() {
    let mut limiter = RateLimiter::new(1, 60 * SECOND);
    let t = now();
    assert!(limiter.check("a", t).is_ok());
    assert!(limiter.check("b", t).is_ok());
    let e = limiter.check("a", t).unwrap_err();
    assert_eq!(e.key, "a");
    assert_eq!(e.max_requests, 1);
}

#[test]
fn jwt_codec_keeps_its_secret() {
    let codec = JwtCodec::new(b"test-secret");
    assert_eq!(codec.secret(), b"test-secret");
}

#[test]
fn a_window_admits_exactly_its_budget_then_the_next_window_starts_afresh() {
    let mut limiter = RateLimiter::new(3, 60_000_000);
    let t0 = now();
    let outcomes: Vec<bool> = [0, 1, 2, 3, 59]
        .iter()
        .map(|s| limiter.check("k", t0 + s * 1_000_000).is_ok())
        .collect();
    assert_eq!(outcomes, vec![true, true, true, false, false]);
    assert!(limiter.check("k", t0 + 60_000_000).is_ok());
    assert!(limiter.check("k", t0 + 61_000_000).is_ok());
}

#[test]
fn a_later_window_counts_as_if_the_key_were_new_and_keys_do_not_share_budgets() {
    let mut limiter = RateLimiter::new(2, 10 * SECOND);
    let first: Vec<bool> = [0, 3, 9].iter().map(|s| limiter.check("a", s * SECOND).is_ok()).collect();
    assert_eq!(first, vec![true, true, false]);
    assert!(limiter.check("b", 9 * SECOND).is_ok());
    let later: Vec<bool> = [10, 12, 19, 20].iter().map(|s| limiter.check("a", s * SECOND).is_ok()).collect();
    let mut fresh = RateLimiter::new(2, 10 * SECOND);
    let alone: Vec<bool> = [10, 12, 19, 20].iter().map(|s| fresh.check("a", s * SECOND).is_ok()).collect();
    assert_eq!(later, alone);
    assert_eq!(later, vec![true, true, false, true]);
}
