//! The default parameters.

use kiro_gateway::model::tuning::{CacheConfig, CredentialConfig, RetryConfig};

#[test]
fn cache_defaults_match_original_consts() {
    let c = CacheConfig::default();
    assert_eq!(c.sim_ttl_secs, 300);
    assert_eq!(c.max_sessions, 4096);
    assert_eq!(f64::from_bits(c.read_multiplier.bits), 1.3);
    assert_eq!(f64::from_bits(c.hit_threshold.bits), 0.8);
}

#[test]
fn retry_defaults_match_original_consts() {
    let r = RetryConfig::default();
    assert_eq!(r.max_retries_per_credential, 3);
    assert_eq!(r.max_total_retries, 9);
    assert_eq!(r.backoff_base_ms, 200);
    assert_eq!(r.backoff_max_ms, 2000);
    assert_eq!(r.api_timeout_secs, 720);
}

#[test]
fn credential_defaults_match_original_consts() {
    let c = CredentialConfig::default();
    assert_eq!(c.max_failures, 3);
    assert_eq!(c.max_concurrency, 2);
    assert_eq!(c.token_expiry_margin_secs, 300);
    assert_eq!(c.token_expiring_soon_secs, 600);
    assert_eq!(c.refresh_timeout_secs, 60);
}
