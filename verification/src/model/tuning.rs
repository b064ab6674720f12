//! Operating parameters, in groups, with their default values.

use vstd::prelude::*;

use crate::float_bits::FloatBits;

verus! {

/// Parameters of the cache simulation and of what is reported of it.
#[derive(Debug, Clone, Copy)]
pub struct CacheConfig {
    /// How long a session of the simulation lives, in seconds.
    pub sim_ttl_secs: u64,
    /// How many sessions the simulation keeps.
    pub max_sessions: usize,
    /// The factor by which cache reads are scaled.
    pub read_multiplier: FloatBits,
    /// The share of the expected cost below which a request counts as a cache hit.
    pub hit_threshold: FloatBits,
}

/// Parameters of retries against the service.
#[derive(Debug, Clone, Copy)]
pub struct RetryConfig {
    pub max_retries_per_credential: u32,
    pub max_total_retries: u32,
    /// The delay before the first retry, in milliseconds.
    pub backoff_base_ms: u64,
    /// The greatest delay before a retry, in milliseconds.
    pub backoff_max_ms: u64,
    pub api_timeout_secs: u64,
}

/// Parameters of credentials.
#[derive(Debug, Clone, Copy)]
pub struct CredentialConfig {
    /// After how many failures in a row a credential is disabled.
    pub max_failures: u32,
    /// How many requests a credential serves at a time.
    pub max_concurrency: usize,
    /// How long before its expiry a token counts as expired.
    pub token_expiry_margin_secs: u64,
    /// How long before its expiry a token counts as expiring soon.
    pub token_expiring_soon_secs: u64,
    pub refresh_timeout_secs: u64,
}

impl Default for CacheConfig {
    fn default() -> (r: Self)
        ensures
            r.sim_ttl_secs == 300,
            r.max_sessions == 4096,
            r.read_multiplier.bits == 0x3ff4_cccc_cccc_cccd,
            r.hit_threshold.bits == 0x3fe9_9999_9999_999a,
    {
        CacheConfig {
            sim_ttl_secs: 300,
            max_sessions: 4096,
            read_multiplier: FloatBits { bits: 0x3ff4_cccc_cccc_cccd },
            hit_threshold: FloatBits { bits: 0x3fe9_9999_9999_999a },
        }
    }
}

impl Default for RetryConfig {
    fn default() -> (r: Self)
        ensures
            r.max_retries_per_credential == 3,
            r.max_total_retries == 9,
            r.backoff_base_ms == 200,
            r.backoff_max_ms == 2000,
            r.api_timeout_secs == 720,
    {
        RetryConfig {
            max_retries_per_credential: 3,
            max_total_retries: 9,
            backoff_base_ms: 200,
            backoff_max_ms: 2000,
            api_timeout_secs: 720,
        }
    }
}

impl Default for CredentialConfig {
    fn default() -> (r: Self)
        ensures
            r.max_failures == 3,
            r.max_concurrency == 2,
            r.token_expiry_margin_secs == 300,
            r.token_expiring_soon_secs == 600,
            r.refresh_timeout_secs == 60,
    {
        CredentialConfig {
            max_failures: 3,
            max_concurrency: 2,
            token_expiry_margin_secs: 300,
            token_expiring_soon_secs: 600,
            refresh_timeout_secs: 60,
        }
    }
}

} // verus!
