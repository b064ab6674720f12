//! Configuration of the request log.

use vstd::prelude::*;
use vstd::string::*;

verus! {

/// Which requests are logged.
#[derive(Debug, Clone, Copy, PartialEq, Eq, Structural)]
pub enum LogMode {
    /// All requests.
    All,
    /// Requests that failed.
    ErrorsOnly,
}

impl Default for LogMode {
    fn default() -> (r: Self)
        ensures
            r == LogMode::ErrorsOnly,
    {
        LogMode::ErrorsOnly
    }
}

/// How requests are logged.
#[derive(Debug, Clone)]
pub struct RequestLogConfig {
    pub enabled: bool,
    /// The path of the database.
    pub db_path: String,
    pub mode: LogMode,
    /// How many records are kept.
    pub max_records: usize,
    /// The bodies of requests are kept.
    pub save_request_body: bool,
    /// The bodies of failed responses are kept.
    pub save_response_body_on_error: bool,
}

impl Default for RequestLogConfig {
    fn default() -> (r: Self)
        ensures
            r.enabled,
            r.db_path@ == "kiro_requests.db"@,
            r.mode == LogMode::ErrorsOnly,
            r.max_records == 2000,
            r.save_request_body,
            r.save_response_body_on_error,
    {
        RequestLogConfig {
            enabled: true,
            db_path: "kiro_requests.db".to_string(),
            mode: LogMode::default(),
            max_records: 2000,
            save_request_body: true,
            save_response_body_on_error: true,
        }
    }
}

impl RequestLogConfig {
    /// Whether a request that succeeded, or failed, is logged.
    pub open spec fn records(self, success: bool) -> bool {
        self.enabled && (self.mode == LogMode::All || !success)
    }

    /// Whether a request that succeeded, or failed, is to be logged.
    pub fn should_record(&self, success: bool) -> (r: bool)
        ensures
            r == self.records(success),
    {
        if !self.enabled {
            return false;
        }
        match self.mode {
            LogMode::All => true,
            LogMode::ErrorsOnly => !success,
        }
    }
}

/// Failures are logged wherever there is a log; successes where all requests are logged.
pub proof fn logged_requests(cfg: RequestLogConfig)
    ensures
        cfg.records(false) == cfg.enabled,
        cfg.records(true) == (cfg.enabled && cfg.mode is All),
{
}

} // verus!
