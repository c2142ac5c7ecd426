//! Runtime configuration. Timeouts are carried in milliseconds; the
//! layer that loads the configuration file converts humane duration
//! strings into these fields.

use vstd::prelude::*;

verus! {

#[derive(Debug, Clone)]
pub struct HttpConfig {
    pub connect_timeout_ms: u64,
    pub request_timeout_ms: u64,
    pub pool_max_idle_per_host: usize,
    pub proxy: Option<String>,
}

#[derive(Debug, Clone)]
pub struct NlpConfig {
    pub enabled: bool,
    pub keywords: Vec<String>,
}

#[derive(Debug, Clone)]
pub struct Config {
    pub db_path: String,
    pub export_path: String,
    pub http: HttpConfig,
    pub nlp: NlpConfig,
}

impl Config {
    /// The crawl's concurrency budget: 32 workers globally, and one
    /// request at a time per host (enforced separately by the
    /// politeness delay).
    pub fn get_concurrency(&self) -> (r: (usize, usize))
        ensures
            r.0 == 32usize,
            r.1 == 1usize,
    {
        (32, 1)
    }
}

} // verus!
