//! Configuration sections that carry no fractional values. The sections
//! with weights, ratios and thresholds as fractions are read by the program
//! around the library.

use vstd::prelude::*;

verus! {

/// `std::path::PathBuf`, carried through unread.
#[verifier::external_type_specification]
#[verifier::external_body]
pub struct ExPathBuf(std::path::PathBuf);

/// Default for flags that are on unless the file says otherwise.
pub fn default_true() -> (b: bool)
    ensures
        b,
{
    true
}

/// Per-investigation call budget, enforced by the engine regardless of
/// prompt.
#[derive(Clone, Debug)]
pub struct LimitsCfg {
    pub max_calls_per_investigation: u64,
    pub max_calls_per_minute: u64,
}

impl Default for LimitsCfg {
    fn default() -> (c: Self)
        ensures
            c.max_calls_per_investigation == 200,
            c.max_calls_per_minute == 60,
    {
        LimitsCfg { max_calls_per_investigation: 200, max_calls_per_minute: 60 }
    }
}

/// "A request captured at `captured_path` is replayed against `service`'s
/// version instances at `path`."
#[derive(Clone, Debug)]
pub struct ReplayRoute {
    pub captured_path: String,
    pub service: String,
    pub path: String,
}

/// Bundle bounds, enforced by the engine.
#[derive(Clone, Debug)]
pub struct BundleCfg {
    pub max_bytes: usize,
    pub incident_window_secs: i64,
    pub baseline_secs: i64,
}

/// Drain's tuning, with the similarity threshold in parts per million
/// (0.5 is 500000).
#[derive(Clone, Copy, Debug)]
pub struct DrainCfg {
    pub depth: usize,
    pub similarity_threshold_ppm: u64,
    pub max_children: usize,
}

/// Where the engine reads and writes.
#[derive(Debug)]
pub struct Paths {
    pub log_dir: std::path::PathBuf,
    pub deploy_dir: std::path::PathBuf,
    pub segment_dir: std::path::PathBuf,
    pub ledger_dir: std::path::PathBuf,
}

#[derive(Clone, Debug)]
pub struct Bounds {
    pub max_items: usize,
    pub search_limit_max: usize,
    pub max_bytes_per_item: usize,
    pub excerpt_bytes: usize,
}

#[derive(Clone, Debug)]
pub struct Windows {
    pub default_lookback_secs: i64,
    pub deploy_correlation_secs: i64,
    pub clock_skew_tolerance_secs: i64,
}

#[derive(Clone, Debug)]
pub struct Ingest {
    pub poll_ms: u64,
    pub metrics_scrape_secs: u64,
    pub metrics_ring: usize,
}

/// One instance of the system under investigation.
#[derive(Clone, Debug)]
pub struct ServiceCfg {
    pub name: String,
    pub service: String,
    pub role: String,
    pub upstreams: Vec<String>,
    pub port_env: Option<String>,
    pub default_port: Option<u16>,
    pub has_log: bool,
    /// The version this instance runs, for services with always-on version
    /// pairs: the replay's targets are the instances that carry one.
    pub version: Option<String>,
}

} // verus!
