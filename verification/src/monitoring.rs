//! Crawl counters and the periodic status line. The runtime around the
//! library keeps shared atomic counters and mirrors them into a
//! `Metrics` value when a status line is due.

use vstd::prelude::*;

use crate::strutil::digits_in_base;
use crate::strutil::u64_to_dec;

verus! {

/// Counters of the crawl: requests made, bytes received, host
/// back-offs, current frontier depth and resident memory.
#[derive(Debug, Clone)]
pub struct Metrics {
    pub requests_total: u64,
    pub bytes_in_total: u64,
    pub host_backoffs: u64,
    pub frontier_depth: u64,
    pub mem_rss_mb: u64,
}

impl Metrics {
    pub fn new() -> (r: Metrics)
        ensures
            r.requests_total == 0,
            r.bytes_in_total == 0,
            r.host_backoffs == 0,
            r.frontier_depth == 0,
            r.mem_rss_mb == 0,
    {
        Metrics {
            requests_total: 0,
            bytes_in_total: 0,
            host_backoffs: 0,
            frontier_depth: 0,
            mem_rss_mb: 0,
        }
    }

    pub fn inc_requests(&mut self)
        ensures
            final(self).requests_total == old(self).requests_total.wrapping_add(1),
            final(self).bytes_in_total == old(self).bytes_in_total,
            final(self).host_backoffs == old(self).host_backoffs,
            final(self).frontier_depth == old(self).frontier_depth,
            final(self).mem_rss_mb == old(self).mem_rss_mb,
    {
        self.requests_total = self.requests_total.wrapping_add(1);
    }

    pub fn add_bytes_in(&mut self, bytes: u64)
        ensures
            final(self).bytes_in_total == old(self).bytes_in_total.wrapping_add(bytes),
            final(self).requests_total == old(self).requests_total,
            final(self).host_backoffs == old(self).host_backoffs,
            final(self).frontier_depth == old(self).frontier_depth,
            final(self).mem_rss_mb == old(self).mem_rss_mb,
    {
        self.bytes_in_total = self.bytes_in_total.wrapping_add(bytes);
    }

    pub fn inc_host_backoffs(&mut self)
        ensures
            final(self).host_backoffs == old(self).host_backoffs.wrapping_add(1),
            final(self).requests_total == old(self).requests_total,
            final(self).bytes_in_total == old(self).bytes_in_total,
            final(self).frontier_depth == old(self).frontier_depth,
            final(self).mem_rss_mb == old(self).mem_rss_mb,
    {
        self.host_backoffs = self.host_backoffs.wrapping_add(1);
    }

    pub fn set_frontier_depth(&mut self, depth: u64)
        ensures
            final(self).frontier_depth == depth,
            final(self).requests_total == old(self).requests_total,
            final(self).bytes_in_total == old(self).bytes_in_total,
            final(self).host_backoffs == old(self).host_backoffs,
            final(self).mem_rss_mb == old(self).mem_rss_mb,
    {
        self.frontier_depth = depth;
    }

    pub fn set_mem_rss(&mut self, mem_mb: u64)
        ensures
            final(self).mem_rss_mb == mem_mb,
            final(self).requests_total == old(self).requests_total,
            final(self).bytes_in_total == old(self).bytes_in_total,
            final(self).host_backoffs == old(self).host_backoffs,
            final(self).frontier_depth == old(self).frontier_depth,
    {
        self.mem_rss_mb = mem_mb;
    }
}

/// The spec of one crawl status line for the given counter values.
pub open spec fn stats_line(
    requests: u64,
    bytes: u64,
    backoffs: u64,
    depth: u64,
    mem: u64,
) -> Seq<char> {
    "Crawl Stats: requests="@ + digits_in_base(requests as int, 10) + " bytes_in="@
        + digits_in_base(bytes as int, 10) + " host_backoffs="@ + digits_in_base(
        backoffs as int,
        10,
    ) + " frontier_depth="@ + digits_in_base(depth as int, 10) + " mem_rss_mb="@
        + digits_in_base(mem as int, 10)
}

/// Renders periodic status lines from a snapshot of the counters.
#[derive(Debug, Clone)]
pub struct Monitor {
    pub metrics: Metrics,
}

impl Monitor {
    pub fn new(metrics: Metrics) -> (r: Monitor)
        ensures
            r.metrics == metrics,
    {
        Monitor { metrics }
    }

    /// The status line for the counters held now.
    pub fn log_metrics(&self) -> (r: String)
        ensures
            r@ == stats_line(
                self.metrics.requests_total,
                self.metrics.bytes_in_total,
                self.metrics.host_backoffs,
                self.metrics.frontier_depth,
                self.metrics.mem_rss_mb,
            ),
    {
        let mut line = String::from_str("Crawl Stats: requests=");
        line.append(u64_to_dec(self.metrics.requests_total).as_str());
        line.append(" bytes_in=");
        line.append(u64_to_dec(self.metrics.bytes_in_total).as_str());
        line.append(" host_backoffs=");
        line.append(u64_to_dec(self.metrics.host_backoffs).as_str());
        line.append(" frontier_depth=");
        line.append(u64_to_dec(self.metrics.frontier_depth).as_str());
        line.append(" mem_rss_mb=");
        line.append(u64_to_dec(self.metrics.mem_rss_mb).as_str());
        line
    }
}

} // verus!
