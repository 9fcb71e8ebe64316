//! Per-hour traffic counters.

use vstd::prelude::*;

verus! {

/// The traffic of one hour.
#[derive(Debug, Clone, Copy, PartialEq, Eq, Structural)]
pub struct HourlyStats {
    pub hits: u64,
    pub visits: u64,
    pub bandwidth: u64,
    pub files: u64,
    pub pages: u64,
    pub status_2xx: u64,
    pub status_3xx: u64,
    pub status_4xx: u64,
    pub status_5xx: u64,
}

/// An hour without traffic.
pub open spec fn no_traffic() -> HourlyStats {
    HourlyStats {
        hits: 0,
        visits: 0,
        bandwidth: 0,
        files: 0,
        pages: 0,
        status_2xx: 0,
        status_3xx: 0,
        status_4xx: 0,
        status_5xx: 0,
    }
}

impl Default for HourlyStats {
    fn default() -> (r: HourlyStats)
        ensures
            r == no_traffic(),
    {
        HourlyStats {
            hits: 0,
            visits: 0,
            bandwidth: 0,
            files: 0,
            pages: 0,
            status_2xx: 0,
            status_3xx: 0,
            status_4xx: 0,
            status_5xx: 0,
        }
    }
}

/// The accumulated traffic of one hour.
#[derive(Debug, Clone, Copy, PartialEq, Eq, Structural)]
pub struct HourlyAcc {
    pub stats: HourlyStats,
}

} // verus!
