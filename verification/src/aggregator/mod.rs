//! From log files to totals: which part of each file is new, and what its lines add up to.

use vstd::prelude::*;

use crate::geo::Geo;
use crate::maps::{
    hosts, hosts_new, periods, periods_new, visits, visits_new, HostMap, PeriodMap, VisitMap,
};

pub mod aggregation;
pub mod census;
pub mod discovery;
pub mod flush;
pub mod messages;
pub mod pipeline;
pub mod ranges;
pub mod records;
pub mod resolve;
pub mod resume;
pub mod rotation;
pub mod sharing;
pub mod timing;
pub mod totals;
pub mod turnover;
pub mod workers;

verus! {

/// How long a visitor may pause within one visit.
pub const VISIT_TIMEOUT_SECONDS: i64 = 1_800;

/// What a processor is set to do.
#[derive(Debug, Clone, Copy, PartialEq, Eq, Structural)]
pub struct ProcessorConfig {
    pub top_n: usize,
    pub bot_filter: bool,
    pub enable_top_urls: bool,
    pub enable_top_sites: bool,
    pub enable_top_refs: bool,
    pub enable_top_agents: bool,
}

/// What is carried from entry to entry: when each visitor was last seen, and caches.
pub struct Processor {
    pub config: ProcessorConfig,
    pub geo: Geo,
    pub checkpoint_every_secs: Option<u64>,
    pub time_cache: PeriodMap,
    pub referer_cache: HostMap,
    pub visit_last_seen: VisitMap,
    pub visit_state_dirty: VisitMap,
    pub visit_max_seen_ts: i64,
}

/// When each visitor was last seen, which of these times are not stored yet, and the latest.
#[verifier::ext_equal]
pub struct VisitView {
    pub last_seen: Map<(u8, u64, u64, Seq<char>), i64>,
    pub dirty: Map<(u8, u64, u64, Seq<char>), i64>,
    pub max_seen: i64,
}

/// The seconds between two checkpoints; none where they are switched off.
pub open spec fn interval_of(minutes: u64) -> Option<u64> {
    if minutes == 0 {
        None
    } else if minutes * 60 <= u64::MAX {
        Some((minutes * 60) as u64)
    } else {
        Some(u64::MAX)
    }
}

/// A checkpoint is due after so many seconds.
pub open spec fn is_due(interval: Option<u64>, elapsed_secs: u64) -> bool {
    interval matches Some(n) && elapsed_secs >= n
}

/// No visitor was seen.
pub open spec fn no_visits() -> VisitView {
    VisitView { last_seen: Map::empty(), dirty: Map::empty(), max_seen: 0 }
}

impl Processor {
    /// The caches hold what they were asked for.
    pub open spec fn wf(&self) -> bool {
        &&& self.geo.wf()
        &&& aggregation::period_cache_ok(periods(self.time_cache))
        &&& aggregation::host_cache_ok(hosts(self.referer_cache))
    }

    /// The visitors seen so far.
    pub open spec fn visits(&self) -> VisitView {
        VisitView {
            last_seen: visits(self.visit_last_seen),
            dirty: visits(self.visit_state_dirty),
            max_seen: self.visit_max_seen_ts,
        }
    }

    /// A processor that has seen nothing.
    pub fn new(geo: Geo, config: ProcessorConfig) -> (r: Processor)
        requires
            geo.wf(),
        ensures
            r.wf(),
            r.config == config,
            r.geo == geo,
            r.checkpoint_every_secs is None,
            r.visits() == no_visits(),
    {
        let r = Processor {
            config,
            geo,
            checkpoint_every_secs: None,
            time_cache: periods_new(),
            referer_cache: hosts_new(),
            visit_last_seen: visits_new(),
            visit_state_dirty: visits_new(),
            visit_max_seen_ts: 0,
        };
        assert(r.visits() =~= no_visits());
        r
    }

    /// Sets how often the totals are stored in between; zero for never.
    pub fn set_checkpoint_interval_minutes(&mut self, minutes: u64)
        ensures
            final(self).checkpoint_every_secs == interval_of(minutes),
            final(self).config == old(self).config,
            final(self).geo == old(self).geo,
            final(self).visits() == old(self).visits(),
            final(self).time_cache == old(self).time_cache,
            final(self).referer_cache == old(self).referer_cache,
    {
        self.checkpoint_every_secs = if minutes == 0 {
            None
        } else {
            match minutes.checked_mul(60) {
                Some(s) => Some(s),
                None => Some(u64::MAX),
            }
        };
    }

    /// Forgets the hosts of referrers that were cached.
    pub fn clear_referer_cache(&mut self)
        requires
            old(self).wf(),
        ensures
            final(self).wf(),
            hosts(final(self).referer_cache) == Map::<Seq<char>, Seq<char>>::empty(),
            final(self).config == old(self).config,
            final(self).geo == old(self).geo,
            final(self).checkpoint_every_secs == old(self).checkpoint_every_secs,
            final(self).time_cache == old(self).time_cache,
            final(self).visits() == old(self).visits(),
    {
        self.referer_cache = hosts_new();
        assert(hosts(self.referer_cache) =~= Map::<Seq<char>, Seq<char>>::empty());
    }

    /// Whether the totals are due to be stored, `elapsed_secs` after they last were.
    pub fn checkpoint_due(&self, elapsed_secs: u64) -> (r: bool)
        ensures
            r == is_due(self.checkpoint_every_secs, elapsed_secs),
    {
        match self.checkpoint_every_secs {
            Some(n) => elapsed_secs >= n,
            None => false,
        }
    }
}

} // verus!
