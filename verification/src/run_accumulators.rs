//! What the entries of one run add up to, until it is flushed.

use vstd::prelude::*;

use crate::accumulators::HourlyStats;
use crate::bitmaps::IpSets;
use crate::maps::{
    codes, codes_new, counts, counts_new, days, days_new, hours, hours_new, hours_len, pairs,
    pairs_new, CodeMap, CountMap, DayMap, HourMap, PairMap,
};
use crate::method_proto::{METHOD_COUNT, PROTO_COUNT};

verus! {

/// The totals of a run.
pub struct RunAccumulators {
    pub current_month: String,
    pub hourly: HourMap,
    pub urls: PairMap,
    pub hosts: PairMap,
    pub refs: CountMap,
    pub agents: PairMap,
    pub countries: PairMap,
    pub daily_ips: DayMap,
    pub status_codes: CodeMap,
    pub method_counts: Vec<u64>,
    pub protocol_counts: Vec<u64>,
}

/// The totals of a run by what they hold.
#[verifier::ext_equal]
pub struct AccView {
    pub current_month: Seq<char>,
    pub hourly: Map<(Seq<char>, u8), HourlyStats>,
    pub urls: Map<Seq<char>, (u64, u64)>,
    pub hosts: Map<Seq<char>, (u64, u64)>,
    pub refs: Map<Seq<char>, u64>,
    pub agents: Map<Seq<char>, (u64, u64)>,
    pub countries: Map<Seq<char>, (u64, u64)>,
    pub daily_ips: Map<Seq<char>, IpSets>,
    pub status_codes: Map<u16, u64>,
    pub method_counts: Seq<u64>,
    pub protocol_counts: Seq<u64>,
}

/// Totals of nothing, for a month.
pub open spec fn empty_totals(month: Seq<char>) -> AccView {
    AccView {
        current_month: month,
        hourly: Map::empty(),
        urls: Map::empty(),
        hosts: Map::empty(),
        refs: Map::empty(),
        agents: Map::empty(),
        countries: Map::empty(),
        daily_ips: Map::empty(),
        status_codes: Map::empty(),
        method_counts: Seq::new(METHOD_COUNT as nat, |i: int| 0u64),
        protocol_counts: Seq::new(PROTO_COUNT as nat, |i: int| 0u64),
    }
}

impl RunAccumulators {
    pub open spec fn view(&self) -> AccView {
        AccView {
            current_month: self.current_month@,
            hourly: hours(self.hourly),
            urls: pairs(self.urls),
            hosts: pairs(self.hosts),
            refs: counts(self.refs),
            agents: pairs(self.agents),
            countries: pairs(self.countries),
            daily_ips: days(self.daily_ips),
            status_codes: codes(self.status_codes),
            method_counts: self.method_counts@,
            protocol_counts: self.protocol_counts@,
        }
    }

    /// There is a slot for every method and every protocol version.
    pub open spec fn wf(&self) -> bool {
        self.method_counts@.len() == METHOD_COUNT && self.protocol_counts@.len() == PROTO_COUNT
    }

    /// Totals of nothing, for a month.
    pub fn new(current_month: String) -> (r: RunAccumulators)
        ensures
            r.wf(),
            r@ == empty_totals(current_month@),
    {
        let method_counts: Vec<u64> = vec![0; METHOD_COUNT];
        let protocol_counts: Vec<u64> = vec![0; PROTO_COUNT];
        let r = RunAccumulators {
            current_month,
            hourly: hours_new(),
            urls: pairs_new(),
            hosts: pairs_new(),
            refs: counts_new(),
            agents: pairs_new(),
            countries: pairs_new(),
            daily_ips: days_new(),
            status_codes: codes_new(),
            method_counts,
            protocol_counts,
        };
        assert(r@ =~= empty_totals(current_month@));
        r
    }

    /// Starts a new month.
    pub fn clear_for_new_month(&mut self, new_month: String)
        ensures
            final(self).wf(),
            final(self)@ == empty_totals(new_month@),
    {
        *self = RunAccumulators::new(new_month);
    }

    /// Whether no entry was added: every entry adds to an hour.
    pub fn is_empty(&self) -> (r: bool)
        ensures
            r == (self@.hourly.dom() =~= Set::<(Seq<char>, u8)>::empty()),
    {
        let n: usize = hours_len(&self.hourly);
        proof {
            let d = self@.hourly.dom();
            if n == 0 {
                assert(d =~= Set::<(Seq<char>, u8)>::empty());
            } else if d =~= Set::<(Seq<char>, u8)>::empty() {
                assert(d.len() == 0);
            }
        }
        n == 0
    }
}

} // verus!
