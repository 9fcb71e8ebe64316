//! What holds of the totals of a run, whatever its entries are.

use vstd::prelude::*;
use vstd::utf8::decode_utf8;

use super::aggregation::{
    bumped, counted, day_counted, host_of, hour_after, hour_fits, hour_so_far, hours_fit,
    pair_after, pairs_fit, path_part, starts_visit, totals_after, totals_fit, visits_after,
    PeriodsView,
};
use super::messages::{nothing_hidden, HideMask};
use super::{ProcessorConfig, VisitView, VISIT_TIMEOUT_SECONDS};
use crate::accumulators::{no_traffic, HourlyStats};
use crate::bitmaps::{law_insert_ip, no_ips, with_ip, IpSets};
use crate::database::writer::is_hour_sum;
use crate::ip::{ip_of, Ip};
use crate::maps::entry;
use crate::method_proto::{METHOD_COUNT, PROTO_COUNT};
use crate::parser::EntryView;
use crate::run_accumulators::AccView;

verus! {

/// An entry with all that decides what it adds to the totals.
pub struct Counted {
    pub entry: EntryView,
    pub periods: PeriodsView,
    pub agent: Seq<char>,
    pub hidden: HideMask,
    pub new_visit: bool,
    pub country: Seq<char>,
}

/// The totals after an entry.
pub open spec fn after(config: ProcessorConfig, acc: AccView, x: Counted) -> AccView {
    totals_after(
        config,
        acc,
        x.entry,
        x.periods,
        x.agent,
        x.hidden,
        x.new_visit,
        x.country,
    )
}

/// The totals after several entries.
pub open spec fn after_all(config: ProcessorConfig, acc: AccView, items: Seq<Counted>) -> AccView
    decreases items.len(),
{
    if items.len() == 0 {
        acc
    } else {
        after(config, after_all(config, acc, items.drop_last()), items.last())
    }
}

/// No counter overflows on the way.
pub open spec fn all_fit(config: ProcessorConfig, acc: AccView, items: Seq<Counted>) -> bool
    decreases items.len(),
{
    items.len() == 0 || (all_fit(config, acc, items.drop_last()) && totals_fit(
        after_all(config, acc, items.drop_last()),
        items.last().entry.bytes,
    ))
}

// ── Masks and settings ──────────────────────────────────────────────────────

/// An entry that is hidden from tables is left out of exactly these; it counts as a hit, a visitor
/// and a status all the same.
pub proof fn law_hidden_entries_still_count(config: ProcessorConfig, acc: AccView, x: Counted)
    ensures
        ({
            let t = after(config, acc, x);
            let shown = after(config, acc, Counted { hidden: nothing_hidden(), ..x });
            &&& t.hourly == shown.hourly
            &&& t.daily_ips == shown.daily_ips
            &&& t.status_codes == shown.status_codes
            &&& t.method_counts == shown.method_counts
            &&& t.protocol_counts == shown.protocol_counts
            &&& t.urls == if x.hidden.urls {
                acc.urls
            } else {
                shown.urls
            }
            &&& t.hosts == if x.hidden.hosts {
                acc.hosts
            } else {
                shown.hosts
            }
            &&& t.refs == if x.hidden.refs {
                acc.refs
            } else {
                shown.refs
            }
            &&& t.agents == if x.hidden.agents {
                acc.agents
            } else {
                shown.agents
            }
            &&& t.countries == if x.hidden.countries {
                acc.countries
            } else {
                shown.countries
            }
        }),
{
}

/// A table that is switched off stays as it is, whatever entries come; so does the month.
pub proof fn law_disabled_tables_stay(config: ProcessorConfig, acc: AccView, items: Seq<Counted>)
    ensures
        ({
            let t = after_all(config, acc, items);
            &&& !config.enable_top_urls ==> t.urls == acc.urls
            &&& !config.enable_top_sites ==> t.hosts == acc.hosts
            &&& !config.enable_top_refs ==> t.refs == acc.refs
            &&& !config.enable_top_agents ==> t.agents == acc.agents
            &&& t.current_month == acc.current_month
        }),
    decreases items.len(),
{
    if items.len() > 0 {
        law_disabled_tables_stay(config, acc, items.drop_last());
    }
}

// ── Visits ──────────────────────────────────────────────────────────────────

/// A visit lasts as long as no pause is longer than the timeout: after a request that is not older
/// than the last one, the visitor's next request starts a visit if and only if it comes later than
/// that. Other visitors are not affected.
pub proof fn law_visit_ends_after_timeout(
    v: VisitView,
    key: (u8, u64, u64, Seq<char>),
    ts: i64,
    next: i64,
    other: (u8, u64, u64, Seq<char>),
)
    requires
        entry(v.last_seen, key) matches Some(last) ==> last <= ts,
    ensures
        starts_visit(visits_after(v, key, ts), key, next) <==> next - ts > VISIT_TIMEOUT_SECONDS,
        other != key ==> starts_visit(visits_after(v, key, ts), other, next) == starts_visit(
            v,
            other,
            next,
        ),
{
}

// ── Hours ───────────────────────────────────────────────────────────────────

/// The counters of an hour fit together: every request is in one status class, every successful
/// one is a page or a file, and a visit starts with a request.
pub open spec fn hour_adds_up(h: HourlyStats) -> bool {
    &&& h.status_2xx + h.status_3xx + h.status_4xx + h.status_5xx == h.hits
    &&& h.files + h.pages == h.status_2xx
    &&& h.visits <= h.hits
}

/// The counters of every hour fit together.
pub open spec fn hours_add_up(m: Map<(Seq<char>, u8), HourlyStats>) -> bool {
    forall|k: (Seq<char>, u8)| #[trigger] m.dom().contains(k) ==> hour_adds_up(m[k])
}

proof fn lemma_hour_adds_up(h: HourlyStats, e: EntryView, new_visit: bool)
    requires
        hour_adds_up(h),
        hour_fits(h, e.bytes),
    ensures
        hour_adds_up(hour_after(h, e, new_visit)),
{
}

/// The counters of every hour fit together at the start and after every entry.
pub proof fn law_hours_add_up(config: ProcessorConfig, acc: AccView, items: Seq<Counted>)
    requires
        hours_add_up(acc.hourly),
        all_fit(config, acc, items),
    ensures
        hour_adds_up(no_traffic()),
        hours_add_up(after_all(config, acc, items).hourly),
    decreases items.len(),
{
    if items.len() > 0 {
        law_hours_add_up(config, acc, items.drop_last());
        let before = after_all(config, acc, items.drop_last());
        let x = items.last();
        let hour = (x.periods.date, x.periods.hour as u8);
        let h = hour_so_far(before.hourly, hour);
        assert(hour_adds_up(h) && hour_fits(h, x.entry.bytes));
        lemma_hour_adds_up(h, x.entry, x.new_visit);
    }
}

/// Hours whose counters fit together still do once they are stored in one row.
pub proof fn law_stored_hours_add_up(a: HourlyStats, b: HourlyStats, sum: HourlyStats)
    requires
        hour_adds_up(a),
        hour_adds_up(b),
        is_hour_sum(a, b, sum),
    ensures
        hour_adds_up(sum),
{
}

/// The hits of all hours.
pub open spec fn total_hits(m: Map<(Seq<char>, u8), HourlyStats>) -> nat
    decreases m.dom().len(),
    when m.dom().finite()
{
    if m.dom().len() == 0 {
        0
    } else {
        let k = m.dom().choose();
        m[k].hits as nat + total_hits(m.remove(k))
    }
}

proof fn lemma_hits_of_one(m: Map<(Seq<char>, u8), HourlyStats>, k: (Seq<char>, u8))
    requires
        m.dom().finite(),
        m.dom().contains(k),
    ensures
        total_hits(m) == m[k].hits as nat + total_hits(m.remove(k)),
    decreases m.dom().len(),
{
    let c = m.dom().choose();
    assert(m.dom().len() > 0) by {
        if m.dom().len() == 0 {
            assert(m.dom() =~= Set::empty());
        }
    }
    if c != k {
        assert(m.remove(c).dom().contains(k));
        assert(m.remove(k).dom().contains(c));
        lemma_hits_of_one(m.remove(c), k);
        lemma_hits_of_one(m.remove(k), c);
        assert(m.remove(c).remove(k) =~= m.remove(k).remove(c));
    }
}

proof fn lemma_hits_after_insert(
    m: Map<(Seq<char>, u8), HourlyStats>,
    k: (Seq<char>, u8),
    h: HourlyStats,
)
    requires
        m.dom().finite(),
        h.hits == hour_so_far(m, k).hits + 1,
    ensures
        m.insert(k, h).dom().finite(),
        total_hits(m.insert(k, h)) == total_hits(m) + 1,
{
    let after = m.insert(k, h);
    lemma_hits_of_one(after, k);
    if m.dom().contains(k) {
        lemma_hits_of_one(m, k);
        assert(after.remove(k) =~= m.remove(k));
    } else {
        assert(after.remove(k) =~= m);
    }
}

/// Every entry is one hit: after any entries, the hours hold as many hits more.
pub proof fn law_every_entry_is_a_hit(config: ProcessorConfig, acc: AccView, items: Seq<Counted>)
    requires
        acc.hourly.dom().finite(),
        all_fit(config, acc, items),
    ensures
        after_all(config, acc, items).hourly.dom().finite(),
        total_hits(after_all(config, acc, items).hourly) == total_hits(acc.hourly) + items.len(),
    decreases items.len(),
{
    if items.len() > 0 {
        law_every_entry_is_a_hit(config, acc, items.drop_last());
        let before = after_all(config, acc, items.drop_last());
        let x = items.last();
        let hour = (x.periods.date, x.periods.hour as u8);
        let h = hour_so_far(before.hourly, hour);
        assert(hour_fits(h, x.entry.bytes));
        lemma_hits_after_insert(before.hourly, hour, hour_after(h, x.entry, x.new_visit));
    }
}

// ── Order ───────────────────────────────────────────────────────────────────

proof fn lemma_bumped_commute(
    m: Map<Seq<char>, (u64, u64)>,
    a: Seq<char>,
    x: u64,
    b: Seq<char>,
    y: u64,
)
    requires
        pairs_fit(m, x),
        pairs_fit(m, y),
        pairs_fit(bumped(m, a, x), y),
        pairs_fit(bumped(m, b, y), x),
    ensures
        bumped(bumped(m, a, x), b, y) == bumped(bumped(m, b, y), a, x),
{
    if a == b {
        assert(bumped(m, a, x).dom().contains(a));
        assert(bumped(m, b, y).dom().contains(a));
        assert(pair_after(entry(bumped(m, a, x), b), y) == pair_after(
            entry(bumped(m, b, y), a),
            x,
        ));
    }
    assert(bumped(bumped(m, a, x), b, y) =~= bumped(bumped(m, b, y), a, x));
}

proof fn lemma_counted_commute<K>(m: Map<K, u64>, a: K, b: K)
    ensures
        counted(counted(m, a), b) == counted(counted(m, b), a),
{
    assert(counted(counted(m, a), b) =~= counted(counted(m, b), a));
}

proof fn lemma_hours_commute(
    m: Map<(Seq<char>, u8), HourlyStats>,
    x: Counted,
    y: Counted,
    a: (Seq<char>, u8),
    b: (Seq<char>, u8),
)
    requires
        hours_fit(m, x.entry.bytes),
        hours_fit(m, y.entry.bytes),
        hours_fit(with_hour(m, x, a), y.entry.bytes),
        hours_fit(with_hour(m, y, b), x.entry.bytes),
    ensures
        with_hour(with_hour(m, x, a), y, b) == with_hour(with_hour(m, y, b), x, a),
{
    if a == b {
        assert(with_hour(m, x, a).dom().contains(a));
        assert(with_hour(m, y, b).dom().contains(a));
        let h = hour_so_far(m, a);
        assert(hour_fits(hour_after(h, x.entry, x.new_visit), y.entry.bytes));
        assert(hour_fits(hour_after(h, y.entry, y.new_visit), x.entry.bytes));
        assert(hour_after(hour_after(h, x.entry, x.new_visit), y.entry, y.new_visit) == hour_after(
            hour_after(h, y.entry, y.new_visit),
            x.entry,
            x.new_visit,
        ));
    }
    assert(with_hour(with_hour(m, x, a), y, b) =~= with_hour(with_hour(m, y, b), x, a));
}

spec fn with_hour(
    m: Map<(Seq<char>, u8), HourlyStats>,
    x: Counted,
    k: (Seq<char>, u8),
) -> Map<(Seq<char>, u8), HourlyStats> {
    m.insert(k, hour_after(hour_so_far(m, k), x.entry, x.new_visit))
}

proof fn lemma_ips_commute(s: IpSets, a: Ip, b: Ip)
    ensures
        with_ip(with_ip(s, a), b) == with_ip(with_ip(s, b), a),
{
    let l = with_ip(with_ip(s, a), b);
    let r = with_ip(with_ip(s, b), a);
    assert(l.v4 =~= r.v4);
    assert(l.v6.dom() =~= r.v6.dom());
    assert forall|k: u64| #[trigger] l.v6.dom().contains(k) implies l.v6[k] == r.v6[k] by {
        assert(l.v6[k] =~= r.v6[k]);
    }
    assert(l.v6 =~= r.v6);
}

proof fn lemma_days_commute(
    m: Map<Seq<char>, IpSets>,
    d: Seq<char>,
    a: Ip,
    e: Seq<char>,
    b: Ip,
)
    ensures
        day_counted(day_counted(m, d, a), e, b) == day_counted(day_counted(m, e, b), d, a),
{
    if d == e {
        lemma_ips_commute(
            match entry(m, d) {
                Some(s) => s,
                None => no_ips(),
            },
            a,
            b,
        );
    }
    assert(day_counted(day_counted(m, d, a), e, b) =~= day_counted(day_counted(m, e, b), d, a));
}

/// The order of two entries of a month does not matter to the totals, once it is known which of
/// them start visits.
pub proof fn law_entries_commute(config: ProcessorConfig, acc: AccView, x: Counted, y: Counted)
    requires
        acc.method_counts.len() == METHOD_COUNT,
        acc.protocol_counts.len() == PROTO_COUNT,
        totals_fit(acc, x.entry.bytes),
        totals_fit(acc, y.entry.bytes),
        totals_fit(after(config, acc, x), y.entry.bytes),
        totals_fit(after(config, acc, y), x.entry.bytes),
    ensures
        after(config, after(config, acc, x), y) == after(config, after(config, acc, y), x),
{
    let l = after(config, after(config, acc, x), y);
    let r = after(config, after(config, acc, y), x);
    let xh = (x.periods.date, x.periods.hour as u8);
    let yh = (y.periods.date, y.periods.hour as u8);
    lemma_hours_commute(acc.hourly, x, y, xh, yh);
    assert(l.urls == r.urls) by {
        if config.enable_top_urls && !x.hidden.urls && !y.hidden.urls {
            lemma_bumped_commute(
                acc.urls,
                decode_utf8(path_part(x.entry.path)),
                x.entry.bytes,
                decode_utf8(path_part(y.entry.path)),
                y.entry.bytes,
            );
        }
    }
    assert(l.hosts == r.hosts) by {
        if config.enable_top_sites && !x.hidden.hosts && !y.hidden.hosts {
            lemma_bumped_commute(
                acc.hosts,
                decode_utf8(x.entry.ip),
                x.entry.bytes,
                decode_utf8(y.entry.ip),
                y.entry.bytes,
            );
        }
    }
    assert(l.agents == r.agents) by {
        if config.enable_top_agents && !x.hidden.agents && !y.hidden.agents {
            lemma_bumped_commute(acc.agents, x.agent, x.entry.bytes, y.agent, y.entry.bytes);
        }
    }
    assert(l.countries == r.countries) by {
        if !x.hidden.countries && !y.hidden.countries {
            lemma_bumped_commute(
                acc.countries,
                x.country,
                x.entry.bytes,
                y.country,
                y.entry.bytes,
            );
        }
    }
    assert(l.refs == r.refs) by {
        let xr = host_of(x.entry.referer);
        let yr = host_of(y.entry.referer);
        if xr is Some && yr is Some {
            lemma_counted_commute(
                acc.refs,
                decode_utf8(xr->0),
                decode_utf8(yr->0),
            );
        }
    }
    assert(l.daily_ips == r.daily_ips) by {
        let xi = ip_of(x.entry.ip);
        let yi = ip_of(y.entry.ip);
        if xi is Some && yi is Some {
            lemma_days_commute(acc.daily_ips, x.periods.date, xi->0, y.periods.date, yi->0);
        }
    }
    lemma_counted_commute(acc.status_codes, x.entry.status, y.entry.status);
    assert(l.method_counts =~= r.method_counts);
    assert(l.protocol_counts =~= r.protocol_counts);
    assert(l =~= r);
}

/// An address counts once a day, however often it comes.
pub proof fn law_address_counts_once_a_day(m: Map<Seq<char>, IpSets>, date: Seq<char>, ip: Ip)
    ensures
        day_counted(day_counted(m, date, ip), date, ip) == day_counted(m, date, ip),
{
    let s = match entry(m, date) {
        Some(s) => s,
        None => no_ips(),
    };
    law_insert_ip(s, ip, ip);
    assert(day_counted(day_counted(m, date, ip), date, ip) =~= day_counted(m, date, ip));
}

// ── Room for counters ───────────────────────────────────────────────────────

/// The counters of an hour are bounded by the number of entries and of bytes.
pub open spec fn hour_bounded(h: HourlyStats, n: u64, bytes: u64) -> bool {
    &&& h.hits <= n
    &&& h.visits <= n
    &&& h.bandwidth <= bytes
    &&& h.files <= n
    &&& h.pages <= n
    &&& h.status_2xx <= n
    &&& h.status_3xx <= n
    &&& h.status_4xx <= n
    &&& h.status_5xx <= n
}

/// All pairs of counters are bounded by the number of entries and of bytes.
pub open spec fn pairs_bounded(m: Map<Seq<char>, (u64, u64)>, n: u64, bytes: u64) -> bool {
    forall|k: Seq<char>| #[trigger] m.dom().contains(k) ==> m[k].0 <= n && m[k].1 <= bytes
}

/// All counters are bounded by the number of entries.
pub open spec fn counts_bounded<K>(m: Map<K, u64>, n: u64) -> bool {
    forall|k: K| #[trigger] m.dom().contains(k) ==> m[k] <= n
}

/// All counters of slots are bounded by the number of entries.
pub open spec fn slots_bounded(s: Seq<u64>, n: u64) -> bool {
    forall|i: int| 0 <= i < s.len() ==> #[trigger] s[i] <= n
}

/// The counters of all hours are bounded by the number of entries and of bytes.
pub open spec fn hours_bounded(m: Map<(Seq<char>, u8), HourlyStats>, n: u64, bytes: u64) -> bool {
    forall|k: (Seq<char>, u8)| #[trigger] m.dom().contains(k) ==> hour_bounded(m[k], n, bytes)
}

/// All totals are bounded by the number of entries and of bytes that came in.
pub open spec fn bounded(acc: AccView, n: u64, bytes: u64) -> bool {
    &&& hours_bounded(acc.hourly, n, bytes)
    &&& pairs_bounded(acc.urls, n, bytes)
    &&& pairs_bounded(acc.hosts, n, bytes)
    &&& pairs_bounded(acc.agents, n, bytes)
    &&& pairs_bounded(acc.countries, n, bytes)
    &&& counts_bounded(acc.refs, n)
    &&& counts_bounded(acc.status_codes, n)
    &&& slots_bounded(acc.method_counts, n)
    &&& slots_bounded(acc.protocol_counts, n)
}

/// As long as the number of entries and of bytes fits, every counter does.
pub proof fn law_counters_have_room(
    config: ProcessorConfig,
    acc: AccView,
    x: Counted,
    n: u64,
    bytes: u64,
)
    requires
        bounded(acc, n, bytes),
        n < u64::MAX,
        bytes + x.entry.bytes <= u64::MAX,
        acc.method_counts.len() == METHOD_COUNT,
        acc.protocol_counts.len() == PROTO_COUNT,
    ensures
        totals_fit(acc, x.entry.bytes),
        bounded(after(config, acc, x), (n + 1) as u64, (bytes + x.entry.bytes) as u64),
{
    let t = after(config, acc, x);
    let m = (n + 1) as u64;
    let b = (bytes + x.entry.bytes) as u64;
    let hour = (x.periods.date, x.periods.hour as u8);
    assert forall|k: (Seq<char>, u8)| #[trigger] t.hourly.dom().contains(k) implies hour_bounded(
        t.hourly[k],
        m,
        b,
    ) by {
        if k != hour {
            assert(acc.hourly.dom().contains(k));
        } else if acc.hourly.dom().contains(k) {
            assert(hour_bounded(acc.hourly[k], n, bytes));
        }
    }
    assert forall|i: int| 0 <= i < t.method_counts.len() implies #[trigger] t.method_counts[i]
        <= m by {
        assert(acc.method_counts[i] <= n);
    }
    assert forall|i: int| 0 <= i < t.protocol_counts.len() implies #[trigger] t.protocol_counts[i]
        <= m by {
        assert(acc.protocol_counts[i] <= n);
    }
}

/// What bounds the totals still does when more came in.
pub proof fn lemma_bounded_still(acc: AccView, n: u64, bytes: u64, m: u64, more: u64)
    requires
        bounded(acc, n, bytes),
        n <= m,
        bytes <= more,
    ensures
        bounded(acc, m, more),
{
    assert forall|i: int| 0 <= i < acc.method_counts.len() implies #[trigger] acc.method_counts[i]
        <= m by {
        assert(acc.method_counts[i] <= n);
    }
    assert forall|i: int| 0 <= i < acc.protocol_counts.len() implies #[trigger]
        acc.protocol_counts[i] <= m by {
        assert(acc.protocol_counts[i] <= n);
    }
    assert forall|k: (Seq<char>, u8)| #[trigger] acc.hourly.dom().contains(k) implies hour_bounded(
        acc.hourly[k],
        m,
        more,
    ) by {
        assert(hour_bounded(acc.hourly[k], n, bytes));
    }
}

} // verus!
