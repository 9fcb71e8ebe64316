//! What a flush writes: the rows of each table, and what a row becomes that is there already.

use std::sync::Arc;

use vstd::prelude::*;
use vstd::slice::slice_subrange;
use vstd::string::*;
use vstd::utf8::encode_utf8;

use super::ips::{
    has_group, is_merged_v4, is_merged_v6, merge_v4, merge_v6, stored_v4, stored_v6, BitmapError,
    KIND_V4, KIND_V6,
};
use super::ranks::{ErrUrlStats, UrlStats};
use crate::accumulators::HourlyStats;
use crate::aggregator::aggregation::later_of;
use crate::bitmaps::{v4_is_empty, v6_is_empty, IpBitmaps, IpSets};
use crate::geo::{country_in, unknown, unknown_country, Geo};
use crate::mmdb::RecordView;
use crate::ip::{ip_of, Ip};
use crate::maps::{
    codes, codes_get, counts, counts_get, days, days_get, days_keys, entry, hour_entries, hours,
    hours_get, is_key_listing, is_listing, pairs, pairs_get, text_entries, text_keys, texts,
    trees_get, trees_keys, CodeMap, CountMap, DayMap, HourMap, PairMap,
};
use crate::method_proto::{method_label, method_name, proto_label, proto_name};
use crate::parser::combined::{int_value, parse_u64};
use crate::text::{str_eq, MINUS, PLUS};

verus! {

// ── Hosts ───────────────────────────────────────────────────────────────────

/// A host in the columns of a row: the kind and halves of an address, or zeros.
#[derive(Debug, Clone, Copy, PartialEq, Eq, Structural)]
pub struct HostKey {
    pub kind: u8,
    pub hi: u64,
    pub lo: u64,
}

/// The columns of a host: those of its address, or zeros where it is none.
pub open spec fn host_key_of(host: Seq<u8>) -> HostKey {
    match ip_of(host) {
        Some(ip) => HostKey { kind: ip.key().0, hi: ip.key().1, lo: ip.key().2 },
        None => HostKey { kind: 0, hi: 0, lo: 0 },
    }
}

/// The columns of a host.
pub fn encode_host_key(host: &str) -> (r: HostKey)
    ensures
        r == host_key_of(host.spec_bytes()),
{
    match Ip::parse(host) {
        Some(ip) => HostKey { kind: ip.kind(), hi: ip.hi(), lo: ip.lo() },
        None => HostKey { kind: 0, hi: 0, lo: 0 },
    }
}

/// A row of the table of hosts.
pub struct HostRow {
    pub key: HostKey,
    pub hits: u64,
    pub bandwidth: u64,
    pub country: (Arc<String>, Arc<String>),
}

/// The cached countries after the first `n` hosts were looked up.
pub open spec fn cache_after(
    cache: Map<(u8, u64, u64), (Seq<char>, Seq<char>)>,
    db: Map<(u8, u64, u64), RecordView>,
    hosts: Seq<(String, (u64, u64))>,
    n: int,
) -> Map<(u8, u64, u64), (Seq<char>, Seq<char>)>
    decreases n,
{
    if n <= 0 {
        cache
    } else {
        let before = cache_after(cache, db, hosts, n - 1);
        match ip_of(encode_utf8(hosts[n - 1].0@)) {
            Some(ip) => before.insert(ip.key(), country_in(db, ip.key())),
            None => before,
        }
    }
}

/// The country of a host: that of its address, or the unknown one where it is none.
pub open spec fn host_country(db: Map<(u8, u64, u64), RecordView>, host: Seq<u8>) -> (
    Seq<char>,
    Seq<char>,
) {
    match ip_of(host) {
        Some(ip) => country_in(db, ip.key()),
        None => unknown_country(),
    }
}

/// A row stands for a host: its columns, its hits and bytes, and its country.
pub open spec fn is_host_row(
    row: HostRow,
    db: Map<(u8, u64, u64), RecordView>,
    host: Seq<char>,
    traffic: (u64, u64),
) -> bool {
    &&& row.key == host_key_of(encode_utf8(host))
    &&& row.hits == traffic.0
    &&& row.bandwidth == traffic.1
    &&& texts(row.country) == host_country(db, encode_utf8(host))
}

/// The rows of hosts.
pub fn host_rows(geo: &mut Geo, hosts: &Vec<(String, (u64, u64))>) -> (r: Vec<HostRow>)
    requires
        old(geo).wf(),
    ensures
        r@.len() == hosts@.len(),
        forall|i: int|
            0 <= i < r@.len() ==> is_host_row(
                #[trigger] r@[i],
                old(geo).database(),
                hosts@[i].0@,
                hosts@[i].1,
            ),
        final(geo).wf(),
        final(geo)@ == cache_after(
            old(geo)@,
            old(geo).database(),
            hosts@,
            hosts@.len() as int,
        ),
        final(geo).database() == old(geo).database(),
{
    let ghost start = geo@;
    let ghost db = geo.database();
    let mut rows: Vec<HostRow> = Vec::new();
    let mut i: usize = 0;
    while i < hosts.len()
        invariant
            0 <= i <= hosts@.len(),
            start == old(geo)@,
            db == old(geo).database(),
            geo.wf(),
            geo@ == cache_after(start, db, hosts@, i as int),
            geo.database() == db,
            rows@.len() == i,
            forall|j: int|
                0 <= j < i ==> is_host_row(#[trigger] rows@[j], db, hosts@[j].0@, hosts@[j].1),
        decreases hosts@.len() - i,
    {
        let host = hosts[i].0.as_str();
        let country = match Ip::parse(host) {
            Some(ip) => geo.lookup(ip),
            None => unknown(),
        };
        rows.push(
            HostRow {
                key: encode_host_key(host),
                hits: hosts[i].1.0,
                bandwidth: hosts[i].1.1,
                country,
            },
        );
        i += 1;
    }
    rows
}

// ── Slots of methods and protocol versions ──────────────────────────────────

/// The names of the methods' slots.
pub open spec fn method_labels() -> spec_fn(int) -> Seq<char> {
    |i: int| method_label(i)
}

/// The names of the protocol versions' slots.
pub open spec fn proto_labels() -> spec_fn(int) -> Seq<char> {
    |i: int| proto_label(i)
}

/// The slots that were counted, in order, under their names.
pub open spec fn counted_slots(counts: Seq<u64>, label: spec_fn(int) -> Seq<char>, n: int) -> Seq<
    (Seq<char>, u64),
>
    decreases n,
{
    if n <= 0 {
        Seq::empty()
    } else {
        let before = counted_slots(counts, label, n - 1);
        if counts[n - 1] > 0 {
            before.push((label(n - 1), counts[n - 1]))
        } else {
            before
        }
    }
}

/// Rows of names by what the names hold.
pub open spec fn named_rows(rows: Seq<(&'static str, u64)>) -> Seq<(Seq<char>, u64)> {
    Seq::new(rows.len(), |i: int| (rows[i].0@, rows[i].1))
}

/// The rows of the table of methods.
pub fn method_rows(counts: &Vec<u64>) -> (r: Vec<(&'static str, u64)>)
    ensures
        named_rows(r@) == counted_slots(
            counts@,
            method_labels(),
            counts@.len() as int,
        ),
{
    let ghost label = method_labels();
    let mut rows: Vec<(&'static str, u64)> = Vec::new();
    assert(named_rows(rows@) =~= counted_slots(counts@, label, 0));
    let mut i: usize = 0;
    while i < counts.len()
        invariant
            0 <= i <= counts@.len(),
            label == method_labels(),
            named_rows(rows@) == counted_slots(counts@, label, i as int),
        decreases counts@.len() - i,
    {
        let ghost before = named_rows(rows@);
        if counts[i] > 0 {
            rows.push((method_name(i), counts[i]));
            assert(named_rows(rows@) =~= before.push((label(i as int), counts@[i as int])));
        }
        i += 1;
    }
    rows
}

/// The rows of the table of protocol versions.
pub fn protocol_rows(counts: &Vec<u64>) -> (r: Vec<(&'static str, u64)>)
    ensures
        named_rows(r@) == counted_slots(counts@, proto_labels(), counts@.len() as int),
{
    let ghost label = proto_labels();
    let mut rows: Vec<(&'static str, u64)> = Vec::new();
    assert(named_rows(rows@) =~= counted_slots(counts@, label, 0));
    let mut i: usize = 0;
    while i < counts.len()
        invariant
            0 <= i <= counts@.len(),
            label == proto_labels(),
            named_rows(rows@) == counted_slots(counts@, label, i as int),
        decreases counts@.len() - i,
    {
        let ghost before = named_rows(rows@);
        if counts[i] > 0 {
            rows.push((proto_name(i), counts[i]));
            assert(named_rows(rows@) =~= before.push((label(i as int), counts@[i as int])));
        }
        i += 1;
    }
    rows
}

// ── Rows that are there already ─────────────────────────────────────────────

/// The largest number that a column holds.
pub const COLUMN_MAX: u64 = 9_223_372_036_854_775_807;

/// A stored number, or zero.
pub open spec fn number_or_zero(stored: Option<u64>) -> u64 {
    match stored {
        Some(n) => n,
        None => 0,
    }
}

/// The sum of a stored count and a new one; `None` where a column cannot hold it.
pub fn add_count(stored: Option<u64>, n: u64) -> (r: Option<u64>)
    ensures
        match r {
            Some(sum) => sum == number_or_zero(stored) + n && sum <= COLUMN_MAX,
            None => number_or_zero(stored) + n > COLUMN_MAX,
        },
{
    let s: u64 = match stored {
        Some(s) => s,
        None => 0,
    };
    match s.checked_add(n) {
        Some(sum) => if sum <= COLUMN_MAX {
            Some(sum)
        } else {
            None
        },
        None => None,
    }
}

/// A stored pair, or zeros.
pub open spec fn pair_or_zero(stored: Option<(u64, u64)>) -> (u64, u64) {
    match stored {
        Some(p) => p,
        None => (0, 0),
    }
}

/// The columns can hold the sums of two pairs.
pub open spec fn pair_sum_fits(a: (u64, u64), b: (u64, u64)) -> bool {
    a.0 + b.0 <= COLUMN_MAX && a.1 + b.1 <= COLUMN_MAX
}

/// The sum of stored hits and bandwidth and new ones; `None` where a column cannot hold one.
pub fn add_pair(stored: Option<(u64, u64)>, p: (u64, u64)) -> (r: Option<(u64, u64)>)
    ensures
        ({
            let s = pair_or_zero(stored);
            match r {
                Some(sum) => sum.0 == s.0 + p.0 && sum.1 == s.1 + p.1 && pair_sum_fits(s, p),
                None => !pair_sum_fits(s, p),
            }
        }),
{
    let (a, b) = match stored {
        Some((a, b)) => (Some(a), Some(b)),
        None => (None, None),
    };
    match (add_count(a, p.0), add_count(b, p.1)) {
        (Some(x), Some(y)) => Some((x, y)),
        _ => None,
    }
}

/// Stored traffic, or none.
pub open spec fn hour_or_none(stored: Option<HourlyStats>) -> HourlyStats {
    match stored {
        Some(h) => h,
        None => crate::accumulators::no_traffic(),
    }
}

/// `sum` is the traffic of `a` and of `b`.
pub open spec fn is_hour_sum(a: HourlyStats, b: HourlyStats, sum: HourlyStats) -> bool {
    &&& sum.hits == a.hits + b.hits
    &&& sum.visits == a.visits + b.visits
    &&& sum.bandwidth == a.bandwidth + b.bandwidth
    &&& sum.files == a.files + b.files
    &&& sum.pages == a.pages + b.pages
    &&& sum.status_2xx == a.status_2xx + b.status_2xx
    &&& sum.status_3xx == a.status_3xx + b.status_3xx
    &&& sum.status_4xx == a.status_4xx + b.status_4xx
    &&& sum.status_5xx == a.status_5xx + b.status_5xx
}

/// The columns can hold the traffic of `a` and of `b`.
pub open spec fn hour_sum_fits(a: HourlyStats, b: HourlyStats) -> bool {
    &&& a.hits + b.hits <= COLUMN_MAX
    &&& a.visits + b.visits <= COLUMN_MAX
    &&& a.bandwidth + b.bandwidth <= COLUMN_MAX
    &&& a.files + b.files <= COLUMN_MAX
    &&& a.pages + b.pages <= COLUMN_MAX
    &&& a.status_2xx + b.status_2xx <= COLUMN_MAX
    &&& a.status_3xx + b.status_3xx <= COLUMN_MAX
    &&& a.status_4xx + b.status_4xx <= COLUMN_MAX
    &&& a.status_5xx + b.status_5xx <= COLUMN_MAX
}

/// The sum of the stored traffic of an hour and new traffic; `None` where a column cannot hold it.
pub fn add_hour(stored: Option<HourlyStats>, h: HourlyStats) -> (r: Option<HourlyStats>)
    ensures
        match r {
            Some(sum) => is_hour_sum(hour_or_none(stored), h, sum) && hour_sum_fits(
                hour_or_none(stored),
                h,
            ),
            None => !hour_sum_fits(hour_or_none(stored), h),
        },
{
    let s = match stored {
        Some(s) => s,
        None => HourlyStats::default(),
    };
    let traffic = match (
        add_count(Some(s.hits), h.hits),
        add_count(Some(s.visits), h.visits),
        add_count(Some(s.bandwidth), h.bandwidth),
        add_count(Some(s.files), h.files),
        add_count(Some(s.pages), h.pages),
    ) {
        (Some(hits), Some(visits), Some(bandwidth), Some(files), Some(pages)) => (
            hits,
            visits,
            bandwidth,
            files,
            pages,
        ),
        _ => {
            return None;
        },
    };
    match (
        add_count(Some(s.status_2xx), h.status_2xx),
        add_count(Some(s.status_3xx), h.status_3xx),
        add_count(Some(s.status_4xx), h.status_4xx),
        add_count(Some(s.status_5xx), h.status_5xx),
    ) {
        (Some(status_2xx), Some(status_3xx), Some(status_4xx), Some(status_5xx)) => Some(
            HourlyStats {
                hits: traffic.0,
                visits: traffic.1,
                bandwidth: traffic.2,
                files: traffic.3,
                pages: traffic.4,
                status_2xx,
                status_3xx,
                status_4xx,
                status_5xx,
            },
        ),
        _ => None,
    }
}

/// Stored requests of a URL, or none.
pub open spec fn url_or_none(stored: Option<UrlStats>) -> UrlStats {
    match stored {
        Some(u) => u,
        None => UrlStats { hits: 0, bandwidth: 0, rt_sum: 0, rt_count: 0, rt_max: 0 },
    }
}

/// `sum` is what two parts of a URL's requests come to: sums, and the larger of the longest times.
pub open spec fn is_url_sum(a: UrlStats, b: UrlStats, sum: UrlStats) -> bool {
    &&& sum.hits == a.hits + b.hits
    &&& sum.bandwidth == a.bandwidth + b.bandwidth
    &&& sum.rt_sum == a.rt_sum + b.rt_sum
    &&& sum.rt_count == a.rt_count + b.rt_count
    &&& sum.rt_max == if a.rt_max >= b.rt_max {
        a.rt_max
    } else {
        b.rt_max
    }
}

/// The columns can hold what two parts of a URL's requests come to.
pub open spec fn url_sum_fits(a: UrlStats, b: UrlStats) -> bool {
    &&& a.hits + b.hits <= COLUMN_MAX
    &&& a.bandwidth + b.bandwidth <= COLUMN_MAX
    &&& a.rt_sum + b.rt_sum <= COLUMN_MAX
    &&& a.rt_count + b.rt_count <= COLUMN_MAX
}

/// The stored requests of a URL and new ones; `None` where a column cannot hold the sum.
pub fn add_url(stored: Option<UrlStats>, u: UrlStats) -> (r: Option<UrlStats>)
    ensures
        match r {
            Some(sum) => is_url_sum(url_or_none(stored), u, sum) && url_sum_fits(
                url_or_none(stored),
                u,
            ),
            None => !url_sum_fits(url_or_none(stored), u),
        },
{
    let s = match stored {
        Some(s) => s,
        None => UrlStats { hits: 0, bandwidth: 0, rt_sum: 0, rt_count: 0, rt_max: 0 },
    };
    match (
        add_count(Some(s.hits), u.hits),
        add_count(Some(s.bandwidth), u.bandwidth),
        add_count(Some(s.rt_sum), u.rt_sum),
        add_count(Some(s.rt_count), u.rt_count),
    ) {
        (Some(hits), Some(bandwidth), Some(rt_sum), Some(rt_count)) => Some(
            UrlStats {
                hits,
                bandwidth,
                rt_sum,
                rt_count,
                rt_max: if s.rt_max >= u.rt_max {
                    s.rt_max
                } else {
                    u.rt_max
                },
            },
        ),
        _ => None,
    }
}

/// Stored failures of a URL, or none.
pub open spec fn failures_or_none(stored: Option<ErrUrlStats>) -> ErrUrlStats {
    match stored {
        Some(u) => u,
        None => ErrUrlStats {
            c400: 0,
            c401: 0,
            c403: 0,
            c404: 0,
            c422: 0,
            c429: 0,
            c4xx: 0,
            c500: 0,
            c502: 0,
            c503: 0,
            c5xx: 0,
            bandwidth: 0,
        },
    }
}

/// `sum` is what two parts of a URL's failures come to.
pub open spec fn is_failure_sum(a: ErrUrlStats, b: ErrUrlStats, sum: ErrUrlStats) -> bool {
    &&& sum.c400 == a.c400 + b.c400
    &&& sum.c401 == a.c401 + b.c401
    &&& sum.c403 == a.c403 + b.c403
    &&& sum.c404 == a.c404 + b.c404
    &&& sum.c422 == a.c422 + b.c422
    &&& sum.c429 == a.c429 + b.c429
    &&& sum.c4xx == a.c4xx + b.c4xx
    &&& sum.c500 == a.c500 + b.c500
    &&& sum.c502 == a.c502 + b.c502
    &&& sum.c503 == a.c503 + b.c503
    &&& sum.c5xx == a.c5xx + b.c5xx
    &&& sum.bandwidth == a.bandwidth + b.bandwidth
}

/// The columns can hold what two parts of a URL's failures come to.
pub open spec fn failure_sum_fits(a: ErrUrlStats, b: ErrUrlStats) -> bool {
    &&& a.c400 + b.c400 <= COLUMN_MAX
    &&& a.c401 + b.c401 <= COLUMN_MAX
    &&& a.c403 + b.c403 <= COLUMN_MAX
    &&& a.c404 + b.c404 <= COLUMN_MAX
    &&& a.c422 + b.c422 <= COLUMN_MAX
    &&& a.c429 + b.c429 <= COLUMN_MAX
    &&& a.c4xx + b.c4xx <= COLUMN_MAX
    &&& a.c500 + b.c500 <= COLUMN_MAX
    &&& a.c502 + b.c502 <= COLUMN_MAX
    &&& a.c503 + b.c503 <= COLUMN_MAX
    &&& a.c5xx + b.c5xx <= COLUMN_MAX
    &&& a.bandwidth + b.bandwidth <= COLUMN_MAX
}

/// The stored failures of a URL and new ones; `None` where a column cannot hold the sum.
pub fn add_failures(stored: Option<ErrUrlStats>, u: ErrUrlStats) -> (r: Option<ErrUrlStats>)
    ensures
        match r {
            Some(sum) => is_failure_sum(failures_or_none(stored), u, sum) && failure_sum_fits(
                failures_or_none(stored),
                u,
            ),
            None => !failure_sum_fits(failures_or_none(stored), u),
        },
{
    let s = match stored {
        Some(s) => s,
        None => ErrUrlStats {
            c400: 0,
            c401: 0,
            c403: 0,
            c404: 0,
            c422: 0,
            c429: 0,
            c4xx: 0,
            c500: 0,
            c502: 0,
            c503: 0,
            c5xx: 0,
            bandwidth: 0,
        },
    };
    let client = match (
        add_count(Some(s.c400), u.c400),
        add_count(Some(s.c401), u.c401),
        add_count(Some(s.c403), u.c403),
        add_count(Some(s.c404), u.c404),
        add_count(Some(s.c422), u.c422),
        add_count(Some(s.c429), u.c429),
    ) {
        (Some(c400), Some(c401), Some(c403), Some(c404), Some(c422), Some(c429)) => (
            c400,
            c401,
            c403,
            c404,
            c422,
            c429,
        ),
        _ => {
            return None;
        },
    };
    match (
        add_count(Some(s.c4xx), u.c4xx),
        add_count(Some(s.c500), u.c500),
        add_count(Some(s.c502), u.c502),
        add_count(Some(s.c503), u.c503),
        add_count(Some(s.c5xx), u.c5xx),
        add_count(Some(s.bandwidth), u.bandwidth),
    ) {
        (Some(c4xx), Some(c500), Some(c502), Some(c503), Some(c5xx), Some(bandwidth)) => Some(
            ErrUrlStats {
                c400: client.0,
                c401: client.1,
                c403: client.2,
                c404: client.3,
                c422: client.4,
                c429: client.5,
                c4xx,
                c500,
                c502,
                c503,
                c5xx,
                bandwidth,
            },
        ),
        _ => None,
    }
}

/// The parts of a URL's requests come to the same sum however they are put together: either way
/// round, and with the sum of two of them.
pub proof fn law_flush_order(
    a: UrlStats,
    b: UrlStats,
    c: UrlStats,
    ab: UrlStats,
    bc: UrlStats,
    x: UrlStats,
    y: UrlStats,
)
    requires
        is_url_sum(a, b, ab),
        is_url_sum(b, c, bc),
        is_url_sum(ab, c, x),
        is_url_sum(a, bc, y),
    ensures
        x == y,
        is_url_sum(b, a, ab),
{
}

// ── Two flushes ─────────────────────────────────────────────────────────────

/// What a table holds under a key, or else nothing.
pub open spec fn value_or<K, V>(table: Map<K, V>, k: K, nothing: V) -> V {
    if table.dom().contains(k) {
        table[k]
    } else {
        nothing
    }
}

/// A table once a flush added its part: `is_sum` tells of a stored value, a new one and their sum.
/// A row that the part does not hold stays.
pub open spec fn is_flushed<K, V>(
    table: Map<K, V>,
    part: Map<K, V>,
    nothing: V,
    is_sum: spec_fn(V, V, V) -> bool,
    flushed: Map<K, V>,
) -> bool {
    &&& flushed.dom() == table.dom().union(part.dom())
    &&& forall|k: K| #[trigger]
        flushed.dom().contains(k) ==> if part.dom().contains(k) {
            is_sum(value_or(table, k, nothing), part[k], flushed[k])
        } else {
            flushed[k] == table[k]
        }
}

/// A table holds under each key what it held before with the two parts, and no other keys.
pub open spec fn holds_both<K, V>(
    table: Map<K, V>,
    a: Map<K, V>,
    b: Map<K, V>,
    nothing: V,
    is_sum: spec_fn(V, V, V) -> bool,
    flushed: Map<K, V>,
) -> bool {
    &&& flushed.dom() == table.dom().union(a.dom()).union(b.dom())
    &&& forall|k: K| #[trigger]
        flushed.dom().contains(k) ==> exists|m: V|
            #[trigger] is_sum(value_or(table, k, nothing), value_or(a, k, nothing), m) && is_sum(
                m,
                value_or(b, k, nothing),
                flushed[k],
            )
}

proof fn lemma_two_flushes<K, V>(
    table: Map<K, V>,
    a: Map<K, V>,
    b: Map<K, V>,
    nothing: V,
    is_sum: spec_fn(V, V, V) -> bool,
    ta: Map<K, V>,
    tab: Map<K, V>,
    tb: Map<K, V>,
    tba: Map<K, V>,
)
    requires
        is_flushed(table, a, nothing, is_sum, ta),
        is_flushed(ta, b, nothing, is_sum, tab),
        is_flushed(table, b, nothing, is_sum, tb),
        is_flushed(tb, a, nothing, is_sum, tba),
        forall|x: V| #[trigger] is_sum(x, nothing, x),
        forall|x: V, y: V, p: V, q: V| #[trigger] is_sum(x, y, p) && #[trigger] is_sum(x, y, q) ==> p == q,
        forall|x: V, y: V, z: V, p: V, q: V, u: V, v: V| #[trigger]
            is_sum(x, y, p) && #[trigger] is_sum(p, z, q) && #[trigger] is_sum(x, z, u) && #[trigger]
            is_sum(u, y, v) ==> q == v,
    ensures
        tab == tba,
        holds_both(table, a, b, nothing, is_sum, tab),
{
    assert forall|k: K| #[trigger] tab.dom().contains(k) implies tba.dom().contains(k) && tab[k]
        == tba[k] && exists|m: V|
        #[trigger] is_sum(value_or(table, k, nothing), value_or(a, k, nothing), m) && is_sum(
            m,
            value_or(b, k, nothing),
            tab[k],
        ) by {
        assert(tba.dom().contains(k));
        let x = value_or(table, k, nothing);
        let y = value_or(a, k, nothing);
        let z = value_or(b, k, nothing);
        let p = value_or(ta, k, nothing);
        let u = value_or(tb, k, nothing);
        assert(ta.dom().contains(k) == (table.dom().contains(k) || a.dom().contains(k)));
        assert(tb.dom().contains(k) == (table.dom().contains(k) || b.dom().contains(k)));
        assert(is_sum(x, nothing, x));
        assert(is_sum(p, nothing, p));
        assert(is_sum(u, nothing, u));
        assert(is_sum(x, y, p));
        assert(is_sum(p, z, tab[k]));
        assert(is_sum(x, z, u));
        assert(is_sum(u, y, tba[k]));
    }
    assert(tab.dom() =~= tba.dom());
    assert(tab =~= tba);
    assert(tab.dom() =~= table.dom().union(a.dom()).union(b.dom()));
}

/// How the rows of referrers, status codes, methods or protocols add up.
pub open spec fn count_sums() -> spec_fn(u64, u64, u64) -> bool {
    |a: u64, b: u64, sum: u64| sum == a + b
}

/// Two flushes into a table of referrers, status codes, methods or protocols
/// add up, in either order: each row is what was stored with what the two hold of it.
pub proof fn law_flushed_counts_add_up<K>(
    table: Map<K, u64>,
    a: Map<K, u64>,
    b: Map<K, u64>,
    ta: Map<K, u64>,
    tab: Map<K, u64>,
    tb: Map<K, u64>,
    tba: Map<K, u64>,
)
    requires
        is_flushed(table, a, 0u64, count_sums(), ta),
        is_flushed(ta, b, 0u64, count_sums(), tab),
        is_flushed(table, b, 0u64, count_sums(), tb),
        is_flushed(tb, a, 0u64, count_sums(), tba),
    ensures
        tab == tba,
        holds_both(table, a, b, 0u64, count_sums(), tab),
{
    lemma_two_flushes(table, a, b, 0u64, count_sums(), ta, tab, tb, tba);
}

/// How the rows of URLs, hosts, agents or countries, with hits and bytes add up.
pub open spec fn pair_sums() -> spec_fn((u64, u64), (u64, u64), (u64, u64)) -> bool {
    |a: (u64, u64), b: (u64, u64), sum: (u64, u64)| sum.0 == a.0 + b.0 && sum.1 == a.1 + b.1
}

/// Two flushes into a table of URLs, hosts, agents or countries, with hits and bytes
/// add up, in either order: each row is what was stored with what the two hold of it.
pub proof fn law_flushed_pairs_add_up<K>(
    table: Map<K, (u64, u64)>,
    a: Map<K, (u64, u64)>,
    b: Map<K, (u64, u64)>,
    ta: Map<K, (u64, u64)>,
    tab: Map<K, (u64, u64)>,
    tb: Map<K, (u64, u64)>,
    tba: Map<K, (u64, u64)>,
)
    requires
        is_flushed(table, a, (0u64, 0u64), pair_sums(), ta),
        is_flushed(ta, b, (0u64, 0u64), pair_sums(), tab),
        is_flushed(table, b, (0u64, 0u64), pair_sums(), tb),
        is_flushed(tb, a, (0u64, 0u64), pair_sums(), tba),
    ensures
        tab == tba,
        holds_both(table, a, b, (0u64, 0u64), pair_sums(), tab),
{
    lemma_two_flushes(table, a, b, (0u64, 0u64), pair_sums(), ta, tab, tb, tba);
}

/// How the rows of hours add up.
pub open spec fn hour_sums() -> spec_fn(HourlyStats, HourlyStats, HourlyStats) -> bool {
    |a: HourlyStats, b: HourlyStats, sum: HourlyStats| is_hour_sum(a, b, sum)
}

/// Two flushes into a table of hours
/// add up, in either order: each row is what was stored with what the two hold of it.
pub proof fn law_flushed_hours_add_up<K>(
    table: Map<K, HourlyStats>,
    a: Map<K, HourlyStats>,
    b: Map<K, HourlyStats>,
    ta: Map<K, HourlyStats>,
    tab: Map<K, HourlyStats>,
    tb: Map<K, HourlyStats>,
    tba: Map<K, HourlyStats>,
)
    requires
        is_flushed(table, a, crate::accumulators::no_traffic(), hour_sums(), ta),
        is_flushed(ta, b, crate::accumulators::no_traffic(), hour_sums(), tab),
        is_flushed(table, b, crate::accumulators::no_traffic(), hour_sums(), tb),
        is_flushed(tb, a, crate::accumulators::no_traffic(), hour_sums(), tba),
    ensures
        tab == tba,
        holds_both(table, a, b, crate::accumulators::no_traffic(), hour_sums(), tab),
{
    lemma_two_flushes(table, a, b, crate::accumulators::no_traffic(), hour_sums(), ta, tab, tb, tba);
}

/// How the rows of URLs, with their response times add up.
pub open spec fn url_sums() -> spec_fn(UrlStats, UrlStats, UrlStats) -> bool {
    |a: UrlStats, b: UrlStats, sum: UrlStats| is_url_sum(a, b, sum)
}

/// Two flushes into a table of URLs, with their response times
/// add up, in either order: each row is what was stored with what the two hold of it.
pub proof fn law_flushed_urls_add_up<K>(
    table: Map<K, UrlStats>,
    a: Map<K, UrlStats>,
    b: Map<K, UrlStats>,
    ta: Map<K, UrlStats>,
    tab: Map<K, UrlStats>,
    tb: Map<K, UrlStats>,
    tba: Map<K, UrlStats>,
)
    requires
        is_flushed(table, a, url_or_none(None), url_sums(), ta),
        is_flushed(ta, b, url_or_none(None), url_sums(), tab),
        is_flushed(table, b, url_or_none(None), url_sums(), tb),
        is_flushed(tb, a, url_or_none(None), url_sums(), tba),
    ensures
        tab == tba,
        holds_both(table, a, b, url_or_none(None), url_sums(), tab),
{
    lemma_two_flushes(table, a, b, url_or_none(None), url_sums(), ta, tab, tb, tba);
}

/// How the rows of failing URLs add up.
pub open spec fn failure_sums() -> spec_fn(ErrUrlStats, ErrUrlStats, ErrUrlStats) -> bool {
    |a: ErrUrlStats, b: ErrUrlStats, sum: ErrUrlStats| is_failure_sum(a, b, sum)
}

/// Two flushes into a table of failing URLs
/// add up, in either order: each row is what was stored with what the two hold of it.
pub proof fn law_flushed_failures_add_up<K>(
    table: Map<K, ErrUrlStats>,
    a: Map<K, ErrUrlStats>,
    b: Map<K, ErrUrlStats>,
    ta: Map<K, ErrUrlStats>,
    tab: Map<K, ErrUrlStats>,
    tb: Map<K, ErrUrlStats>,
    tba: Map<K, ErrUrlStats>,
)
    requires
        is_flushed(table, a, failures_or_none(None), failure_sums(), ta),
        is_flushed(ta, b, failures_or_none(None), failure_sums(), tab),
        is_flushed(table, b, failures_or_none(None), failure_sums(), tb),
        is_flushed(tb, a, failures_or_none(None), failure_sums(), tba),
    ensures
        tab == tba,
        holds_both(table, a, b, failures_or_none(None), failure_sums(), tab),
{
    lemma_two_flushes(table, a, b, failures_or_none(None), failure_sums(), ta, tab, tb, tba);
}

// ── A flush into a table ────────────────────────────────────────────────────

/// A table once rows were written into it.
pub open spec fn written<K, V>(table: Map<K, V>, rows: Seq<(K, V)>) -> Map<K, V>
    decreases rows.len(),
{
    if rows.len() == 0 {
        table
    } else {
        written(table, rows.drop_last()).insert(rows.last().0, rows.last().1)
    }
}

/// The rows hold the sums of what a table holds and of a part.
pub open spec fn are_sums<K, V>(
    table: Map<K, V>,
    part: Seq<(K, V)>,
    nothing: V,
    is_sum: spec_fn(V, V, V) -> bool,
    rows: Seq<(K, V)>,
) -> bool {
    &&& rows.len() == part.len()
    &&& forall|i: int|
        0 <= i < rows.len() ==> (#[trigger] rows[i]).0 == part[i].0 && is_sum(
            value_or(table, part[i].0, nothing),
            part[i].1,
            rows[i].1,
        )
}

proof fn lemma_written<K, V>(table: Map<K, V>, rows: Seq<(K, V)>)
    requires
        forall|i: int, j: int|
            0 <= i < j < rows.len() ==> (#[trigger] rows[i]).0 != (#[trigger] rows[j]).0,
    ensures
        forall|k: K| #[trigger]
            written(table, rows).dom().contains(k) <==> table.dom().contains(k) || exists|i: int|
                0 <= i < rows.len() && (#[trigger] rows[i]).0 == k,
        forall|i: int|
            0 <= i < rows.len() ==> written(table, rows)[(#[trigger] rows[i]).0] == rows[i].1,
        forall|k: K|
            table.dom().contains(k) && !(exists|i: int|
                0 <= i < rows.len() && (#[trigger] rows[i]).0 == k) ==> #[trigger] written(
                table,
                rows,
            )[k] == table[k],
    decreases rows.len(),
{
    if rows.len() > 0 {
        let rest = rows.drop_last();
        let last = rows.last();
        assert forall|i: int, j: int| 0 <= i < j < rest.len() implies (#[trigger] rest[i]).0 != (
        #[trigger] rest[j]).0 by {
            assert(rows[i].0 != rows[j].0);
        }
        lemma_written(table, rest);
        let all = written(table, rows);
        assert(rows[rows.len() - 1] == last);
        assert forall|k: K| #[trigger] all.dom().contains(k) <==> table.dom().contains(k) || exists|
            i: int,
        |
            0 <= i < rows.len() && (#[trigger] rows[i]).0 == k by {
            if exists|i: int| 0 <= i < rest.len() && (#[trigger] rest[i]).0 == k {
                let i = choose|i: int| 0 <= i < rest.len() && (#[trigger] rest[i]).0 == k;
                assert(rows[i].0 == k);
            }
            if exists|i: int| 0 <= i < rows.len() && (#[trigger] rows[i]).0 == k {
                let i = choose|i: int| 0 <= i < rows.len() && (#[trigger] rows[i]).0 == k;
                if i < rest.len() {
                    assert(rest[i].0 == k);
                }
            }
            assert(written(table, rest).dom().contains(k) || k == last.0 || !all.dom().contains(k));
        }
        assert forall|i: int| 0 <= i < rows.len() implies all[(#[trigger] rows[i]).0] == rows[i].1 by {
            if i < rest.len() {
                assert(rest[i] == rows[i]);
                assert(rows[i].0 != rows[rows.len() - 1].0);
            }
        }
        assert forall|k: K|
            table.dom().contains(k) && !(exists|i: int|
                0 <= i < rows.len() && (#[trigger] rows[i]).0 == k) implies #[trigger] all[k]
            == table[k] by {
            assert(rows[rows.len() - 1].0 != k);
            if exists|i: int| 0 <= i < rest.len() && (#[trigger] rest[i]).0 == k {
                let i = choose|i: int| 0 <= i < rest.len() && (#[trigger] rest[i]).0 == k;
                assert(rows[i].0 == k);
            }
            assert(written(table, rest)[k] == table[k]);
        }
    }
}

/// A table into which the sums were written is the table after a flush.
proof fn lemma_sums_flush<K, V>(
    table: Map<K, V>,
    part: Seq<(K, V)>,
    nothing: V,
    is_sum: spec_fn(V, V, V) -> bool,
    rows: Seq<(K, V)>,
)
    requires
        are_sums(table, part, nothing, is_sum, rows),
    ensures
        forall|m: Map<K, V>| #[trigger]
            is_listing(part, m) ==> is_flushed(table, m, nothing, is_sum, written(table, rows)),
{
    assert forall|m: Map<K, V>| #[trigger] is_listing(part, m) implies is_flushed(
        table,
        m,
        nothing,
        is_sum,
        written(table, rows),
    ) by {
        let all = written(table, rows);
        assert forall|i: int, j: int| 0 <= i < j < rows.len() implies (#[trigger] rows[i]).0 != (
        #[trigger] rows[j]).0 by {
            assert(part[i].0 != part[j].0);
        }
        lemma_written(table, rows);
        assert forall|k: K| m.dom().contains(k) <==> exists|i: int|
            0 <= i < rows.len() && (#[trigger] rows[i]).0 == k by {
            if m.dom().contains(k) {
                let i = choose|i: int| 0 <= i < part.len() && (#[trigger] part[i]).0 == k;
                assert(rows[i].0 == k);
            }
            if exists|i: int| 0 <= i < rows.len() && (#[trigger] rows[i]).0 == k {
                let i = choose|i: int| 0 <= i < rows.len() && (#[trigger] rows[i]).0 == k;
                assert(part[i].0 == k);
            }
        }
        assert(all.dom() =~= table.dom().union(m.dom()));
        assert forall|k: K| #[trigger] all.dom().contains(k) implies if m.dom().contains(k) {
            is_sum(value_or(table, k, nothing), m[k], all[k])
        } else {
            all[k] == table[k]
        } by {
            if m.dom().contains(k) {
                let i = choose|i: int| 0 <= i < rows.len() && (#[trigger] rows[i]).0 == k;
                assert(part[i].0 == k && m[part[i].0] == part[i].1);
                assert(all[rows[i].0] == rows[i].1);
            }
        }
    }
}

/// The rows that a flush of a part writes into a table of counts by name; `None`
/// where a column cannot hold a sum, and then nothing is written.
pub fn flush_counts(table: &CountMap, part: &Vec<(String, u64)>) -> (r: Option<Vec<(String, u64)>>)
    ensures
        match r {
            Some(rows) => {
                &&& are_sums(counts(*table), text_entries(part@), 0u64, count_sums(), text_entries(rows@))
                &&& forall|m: Map<Seq<char>, u64>| #[trigger]
                    is_listing(text_entries(part@), m) ==> is_flushed(
                        counts(*table),
                        m,
                        0u64,
                        count_sums(),
                        written(counts(*table), text_entries(rows@)),
                    )
            },
            None => exists|i: int|
                0 <= i < part@.len() && number_or_zero(entry(counts(*table), (#[trigger] part@[i]).0@)) + part@[i].1 > COLUMN_MAX,
        },
{
    let mut rows: Vec<(String, u64)> = Vec::new();
    let mut i: usize = 0;
    while i < part.len()
        invariant
            0 <= i <= part@.len(),
            rows@.len() == i,
            forall|j: int|
                0 <= j < i ==> (#[trigger] text_entries(rows@)[j]).0 == text_entries(part@)[j].0 && count_sums()(
                    value_or(counts(*table), text_entries(part@)[j].0, 0u64),
                    part@[j].1,
                    rows@[j].1,
                ),
        decreases part@.len() - i,
    {
        let stored = counts_get(table, part[i].0.as_str());
        let sum = match add_count(stored, part[i].1) {
            Some(sum) => sum,
            None => {
                assert(number_or_zero(entry(counts(*table), part@[i as int].0@)) + part@[i as int].1 > COLUMN_MAX);
                return None;
            },
        };
        let ghost before = rows@;
        rows.push((part[i].0.clone(), sum));
        proof {
            assert forall|j: int| 0 <= j <= i implies (#[trigger] text_entries(rows@)[j]).0 == text_entries(part@)[j].0
                && count_sums()(
                value_or(counts(*table), text_entries(part@)[j].0, 0u64),
                part@[j].1,
                rows@[j].1,
            ) by {
                if j < i {
                    assert(text_entries(before)[j] == text_entries(rows@)[j]);
                }
            }
        }
        i += 1;
    }
    proof {
        lemma_sums_flush(counts(*table), text_entries(part@), 0u64, count_sums(), text_entries(rows@));
    }
    Some(rows)
}

/// The rows that a flush of a part writes into a table of counts by code; `None`
/// where a column cannot hold a sum, and then nothing is written.
pub fn flush_codes(table: &CodeMap, part: &Vec<(u16, u64)>) -> (r: Option<Vec<(u16, u64)>>)
    ensures
        match r {
            Some(rows) => {
                &&& are_sums(codes(*table), part@, 0u64, count_sums(), rows@)
                &&& forall|m: Map<u16, u64>| #[trigger]
                    is_listing(part@, m) ==> is_flushed(
                        codes(*table),
                        m,
                        0u64,
                        count_sums(),
                        written(codes(*table), rows@),
                    )
            },
            None => exists|i: int|
                0 <= i < part@.len() && number_or_zero(entry(codes(*table), (#[trigger] part@[i]).0)) + part@[i].1 > COLUMN_MAX,
        },
{
    let mut rows: Vec<(u16, u64)> = Vec::new();
    let mut i: usize = 0;
    while i < part.len()
        invariant
            0 <= i <= part@.len(),
            rows@.len() == i,
            forall|j: int|
                0 <= j < i ==> (#[trigger] rows@[j]).0 == part@[j].0 && count_sums()(
                    value_or(codes(*table), part@[j].0, 0u64),
                    part@[j].1,
                    rows@[j].1,
                ),
        decreases part@.len() - i,
    {
        let stored = codes_get(table, part[i].0);
        let sum = match add_count(stored, part[i].1) {
            Some(sum) => sum,
            None => {
                assert(number_or_zero(entry(codes(*table), part@[i as int].0)) + part@[i as int].1 > COLUMN_MAX);
                return None;
            },
        };
        let ghost before = rows@;
        rows.push((part[i].0, sum));
        proof {
            assert forall|j: int| 0 <= j <= i implies (#[trigger] rows@[j]).0 == part@[j].0
                && count_sums()(
                value_or(codes(*table), part@[j].0, 0u64),
                part@[j].1,
                rows@[j].1,
            ) by {
                if j < i {
                    assert(before[j] == rows@[j]);
                }
            }
        }
        i += 1;
    }
    proof {
        lemma_sums_flush(codes(*table), part@, 0u64, count_sums(), rows@);
    }
    Some(rows)
}

/// The rows that a flush of a part writes into a table of hits and bytes by name; `None`
/// where a column cannot hold a sum, and then nothing is written.
pub fn flush_pairs(table: &PairMap, part: &Vec<(String, (u64, u64))>) -> (r: Option<Vec<(String, (u64, u64))>>)
    ensures
        match r {
            Some(rows) => {
                &&& are_sums(pairs(*table), text_entries(part@), (0u64, 0u64), pair_sums(), text_entries(rows@))
                &&& forall|m: Map<Seq<char>, (u64, u64)>| #[trigger]
                    is_listing(text_entries(part@), m) ==> is_flushed(
                        pairs(*table),
                        m,
                        (0u64, 0u64),
                        pair_sums(),
                        written(pairs(*table), text_entries(rows@)),
                    )
            },
            None => exists|i: int|
                0 <= i < part@.len() && !pair_sum_fits(pair_or_zero(entry(pairs(*table), (#[trigger] part@[i]).0@)), part@[i].1),
        },
{
    let mut rows: Vec<(String, (u64, u64))> = Vec::new();
    let mut i: usize = 0;
    while i < part.len()
        invariant
            0 <= i <= part@.len(),
            rows@.len() == i,
            forall|j: int|
                0 <= j < i ==> (#[trigger] text_entries(rows@)[j]).0 == text_entries(part@)[j].0 && pair_sums()(
                    value_or(pairs(*table), text_entries(part@)[j].0, (0u64, 0u64)),
                    part@[j].1,
                    rows@[j].1,
                ),
        decreases part@.len() - i,
    {
        let stored = pairs_get(table, part[i].0.as_str());
        let sum = match add_pair(stored, part[i].1) {
            Some(sum) => sum,
            None => {
                assert(!pair_sum_fits(pair_or_zero(entry(pairs(*table), part@[i as int].0@)), part@[i as int].1));
                return None;
            },
        };
        let ghost before = rows@;
        rows.push((part[i].0.clone(), sum));
        proof {
            assert forall|j: int| 0 <= j <= i implies (#[trigger] text_entries(rows@)[j]).0 == text_entries(part@)[j].0
                && pair_sums()(
                value_or(pairs(*table), text_entries(part@)[j].0, (0u64, 0u64)),
                part@[j].1,
                rows@[j].1,
            ) by {
                if j < i {
                    assert(text_entries(before)[j] == text_entries(rows@)[j]);
                }
            }
        }
        i += 1;
    }
    proof {
        lemma_sums_flush(pairs(*table), text_entries(part@), (0u64, 0u64), pair_sums(), text_entries(rows@));
    }
    Some(rows)
}

/// The rows that a flush of a part writes into a table of traffic by date and hour; `None`
/// where a column cannot hold a sum, and then nothing is written.
pub fn flush_hours(table: &HourMap, part: &Vec<((String, u8), HourlyStats)>) -> (r: Option<Vec<((String, u8), HourlyStats)>>)
    ensures
        match r {
            Some(rows) => {
                &&& are_sums(hours(*table), hour_entries(part@), crate::accumulators::no_traffic(), hour_sums(), hour_entries(rows@))
                &&& forall|m: Map<(Seq<char>, u8), HourlyStats>| #[trigger]
                    is_listing(hour_entries(part@), m) ==> is_flushed(
                        hours(*table),
                        m,
                        crate::accumulators::no_traffic(),
                        hour_sums(),
                        written(hours(*table), hour_entries(rows@)),
                    )
            },
            None => exists|i: int|
                0 <= i < part@.len() && !hour_sum_fits(hour_or_none(entry(hours(*table), ((#[trigger] part@[i]).0.0@, part@[i].0.1))), part@[i].1),
        },
{
    let mut rows: Vec<((String, u8), HourlyStats)> = Vec::new();
    let mut i: usize = 0;
    while i < part.len()
        invariant
            0 <= i <= part@.len(),
            rows@.len() == i,
            forall|j: int|
                0 <= j < i ==> (#[trigger] hour_entries(rows@)[j]).0 == hour_entries(part@)[j].0 && hour_sums()(
                    value_or(hours(*table), hour_entries(part@)[j].0, crate::accumulators::no_traffic()),
                    part@[j].1,
                    rows@[j].1,
                ),
        decreases part@.len() - i,
    {
        let stored = hours_get(table, &part[i].0);
        let sum = match add_hour(stored, part[i].1) {
            Some(sum) => sum,
            None => {
                assert(!hour_sum_fits(hour_or_none(entry(hours(*table), (part@[i as int].0.0@, part@[i as int].0.1))), part@[i as int].1));
                return None;
            },
        };
        let ghost before = rows@;
        rows.push(((part[i].0.0.clone(), part[i].0.1), sum));
        proof {
            assert forall|j: int| 0 <= j <= i implies (#[trigger] hour_entries(rows@)[j]).0 == hour_entries(part@)[j].0
                && hour_sums()(
                value_or(hours(*table), hour_entries(part@)[j].0, crate::accumulators::no_traffic()),
                part@[j].1,
                rows@[j].1,
            ) by {
                if j < i {
                    assert(hour_entries(before)[j] == hour_entries(rows@)[j]);
                }
            }
        }
        i += 1;
    }
    proof {
        lemma_sums_flush(hours(*table), hour_entries(part@), crate::accumulators::no_traffic(), hour_sums(), hour_entries(rows@));
    }
    Some(rows)
}

/// The country code that is stored of a host: a new one unless it is unknown.
pub open spec fn merged_code(stored: Option<Seq<char>>, new: Seq<char>) -> Seq<char> {
    match stored {
        Some(s) => if new == "--"@ {
            s
        } else {
            new
        },
        None => new,
    }
}

/// The country code that is stored of a host.
pub fn merge_country_code(stored: Option<String>, new: &str) -> (r: String)
    ensures
        r@ == merged_code(
            match stored {
                Some(s) => Some(s@),
                None => None,
            },
            new@,
        ),
{
    match stored {
        Some(s) => if str_eq(new, "--") {
            s
        } else {
            new.to_owned()
        },
        None => new.to_owned(),
    }
}

/// The name that is stored of a country: the first one, but a known one in place of the unknown.
pub open spec fn merged_name(stored: Option<Seq<char>>, new: Seq<char>) -> Seq<char> {
    match stored {
        Some(s) => if s == "Unknown"@ {
            new
        } else {
            s
        },
        None => new,
    }
}

/// The name that is stored of a country.
pub fn merge_country_name(stored: Option<String>, new: &str) -> (r: String)
    ensures
        r@ == merged_name(
            match stored {
                Some(s) => Some(s@),
                None => None,
            },
            new@,
        ),
{
    match stored {
        Some(s) => if str_eq(s.as_str(), "Unknown") {
            new.to_owned()
        } else {
            s
        },
        None => new.to_owned(),
    }
}

/// The later of the time that is stored of a visitor and a new one.
pub fn merge_last_seen(stored: Option<i64>, ts: i64) -> (r: i64)
    ensures
        r == later_of(stored, ts),
{
    match stored {
        Some(s) => if ts > s {
            ts
        } else {
            s
        },
        None => ts,
    }
}

/// The time that a stored text says; zero where it is no number or does not fit.
pub open spec fn time_of_text(value: Seq<u8>) -> i64 {
    match int_value(value, true) {
        Some(n) => if i64::MIN <= n <= i64::MAX {
            n as i64
        } else {
            0
        },
        None => 0,
    }
}

/// The time of the last log entry that is stored; zero where none is.
pub fn last_log_ts(value: Option<&str>) -> (r: i64)
    ensures
        r == match value {
            Some(v) => time_of_text(v.spec_bytes()),
            None => 0,
        },
{
    let b = match value {
        Some(v) => v.as_bytes(),
        None => {
            return 0;
        },
    };
    let len: usize = b.len();
    let negative: bool = len > 0 && b[0] == MINUS;
    let from: usize = if len > 0 && (b[0] == PLUS || b[0] == MINUS) {
        1
    } else {
        0
    };
    if from == len {
        return 0;
    }
    let digits = slice_subrange(b, from, len);
    proof {
        assert(digits@ =~= if from == 1 {
            b@.skip(1)
        } else {
            b@
        });
    }
    match parse_u64(digits) {
        Some(n) => {
            if negative {
                if n <= COLUMN_MAX {
                    -(n as i64)
                } else if n == COLUMN_MAX + 1 {
                    i64::MIN
                } else {
                    0
                }
            } else if n <= COLUMN_MAX {
                n as i64
            } else {
                0
            }
        },
        None => 0,
    }
}

// ── Addresses of a day ──────────────────────────────────────────────────────

/// The addresses of a day; none where there is no such day.
pub open spec fn day_ips(m: Map<Seq<char>, IpSets>, date: Seq<char>) -> IpSets {
    match entry(m, date) {
        Some(s) => s,
        None => crate::bitmaps::no_ips(),
    }
}

/// `groups` lists the kinds and high halves of which there are addresses, each once.
pub open spec fn is_group_list(groups: Seq<(u8, u64)>, s: IpSets) -> bool {
    &&& groups.no_duplicates()
    &&& forall|kind: u8, hi: u64|
        groups.contains((kind, hi)) <==> #[trigger] has_group(s, kind, hi)
}

proof fn lemma_push_group(groups: Seq<(u8, u64)>, g: (u8, u64))
    requires
        groups.no_duplicates(),
        !groups.contains(g),
    ensures
        groups.push(g).no_duplicates(),
        forall|x: (u8, u64)| groups.push(g).contains(x) <==> groups.contains(x) || x == g,
{
    let after = groups.push(g);
    assert forall|x: (u8, u64)| after.contains(x) <==> groups.contains(x) || x == g by {
        if groups.contains(x) {
            let i = choose|i: int| 0 <= i < groups.len() && groups[i] == x;
            assert(after[i] == x);
        }
        assert(after[groups.len() as int] == g);
    }
}

fn groups_of(bitmaps: &IpBitmaps) -> (r: Vec<(u8, u64)>)
    ensures
        is_group_list(r@, bitmaps@),
{
    let ghost s = bitmaps@;
    let mut r: Vec<(u8, u64)> = Vec::new();
    if !v4_is_empty(&bitmaps.v4) {
        proof {
            lemma_push_group(r@, (KIND_V4, 0));
        }
        r.push((KIND_V4, 0));
    }
    let his = trees_keys(&bitmaps.v6);
    let mut i: usize = 0;
    while i < his.len()
        invariant
            0 <= i <= his@.len(),
            s == bitmaps@,
            is_key_listing(his@, s.v6.dom()),
            r@.no_duplicates(),
            forall|kind: u8, hi: u64|
                r@.contains((kind, hi)) <==> #[trigger] has_group(s, kind, hi) && (kind == KIND_V4
                    || his@.take(i as int).contains(hi)),
        decreases his@.len() - i,
    {
        let hi: u64 = his[i];
        let ghost before = r@;
        proof {
            assert(his@[i as int] == hi);
            assert(his@.contains(hi));
            assert(his@.take(i + 1) =~= his@.take(i as int).push(hi));
            assert forall|h: u64| his@.take(i + 1).contains(h) <==> his@.take(i as int).contains(h)
                || h == hi by {
                let part = his@.take(i as int);
                let more = his@.take(i + 1);
                if part.contains(h) {
                    let j = choose|j: int| 0 <= j < part.len() && part[j] == h;
                    assert(more[j] == h);
                }
                assert(more[i as int] == hi);
            }
            assert(!his@.take(i as int).contains(hi)) by {
                assert forall|j: int| 0 <= j < i implies his@[j] != hi by {
                    assert(his@[j] != his@[i as int]);
                }
            }
        }
        if let Some(t) = trees_get(&bitmaps.v6, hi) {
            if !v6_is_empty(t) {
                proof {
                    assert(has_group(s, KIND_V6, hi));
                    assert(!r@.contains((KIND_V6, hi)));
                    lemma_push_group(r@, (KIND_V6, hi));
                }
                r.push((KIND_V6, hi));
            }
        }
        proof {
            assert forall|kind: u8, h: u64| r@.contains((kind, h)) <==> #[trigger] has_group(
                s,
                kind,
                h,
            ) && (kind == KIND_V4 || his@.take(i + 1).contains(h)) by {
                assert(before.contains((kind, h)) <==> has_group(s, kind, h) && (kind == KIND_V4
                    || his@.take(i as int).contains(h)));
                assert(r@.contains((kind, h)) <==> before.contains((kind, h)) || (kind == KIND_V6
                    && h == hi && has_group(s, KIND_V6, hi)));
            }
        }
        i += 1;
    }
    proof {
        assert forall|kind: u8, hi: u64| r@.contains((kind, hi)) <==> #[trigger] has_group(
            s,
            kind,
            hi,
        ) by {
            if has_group(s, kind, hi) && kind != KIND_V4 {
                assert(his@.contains(hi));
                assert(his@.take(i as int) =~= his@);
            }
        }
    }
    r
}

/// The days of which there are addresses to be stored.
pub fn flushed_days(daily_ips: &DayMap) -> (r: Vec<String>)
    ensures
        is_key_listing(text_keys(r@), days(*daily_ips).dom()),
{
    days_keys(daily_ips)
}

/// The rows of a day that addresses are to be added to, by kind and high half.
pub fn day_groups(daily_ips: &DayMap, date: &str) -> (r: Vec<(u8, u64)>)
    ensures
        is_group_list(r@, day_ips(days(*daily_ips), date@)),
{
    match days_get(daily_ips, date) {
        Some(b) => groups_of(b),
        None => {
            let r: Vec<(u8, u64)> = Vec::new();
            assert forall|kind: u8, hi: u64| r@.contains((kind, hi)) <==> #[trigger] has_group(
                crate::bitmaps::no_ips(),
                kind,
                hi,
            ) by {}
            r
        },
    }
}

/// Adds the addresses of a day, of one kind and high half, to those that are stored.
pub fn merge_day(
    daily_ips: &DayMap,
    date: &str,
    kind: u8,
    hi: u64,
    existing: Option<Vec<u8>>,
) -> (r: Result<(u64, Vec<u8>), BitmapError>)
    requires
        has_group(day_ips(days(*daily_ips), date@), kind, hi),
    ensures
        ({
            let s = day_ips(days(*daily_ips), date@);
            if kind == KIND_V4 {
                is_merged_v4(stored_v4(existing), s.v4, r)
            } else {
                is_merged_v6(stored_v6(existing), s.v6[hi], r)
            }
        }),
{
    match days_get(daily_ips, date) {
        Some(b) => {
            if kind == KIND_V4 {
                merge_v4(existing, &b.v4)
            } else {
                match trees_get(&b.v6, hi) {
                    Some(t) => merge_v6(existing, t),
                    None => Err(BitmapError::V6),
                }
            }
        },
        None => Err(BitmapError::V4),
    }
}

} // verus!
