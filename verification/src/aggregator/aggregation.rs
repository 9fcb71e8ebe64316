//! What one log entry adds to the totals.

use std::sync::Arc;

use vstd::prelude::*;
use vstd::string::*;
use vstd::utf8::*;

use crate::ip::{ip_of, Ip};
use super::messages::{HideMask, ParsedEntry};
use super::{Processor, ProcessorConfig, VisitView, VISIT_TIMEOUT_SECONDS};
use crate::accumulators::{no_traffic, HourlyStats};
use crate::bitmaps::{no_ips, with_ip, IpBitmaps, IpSets};
use crate::geo::{country_in, unknown, unknown_country};
use crate::maps::{
    codes, codes_get, codes_put, counts, counts_get, counts_put, days, days_put, days_take, entry,
    hosts, hosts_get, hosts_put, hours, hours_get, hours_put, pairs, pairs_get, pairs_put,
    periods, periods_get, periods_put, visitor, visits, visits_get, visits_put, CodeMap, CountMap,
    DayMap, HourMap, PairMap, VisitMap,
};
use crate::method_proto::{method_index, method_slot, proto_index, proto_slot};
use crate::mmdb::RecordView;
use crate::parser::combined::{find_key, is_digit};
use crate::parser::{days_from_civil, march_days, EntryView, LogEntry};
use crate::run_accumulators::{AccView, RunAccumulators};
use crate::text::{
    bytes_eq, find_byte, find_last_byte, last_before, lemma_ascii_boundary,
    lemma_boundary_after_ascii, lemma_boundary_ends, lemma_last_before, lemma_until, matches_at,
    push_dec, push_two_digits, slice_str, two_digits, dec_text, until, COLON, DOT, MINUS, NINE,
    PLUS, QUESTION, SLASH, ZERO,
};

verus! {

// ── URLs and paths ──────────────────────────────────────────────────────────

/// A path without its query string.
pub open spec fn path_part(path: Seq<u8>) -> Seq<u8> {
    path.take(until(path, 0, QUESTION))
}

/// Strips the query string from a path.
pub fn strip_query(path: &str) -> (r: &str)
    ensures
        r.spec_bytes() == path_part(path.spec_bytes()),
{
    let b = path.as_bytes();
    match find_byte(QUESTION, b) {
        Some(i) => {
            proof {
                lemma_until(b@, 0, QUESTION);
                lemma_boundary_ends(path);
                lemma_ascii_boundary(path, i as int);
            }
            slice_str(path, 0, i)
        },
        None => {
            assert(b@.take(b@.len() as int) =~= b@);
            path
        },
    }
}

/// The last component of a path.
pub open spec fn last_component(path: Seq<u8>) -> Seq<u8> {
    path.skip(last_before(path, path.len() as int, SLASH) + 1)
}

/// A file name from its last dot on; empty without a dot.
pub open spec fn from_last_dot(name: Seq<u8>) -> Seq<u8> {
    let dot = last_before(name, name.len() as int, DOT);
    if dot < 0 {
        Seq::empty()
    } else {
        name.skip(dot)
    }
}

/// The file extension of a path's last component, with its dot; empty without one.
pub fn file_ext(path: &str) -> (r: &str)
    ensures
        r.spec_bytes() == from_last_dot(last_component(path.spec_bytes())),
{
    let b = path.as_bytes();
    let len: usize = b.len();
    proof {
        lemma_last_before(b@, b@.len() as int, SLASH);
        lemma_boundary_ends(path);
    }
    let start: usize = match find_last_byte(SLASH, b) {
        Some(p) => {
            proof {
                lemma_boundary_after_ascii(path, p as int);
            }
            p + 1
        },
        None => 0,
    };
    let name = slice_str(path, start, len);
    assert(name.spec_bytes() =~= last_component(b@));
    let nb = name.as_bytes();
    match find_last_byte(DOT, nb) {
        Some(i) => {
            proof {
                lemma_last_before(nb@, nb@.len() as int, DOT);
                lemma_boundary_ends(name);
                lemma_ascii_boundary(name, i as int);
            }
            let r = slice_str(name, i, nb.len());
            assert(r.spec_bytes() =~= from_last_dot(nb@));
            r
        },
        None => {
            proof {
                reveal_strlit("");
            }
            let r = "";
            assert(r@ =~= Seq::<char>::empty());
            assert(r.spec_bytes() =~= Seq::<u8>::empty());
            r
        },
    }
}

/// The extension belongs to a file rather than a page.
pub open spec fn is_file_ext(ext: Seq<u8>) -> bool {
    ||| ext == ".css".spec_bytes()
    ||| ext == ".js".spec_bytes()
    ||| ext == ".png".spec_bytes()
    ||| ext == ".jpg".spec_bytes()
    ||| ext == ".jpeg".spec_bytes()
    ||| ext == ".gif".spec_bytes()
    ||| ext == ".webp".spec_bytes()
    ||| ext == ".svg".spec_bytes()
    ||| ext == ".ico".spec_bytes()
    ||| ext == ".otf".spec_bytes()
    ||| ext == ".woff".spec_bytes()
    ||| ext == ".woff2".spec_bytes()
    ||| ext == ".ttf".spec_bytes()
    ||| ext == ".eot".spec_bytes()
    ||| ext == ".mp4".spec_bytes()
    ||| ext == ".mp3".spec_bytes()
    ||| ext == ".zip".spec_bytes()
    ||| ext == ".tar".spec_bytes()
    ||| ext == ".gz".spec_bytes()
    ||| ext == ".br".spec_bytes()
    ||| ext == ".pdf".spec_bytes()
    ||| ext == ".xml".spec_bytes()
    ||| ext == ".json".spec_bytes()
    ||| ext == ".txt".spec_bytes()
}

/// Whether an extension belongs to a file rather than a page.
pub fn is_file_extension(ext: &str) -> (r: bool)
    ensures
        r == is_file_ext(ext.spec_bytes()),
{
    let e = ext.as_bytes();
    bytes_eq(e, ".css".as_bytes()) || bytes_eq(e, ".js".as_bytes()) || bytes_eq(
        e,
        ".png".as_bytes(),
    ) || bytes_eq(e, ".jpg".as_bytes()) || bytes_eq(e, ".jpeg".as_bytes()) || bytes_eq(
        e,
        ".gif".as_bytes(),
    ) || bytes_eq(e, ".webp".as_bytes()) || bytes_eq(e, ".svg".as_bytes()) || bytes_eq(
        e,
        ".ico".as_bytes(),
    ) || bytes_eq(e, ".otf".as_bytes()) || bytes_eq(e, ".woff".as_bytes()) || bytes_eq(
        e,
        ".woff2".as_bytes(),
    ) || bytes_eq(e, ".ttf".as_bytes()) || bytes_eq(e, ".eot".as_bytes()) || bytes_eq(
        e,
        ".mp4".as_bytes(),
    ) || bytes_eq(e, ".mp3".as_bytes()) || bytes_eq(e, ".zip".as_bytes()) || bytes_eq(
        e,
        ".tar".as_bytes(),
    ) || bytes_eq(e, ".gz".as_bytes()) || bytes_eq(e, ".br".as_bytes()) || bytes_eq(
        e,
        ".pdf".as_bytes(),
    ) || bytes_eq(e, ".xml".as_bytes()) || bytes_eq(e, ".json".as_bytes()) || bytes_eq(
        e,
        ".txt".as_bytes(),
    )
}

/// A byte that ends the host of a URL.
pub open spec fn ends_host(c: u8) -> bool {
    c == SLASH || c == COLON || c == QUESTION
}

/// The first position at or after `i` that ends the host, or the length of `b`.
pub open spec fn host_end(b: Seq<u8>, i: int) -> int
    decreases b.len() - i,
{
    if 0 <= i < b.len() && !ends_host(b[i]) {
        host_end(b, i + 1)
    } else {
        i
    }
}

/// The host of a URL: what stands between `://` and the next slash, colon or question mark. `None`
/// without a scheme, or where nothing stands there.
pub open spec fn host_of(url: Seq<u8>) -> Option<Seq<u8>> {
    match find_key(url, "://".spec_bytes(), 0) {
        Some(at) => {
            let start = at + 3;
            let end = host_end(url, start);
            if start < url.len() && end > start {
                Some(url.subrange(start, end))
            } else {
                None
            }
        },
        None => None,
    }
}

/// A shared text by its bytes, where there is one.
pub open spec fn opt_bytes(s: Option<Arc<String>>) -> Option<Seq<u8>> {
    match s {
        Some(s) => Some(encode_utf8((*s)@)),
        None => None,
    }
}

proof fn lemma_scheme_literal()
    ensures
        "://".spec_bytes() == seq![COLON, SLASH, SLASH],
{
    reveal_strlit("://");
    is_ascii_spec_bytes("://");
    assert("://".spec_bytes() =~= seq![COLON, SLASH, SLASH]);
}

/// Extracts the host of a URL.
pub fn extract_host_from_url(url: &str) -> (r: Option<Arc<String>>)
    ensures
        opt_bytes(r) == host_of(url.spec_bytes()),
{
    let b = url.as_bytes();
    let len: usize = b.len();
    proof {
        lemma_scheme_literal();
    }
    if len < 3 {
        return None;
    }
    let last: usize = len - 3;
    let mut i: usize = 0;
    while i <= last && !matches_at(b, i, "://".as_bytes())
        invariant
            len == b@.len(),
            last + 3 == len,
            0 <= i <= last + 1,
            "://".spec_bytes().len() == 3,
            find_key(b@, "://".spec_bytes(), 0) == find_key(b@, "://".spec_bytes(), i as int),
        decreases last + 1 - i,
    {
        i += 1;
    }
    if i > last {
        return None;
    }
    let start: usize = i + 3;
    if start >= len {
        return None;
    }
    let mut end: usize = start;
    while end < len && b[end] != SLASH && b[end] != COLON && b[end] != QUESTION
        invariant
            len == b@.len(),
            start <= end <= len,
            host_end(b@, start as int) == host_end(b@, end as int),
        decreases len - end,
    {
        end += 1;
    }
    if end == start {
        return None;
    }
    proof {
        assert(b@[start - 1] == b@.subrange(i as int, i + 3)[2]);
        lemma_boundary_after_ascii(url, start - 1);
        lemma_boundary_ends(url);
        if end < len {
            lemma_ascii_boundary(url, end as int);
        }
    }
    let host = slice_str(url, start, end);
    Some(Arc::new(host.to_owned()))
}

// ── Digits ──────────────────────────────────────────────────────────────────

/// The two-digit number at position `i`.
pub open spec fn two_at(b: Seq<u8>, i: int) -> Option<int> {
    if is_digit(b[i]) && is_digit(b[i + 1]) {
        Some((b[i] - ZERO) * 10 + (b[i + 1] - ZERO))
    } else {
        None
    }
}

/// The four-digit number at position `i`.
pub open spec fn four_at(b: Seq<u8>, i: int) -> Option<int> {
    if is_digit(b[i]) && is_digit(b[i + 1]) && is_digit(b[i + 2]) && is_digit(b[i + 3]) {
        Some(
            (b[i] - ZERO) * 1000 + (b[i + 1] - ZERO) * 100 + (b[i + 2] - ZERO) * 10 + (b[i + 3]
                - ZERO),
        )
    } else {
        None
    }
}

/// Reads two ASCII digits.
pub fn parse_2d(b: &[u8], i: usize) -> (r: Option<u8>)
    requires
        i + 2 <= b@.len(),
    ensures
        match r {
            Some(v) => two_at(b@, i as int) == Some(v as int) && v <= 99,
            None => two_at(b@, i as int) is None,
        },
{
    let len: usize = b.len();
    let x: u8 = b[i];
    let y: u8 = b[i + 1];
    if x < ZERO || x > NINE || y < ZERO || y > NINE {
        return None;
    }
    Some((x - ZERO) * 10 + (y - ZERO))
}

/// Reads four ASCII digits.
pub fn parse_4d(b: &[u8], i: usize) -> (r: Option<i32>)
    requires
        i + 4 <= b@.len(),
    ensures
        match r {
            Some(v) => four_at(b@, i as int) == Some(v as int) && 0 <= v <= 9999,
            None => four_at(b@, i as int) is None,
        },
{
    let len: usize = b.len();
    let x0: u8 = b[i];
    let x1: u8 = b[i + 1];
    let x2: u8 = b[i + 2];
    let x3: u8 = b[i + 3];
    if x0 < ZERO || x0 > NINE || x1 < ZERO || x1 > NINE || x2 < ZERO || x2 > NINE || x3 < ZERO
        || x3 > NINE {
        return None;
    }
    Some(
        (x0 - ZERO) as i32 * 1000 + (x1 - ZERO) as i32 * 100 + (x2 - ZERO) as i32 * 10 + (x3
            - ZERO) as i32,
    )
}

// ── Visitors ────────────────────────────────────────────────────────────────

/// The larger of what is stored and a new time.
pub open spec fn later_of(stored: Option<i64>, ts: i64) -> i64 {
    match stored {
        Some(v) => if ts > v {
            ts
        } else {
            v
        },
        None => ts,
    }
}

/// Keeps the latest time of a visitor.
pub fn merge_max(map: &mut VisitMap, key: &(u8, u64, u64, String), ts: i64)
    ensures
        visits(*final(map)) == visits(*old(map)).insert(
            visitor(*key),
            later_of(entry(visits(*old(map)), visitor(*key)), ts),
        ),
{
    match visits_get(map, key) {
        Some(v) => {
            if ts > v {
                visits_put(map, key, ts);
            } else {
                assert(visits(*map) =~= visits(*old(map)).insert(visitor(*key), v));
            }
        },
        None => visits_put(map, key, ts),
    }
}

/// The key of the visitor behind a host field: the address, or the text where it is none.
pub open spec fn visitor_of(host: Seq<u8>) -> (u8, u64, u64, Seq<char>) {
    match ip_of(host) {
        Some(ip) => (ip.key().0, ip.key().1, ip.key().2, Seq::empty()),
        None => (0, 0, 0, decode_utf8(host)),
    }
}

/// The key of the visitor behind a host field, and its address if it is one.
pub fn visit_state_key(host: &str) -> (r: ((u8, u64, u64, String), Option<Ip>))
    ensures
        visitor(r.0) == visitor_of(host.spec_bytes()),
        r.1 == ip_of(host.spec_bytes()),
{
    match Ip::parse(host) {
        Some(ip) => ((ip.kind(), ip.hi(), ip.lo(), String::new()), Some(ip)),
        None => {
            proof {
                encode_utf8_decode_utf8(host@);
            }
            ((0, 0, 0, host.to_owned()), None)
        },
    }
}

// ── Periods ─────────────────────────────────────────────────────────────────

/// A month as it stands in a period name; nothing for month zero.
pub open spec fn month_text(m: int) -> Seq<char> {
    if m == 0 {
        Seq::empty()
    } else {
        two_digits(m)
    }
}

/// The name of a month's period.
pub open spec fn month_name_of(year: int, m: int) -> Seq<char> {
    dec_text(year as nat) + "-"@ + month_text(m)
}

/// The name of a day.
pub open spec fn date_name_of(year: int, m: int, day: int) -> Seq<char> {
    month_name_of(year, m) + "-"@ + two_digits(day)
}

fn month_string(year: i32, m: u8) -> (r: String)
    requires
        0 <= year <= 9999,
        m <= 12,
    ensures
        r@ == month_name_of(year as int, m as int),
{
    let mut s = String::new();
    push_dec(&mut s, year as u64);
    s.append("-");
    if m != 0 {
        push_two_digits(&mut s, m as u64);
    }
    assert(s@ =~= month_name_of(year as int, m as int));
    s
}

/// A text where there is one.
pub open spec fn opt_chars(s: Option<String>) -> Option<Seq<char>> {
    match s {
        Some(s) => Some(s@),
        None => None,
    }
}

/// The month that a timestamp belongs to; `None` where it has no year.
pub open spec fn entry_month_of(time: Seq<u8>, m: int) -> Option<Seq<char>> {
    if time.len() < 11 {
        None
    } else {
        match four_at(time, 7) {
            Some(year) => Some(month_name_of(year, m)),
            None => None,
        }
    }
}

/// The `YYYY-MM` month of a log timestamp and its month number.
pub fn entry_month(time_str: &str, mon_num: u8) -> (r: Option<String>)
    requires
        mon_num <= 12,
    ensures
        opt_chars(r) == entry_month_of(time_str.spec_bytes(), mon_num as int),
{
    let b = time_str.as_bytes();
    if b.len() < 11 {
        return None;
    }
    match parse_4d(b, 7) {
        Some(year) => Some(month_string(year, mon_num)),
        None => None,
    }
}

/// The periods that a timestamp belongs to.
pub struct Periods {
    pub date: Arc<String>,
    pub hour: u8,
    pub month: Arc<String>,
    pub ts: i64,
}

/// The periods that a timestamp belongs to, by their values.
pub struct PeriodsView {
    pub date: Seq<char>,
    pub hour: int,
    pub month: Seq<char>,
    pub ts: int,
}

impl Periods {
    pub open spec fn view(&self) -> PeriodsView {
        PeriodsView {
            date: (*self.date)@,
            hour: self.hour as int,
            month: (*self.month)@,
            ts: self.ts as int,
        }
    }
}

/// Periods where there are any.
pub open spec fn opt_periods(p: Option<Periods>) -> Option<PeriodsView> {
    match p {
        Some(p) => Some(p@),
        None => None,
    }
}

/// The offset from UTC at the end of a timestamp, in seconds.
pub open spec fn offset_of(time: Seq<u8>) -> Option<int> {
    match (two_at(time, 22), two_at(time, 24)) {
        (Some(h), Some(m)) => if time[21] == PLUS {
            Some(h * 3600 + m * 60)
        } else if time[21] == MINUS {
            Some(-(h * 3600 + m * 60))
        } else {
            None
        },
        _ => None,
    }
}

/// The periods of a timestamp `DD/Mon/YYYY:HH:MM:SS +HHMM`: the local date, hour and month, and the
/// Unix time. `None` where a field is not made of digits.
pub open spec fn periods_of(time: Seq<u8>, m: int) -> Option<PeriodsView> {
    if time.len() < 26 {
        None
    } else {
        match (
            two_at(time, 0),
            four_at(time, 7),
            two_at(time, 12),
            two_at(time, 15),
            two_at(time, 18),
            offset_of(time),
        ) {
            (
                Some(day),
                Some(year),
                Some(hour),
                Some(minute),
                Some(second),
                Some(offset),
            ) => Some(
                PeriodsView {
                    date: date_name_of(year, m, day),
                    hour,
                    month: month_name_of(year, m),
                    ts: march_days(year, m, day) * 86_400 + hour * 3_600 + minute * 60 + second
                        - offset,
                },
            ),
            _ => None,
        }
    }
}

/// The key under which the names of an hour's periods are kept.
pub open spec fn period_key(year: int, m: int, day: int, hour: int) -> int {
    year * 1_000_000 + m * 10_000 + day * 100 + hour
}

/// The period cache holds under each key the names of that key's date and month.
pub open spec fn period_cache_ok(cache: Map<u64, (Seq<char>, Seq<char>)>) -> bool {
    forall|k: u64| #[trigger]
        cache.dom().contains(k) ==> cache[k] == (
            date_name_of(k as int / 1_000_000, (k as int / 10_000) % 100, (k as int / 100) % 100),
            month_name_of(k as int / 1_000_000, (k as int / 10_000) % 100),
        )
}

/// The host cache holds under each URL the host of that URL.
pub open spec fn host_cache_ok(cache: Map<Seq<char>, Seq<char>>) -> bool {
    forall|u: Seq<char>| #[trigger]
        cache.dom().contains(u) ==> host_of(encode_utf8(u)) == Some(encode_utf8(cache[u]))
}

/// The fields of a timestamp that name its periods, and its Unix time.
struct TimeFields {
    day: u8,
    year: i32,
    hour: u8,
    ts: i64,
}

fn decode_time(b: &[u8], mon_num: u8) -> (r: Option<TimeFields>)
    requires
        mon_num <= 12,
    ensures
        match r {
            Some(f) => {
                &&& 0 <= f.year <= 9999
                &&& f.day <= 99
                &&& f.hour <= 99
                &&& periods_of(b@, mon_num as int) == Some(
                    PeriodsView {
                        date: date_name_of(f.year as int, mon_num as int, f.day as int),
                        hour: f.hour as int,
                        month: month_name_of(f.year as int, mon_num as int),
                        ts: f.ts as int,
                    },
                )
            },
            None => periods_of(b@, mon_num as int) is None,
        },
{
    if b.len() < 26 {
        return None;
    }
    let (day, year, hour, minute, second, tz_hour, tz_min) = match (
        parse_2d(b, 0),
        parse_4d(b, 7),
        parse_2d(b, 12),
        parse_2d(b, 15),
        parse_2d(b, 18),
        parse_2d(b, 22),
        parse_2d(b, 24),
    ) {
        (Some(d), Some(y), Some(h), Some(m), Some(s), Some(th), Some(tm)) => (
            d,
            y,
            h,
            m,
            s,
            th,
            tm,
        ),
        _ => return None,
    };
    let magnitude: i64 = tz_hour as i64 * 3600 + tz_min as i64 * 60;
    let offset: i64 = if b[21] == PLUS {
        magnitude
    } else if b[21] == MINUS {
        -magnitude
    } else {
        return None;
    };
    let days: i64 = days_from_civil(year, mon_num as u32, day as u32);
    let ts: i64 = days * 86_400 + hour as i64 * 3_600 + minute as i64 * 60 + second as i64 - offset;
    Some(TimeFields { day, year, hour, ts })
}

proof fn lemma_period_key(year: int, m: int, day: int, hour: int)
    requires
        0 <= year <= 9999,
        0 <= m <= 12,
        0 <= day <= 99,
        0 <= hour <= 99,
    ensures
        period_key(year, m, day, hour) / 1_000_000 == year,
        (period_key(year, m, day, hour) / 10_000) % 100 == m,
        (period_key(year, m, day, hour) / 100) % 100 == day,
{
    let k = period_key(year, m, day, hour);
    assert(k / 100 == year * 10_000 + m * 100 + day);
    assert(k / 10_000 == year * 100 + m);
}

impl Processor {
    /// The periods of a timestamp. The names of an hour's periods are made once.
    pub fn time_periods_with_timestamp(&mut self, time_str: &str, mon_num: u8) -> (r: Option<
        Periods,
    >)
        requires
            old(self).wf(),
            mon_num <= 12,
        ensures
            final(self).wf(),
            opt_periods(r) == periods_of(time_str.spec_bytes(), mon_num as int),
            r is None ==> final(self).time_cache == old(self).time_cache,
            r matches Some(p) ==> exists|k: u64|
                k % 100 == p.hour && #[trigger] periods(old(self).time_cache).insert(
                    k,
                    ((*p.date)@, (*p.month)@),
                ) == periods(final(self).time_cache),
            final(self).referer_cache == old(self).referer_cache,
            final(self).config == old(self).config,
            final(self).geo == old(self).geo,
            final(self).checkpoint_every_secs == old(self).checkpoint_every_secs,
            final(self).visits() == old(self).visits(),
            r matches Some(p) ==> p.hour <= 99,
    {
        let (day, year, hour, ts) = match decode_time(time_str.as_bytes(), mon_num) {
            Some(f) => (f.day, f.year, f.hour, f.ts),
            None => return None,
        };
        let key: u64 = year as u64 * 1_000_000 + mon_num as u64 * 10_000 + day as u64 * 100
            + hour as u64;
        proof {
            lemma_period_key(year as int, mon_num as int, day as int, hour as int);
        }
        match periods_get(&self.time_cache, key) {
            Some(names) => {
                assert(periods(self.time_cache) =~= periods(self.time_cache).insert(
                    key,
                    ((*names.0)@, (*names.1)@),
                ));
                Some(Periods { date: names.0, hour, month: names.1, ts })
            },
            None => {
                let month = month_string(year, mon_num);
                let mut date = month_string(year, mon_num);
                date.append("-");
                push_two_digits(&mut date, day as u64);
                assert(date@ =~= date_name_of(year as int, mon_num as int, day as int));
                let date = Arc::new(date);
                let month = Arc::new(month);
                periods_put(&mut self.time_cache, key, (date.clone(), month.clone()));
                Some(Periods { date, hour, month, ts })
            },
        }
    }

    /// The host of a referring URL. The host of a URL is found once.
    pub fn extract_host(&mut self, url: &str) -> (r: Option<Arc<String>>)
        requires
            old(self).wf(),
        ensures
            final(self).wf(),
            opt_bytes(r) == host_of(url.spec_bytes()),
            hosts(final(self).referer_cache) == match r {
                Some(host) => hosts(old(self).referer_cache).insert(url@, (*host)@),
                None => hosts(old(self).referer_cache),
            },
            final(self).config == old(self).config,
            final(self).geo == old(self).geo,
            final(self).checkpoint_every_secs == old(self).checkpoint_every_secs,
            final(self).time_cache == old(self).time_cache,
            final(self).visits() == old(self).visits(),
    {
        match hosts_get(&self.referer_cache, url) {
            Some(found) => {
                assert(hosts(self.referer_cache) =~= hosts(self.referer_cache).insert(
                    url@,
                    (*found)@,
                ));
                Some(found)
            },
            None => match extract_host_from_url(url) {
                Some(host) => {
                    hosts_put(&mut self.referer_cache, url, host.clone());
                    Some(host)
                },
                None => None,
            },
        }
    }
}

// ── Adding to totals ────────────────────────────────────────────────────────

/// A pair of hits and bandwidth after one more request.
pub open spec fn pair_after(v: Option<(u64, u64)>, bytes: u64) -> (u64, u64) {
    match v {
        Some(p) => ((p.0 + 1) as u64, (p.1 + bytes) as u64),
        None => (1, bytes),
    }
}

/// Hits and bandwidth per text after one more request for `k`.
pub open spec fn bumped(m: Map<Seq<char>, (u64, u64)>, k: Seq<char>, bytes: u64) -> Map<
    Seq<char>,
    (u64, u64),
> {
    m.insert(k, pair_after(entry(m, k), bytes))
}

/// A count after one more.
pub open spec fn count_after(v: Option<u64>) -> u64 {
    match v {
        Some(n) => (n + 1) as u64,
        None => 1,
    }
}

/// Counts after one more of `k`.
pub open spec fn counted<K>(m: Map<K, u64>, k: K) -> Map<K, u64> {
    m.insert(k, count_after(entry(m, k)))
}

/// Slots after one more in slot `i`.
pub open spec fn slot_counted(s: Seq<u64>, i: int) -> Seq<u64> {
    s.update(i, (s[i] + 1) as u64)
}

/// Every pair has room for one more hit of `bytes`.
pub open spec fn pairs_fit(m: Map<Seq<char>, (u64, u64)>, bytes: u64) -> bool {
    forall|k: Seq<char>| #[trigger]
        m.dom().contains(k) ==> m[k].0 < u64::MAX && m[k].1 + bytes <= u64::MAX
}

/// Every count has room for one more.
pub open spec fn counts_fit<K>(m: Map<K, u64>) -> bool {
    forall|k: K| #[trigger] m.dom().contains(k) ==> m[k] < u64::MAX
}

/// Every slot has room for one more.
pub open spec fn slots_fit(s: Seq<u64>) -> bool {
    forall|i: int| 0 <= i < s.len() ==> #[trigger] s[i] < u64::MAX
}

/// An hour has room for one more request of `bytes`.
pub open spec fn hour_fits(h: HourlyStats, bytes: u64) -> bool {
    &&& h.hits < u64::MAX
    &&& h.visits < u64::MAX
    &&& h.bandwidth + bytes <= u64::MAX
    &&& h.files < u64::MAX
    &&& h.pages < u64::MAX
    &&& h.status_2xx < u64::MAX
    &&& h.status_3xx < u64::MAX
    &&& h.status_4xx < u64::MAX
    &&& h.status_5xx < u64::MAX
}

/// Every hour has room for one more request of `bytes`.
pub open spec fn hours_fit(m: Map<(Seq<char>, u8), HourlyStats>, bytes: u64) -> bool {
    forall|k: (Seq<char>, u8)| #[trigger] m.dom().contains(k) ==> hour_fits(m[k], bytes)
}

/// No counter overflows when an entry of `bytes` is added.
pub open spec fn totals_fit(acc: AccView, bytes: u64) -> bool {
    &&& hours_fit(acc.hourly, bytes)
    &&& pairs_fit(acc.urls, bytes)
    &&& pairs_fit(acc.hosts, bytes)
    &&& pairs_fit(acc.agents, bytes)
    &&& pairs_fit(acc.countries, bytes)
    &&& counts_fit(acc.refs)
    &&& counts_fit(acc.status_codes)
    &&& slots_fit(acc.method_counts)
    &&& slots_fit(acc.protocol_counts)
}

fn add_pair(m: &mut PairMap, k: &str, bytes: u64)
    requires
        pairs_fit(pairs(*old(m)), bytes),
    ensures
        pairs(*final(m)) == bumped(pairs(*old(m)), k@, bytes),
{
    let v = match pairs_get(m, k) {
        Some(p) => (p.0 + 1, p.1 + bytes),
        None => (1, bytes),
    };
    pairs_put(m, k, v);
}

fn add_count(m: &mut CountMap, k: &str)
    requires
        counts_fit(counts(*old(m))),
    ensures
        counts(*final(m)) == counted(counts(*old(m)), k@),
{
    let n: u64 = match counts_get(m, k) {
        Some(n) => n + 1,
        None => 1,
    };
    counts_put(m, k, n);
}

fn add_code(m: &mut CodeMap, k: u16)
    requires
        counts_fit(codes(*old(m))),
    ensures
        codes(*final(m)) == counted(codes(*old(m)), k),
{
    let n: u64 = match codes_get(m, k) {
        Some(n) => n + 1,
        None => 1,
    };
    codes_put(m, k, n);
}

/// The addresses of a day after one more.
pub open spec fn day_counted(m: Map<Seq<char>, IpSets>, date: Seq<char>, ip: Ip) -> Map<
    Seq<char>,
    IpSets,
> {
    m.insert(
        date,
        with_ip(
            match entry(m, date) {
                Some(s) => s,
                None => no_ips(),
            },
            ip,
        ),
    )
}

fn add_ip(m: &mut DayMap, date: &str, ip: Ip)
    ensures
        days(*final(m)) == day_counted(days(*old(m)), date@, ip),
{
    let mut b = match days_take(m, date) {
        Some(b) => b,
        None => IpBitmaps::new(),
    };
    b.insert(ip);
    days_put(m, date, b);
    assert(days(*m) =~= day_counted(days(*old(m)), date@, ip));
}

/// An hour after one more request: its status class, and for a successful one whether it was for a
/// file or a page.
pub open spec fn hour_after(h: HourlyStats, e: EntryView, new_visit: bool) -> HourlyStats {
    let class = e.status / 100;
    let file = is_file_ext(from_last_dot(last_component(path_part(e.path))));
    HourlyStats {
        hits: (h.hits + 1) as u64,
        visits: if new_visit {
            (h.visits + 1) as u64
        } else {
            h.visits
        },
        bandwidth: (h.bandwidth + e.bytes) as u64,
        files: if class == 2 && file {
            (h.files + 1) as u64
        } else {
            h.files
        },
        pages: if class == 2 && !file {
            (h.pages + 1) as u64
        } else {
            h.pages
        },
        status_2xx: if class == 2 {
            (h.status_2xx + 1) as u64
        } else {
            h.status_2xx
        },
        status_3xx: if class == 3 {
            (h.status_3xx + 1) as u64
        } else {
            h.status_3xx
        },
        status_4xx: if class == 4 {
            (h.status_4xx + 1) as u64
        } else {
            h.status_4xx
        },
        status_5xx: if class != 2 && class != 3 && class != 4 {
            (h.status_5xx + 1) as u64
        } else {
            h.status_5xx
        },
    }
}

/// The traffic of an hour so far.
pub open spec fn hour_so_far(m: Map<(Seq<char>, u8), HourlyStats>, k: (Seq<char>, u8)) -> HourlyStats {
    match entry(m, k) {
        Some(h) => h,
        None => no_traffic(),
    }
}

fn add_hour(
    m: &mut HourMap,
    key: &(String, u8),
    e: &LogEntry,
    clean_path: &str,
    new_visit: bool,
)
    requires
        e.wf(),
        clean_path.spec_bytes() == path_part(e@.path),
        hours_fit(hours(*old(m)), e@.bytes),
    ensures
        hours(*final(m)) == hours(*old(m)).insert(
            (key.0@, key.1),
            hour_after(hour_so_far(hours(*old(m)), (key.0@, key.1)), e@, new_visit),
        ),
{
    let mut h: HourlyStats = match hours_get(m, key) {
        Some(h) => h,
        None => HourlyStats::default(),
    };
    proof {
        e.lemma_plain_fields();
    }
    if new_visit {
        h.visits = h.visits + 1;
    }
    h.hits = h.hits + 1;
    h.bandwidth = h.bandwidth + e.bytes;
    let class: u16 = e.status / 100;
    if class == 2 {
        h.status_2xx = h.status_2xx + 1;
        if is_file_extension(file_ext(clean_path)) {
            h.files = h.files + 1;
        } else {
            h.pages = h.pages + 1;
        }
    } else if class == 3 {
        h.status_3xx = h.status_3xx + 1;
    } else if class == 4 {
        h.status_4xx = h.status_4xx + 1;
    } else {
        h.status_5xx = h.status_5xx + 1;
    }
    hours_put(m, key, h);
}

// ── Visits ──────────────────────────────────────────────────────────────────

/// A request at `ts` starts a visit: the visitor is new, or was last seen longer ago than a visit
/// may pause.
pub open spec fn starts_visit(
    v: VisitView,
    key: (u8, u64, u64, Seq<char>),
    ts: i64,
) -> bool {
    match entry(v.last_seen, key) {
        Some(last) => ts - last > VISIT_TIMEOUT_SECONDS,
        None => true,
    }
}

/// The visitors after one more request.
pub open spec fn visits_after(
    v: VisitView,
    key: (u8, u64, u64, Seq<char>),
    ts: i64,
) -> VisitView {
    let last = later_of(entry(v.last_seen, key), ts);
    VisitView {
        last_seen: v.last_seen.insert(key, last),
        dirty: v.dirty.insert(key, later_of(entry(v.dirty, key), last)),
        max_seen: later_of(Some(v.max_seen), ts),
    }
}

impl Processor {
    /// Notes a request of a visitor, and whether it starts a visit.
    pub fn note_visit(&mut self, key: &(u8, u64, u64, String), ts: i64) -> (r: bool)
        ensures
            r == starts_visit(old(self).visits(), visitor(*key), ts),
            final(self).visits() == visits_after(old(self).visits(), visitor(*key), ts),
            final(self).config == old(self).config,
            final(self).geo == old(self).geo,
            final(self).checkpoint_every_secs == old(self).checkpoint_every_secs,
            final(self).time_cache == old(self).time_cache,
            final(self).referer_cache == old(self).referer_cache,
    {
        if ts > self.visit_max_seen_ts {
            self.visit_max_seen_ts = ts;
        }
        let seen = visits_get(&self.visit_last_seen, key);
        merge_max(&mut self.visit_last_seen, key, ts);
        match seen {
            Some(last) => {
                let latest: i64 = if ts > last {
                    ts
                } else {
                    last
                };
                merge_max(&mut self.visit_state_dirty, key, latest);
                ts as i128 - last as i128 > VISIT_TIMEOUT_SECONDS as i128
            },
            None => {
                merge_max(&mut self.visit_state_dirty, key, ts);
                true
            },
        }
    }

    /// The visitors and caches after an entry, and the totals with it added. An entry whose
    /// timestamp is not made of digits changes nothing.
    pub fn aggregate_entry(
        &mut self,
        parsed: &ParsedEntry,
        run_acc: &mut RunAccumulators,
    )
        requires
            old(self).wf(),
            old(run_acc).wf(),
            parsed.entry.wf(),
            parsed.entry@.month_num <= 12,
            totals_fit(old(run_acc)@, parsed.entry@.bytes),
        ensures
            final(self).wf(),
            final(run_acc).wf(),
            final(self).config == old(self).config,
            final(self).checkpoint_every_secs == old(self).checkpoint_every_secs,
            match periods_of(parsed.entry@.time, parsed.entry@.month_num as int) {
                None => {
                    &&& final(self).visits() == old(self).visits()
                    &&& final(self).geo == old(self).geo
                    &&& final(run_acc)@ == old(run_acc)@
                },
                Some(p) => {
                    let e = parsed.entry@;
                    let key = visitor_of(e.ip);
                    &&& final(self).visits() == visits_after(
                        old(self).visits(),
                        key,
                        p.ts as i64,
                    )
                    &&& final(self).geo@ == geo_after(old(self).geo@, old(self).geo.database(), e)
                    &&& final(self).geo.database() == old(self).geo.database()
                    &&& final(run_acc)@ == totals_after(
                        old(self).config,
                        old(run_acc)@,
                        e,
                        p,
                        (*parsed.ua_family)@,
                        parsed.hidden,
                        starts_visit(old(self).visits(), key, p.ts as i64),
                        code_of(old(self).geo.database(), e),
                    )
                },
            },
    {
        let e = &parsed.entry;
        proof {
            e.lemma_plain_fields();
        }
        let p = match self.time_periods_with_timestamp(e.time_str(), e.month_num) {
            Some(p) => p,
            None => return,
        };
        let (key, ip) = visit_state_key(e.ip());
        let new_visit: bool = self.note_visit(&key, p.ts);
        let code: Arc<String> = match ip {
            Some(addr) => self.geo.lookup(addr).0,
            None => unknown().0,
        };
        let host: Option<Arc<String>> = if self.config.enable_top_refs && !parsed.hidden.refs {
            self.extract_host(e.referer())
        } else {
            None
        };
        add_traffic(run_acc, e, &p, new_visit, ip);
        add_tables(run_acc, &self.config, parsed, &code, &host);
        proof {
            let config = self.config;
            let old_acc = old(run_acc)@;
            let view = totals_after(
                config,
                old_acc,
                e@,
                p@,
                (*parsed.ua_family)@,
                parsed.hidden,
                new_visit,
                (*code)@,
            );
            if host is Some {
                encode_utf8_decode_utf8((*host->0)@);
            }
            assert(run_acc@.refs =~= view.refs);
            assert(run_acc@ =~= view);
        }
    }
}

/// Adds what does not depend on the settings: the hour, the addresses of the day, and the status,
/// method and protocol counts.
fn add_traffic(
    run_acc: &mut RunAccumulators,
    e: &LogEntry,
    p: &Periods,
    new_visit: bool,
    ip: Option<Ip>,
)
    requires
        old(run_acc).wf(),
        e.wf(),
        totals_fit(old(run_acc)@, e@.bytes),
    ensures
        final(run_acc).wf(),
        final(run_acc)@ == (AccView {
            hourly: old(run_acc)@.hourly.insert(
                (p@.date, p@.hour as u8),
                hour_after(
                    hour_so_far(old(run_acc)@.hourly, (p@.date, p@.hour as u8)),
                    e@,
                    new_visit,
                ),
            ),
            daily_ips: match ip {
                Some(addr) => day_counted(old(run_acc)@.daily_ips, p@.date, addr),
                None => old(run_acc)@.daily_ips,
            },
            status_codes: counted(old(run_acc)@.status_codes, e@.status),
            method_counts: slot_counted(old(run_acc)@.method_counts, method_slot(e@.method)),
            protocol_counts: slot_counted(old(run_acc)@.protocol_counts, proto_slot(e@.proto)),
            ..old(run_acc)@
        }),
{
    proof {
        e.lemma_plain_fields();
    }
    let clean_path = strip_query(e.path());
    add_hour(&mut run_acc.hourly, &((*p.date).clone(), p.hour), e, clean_path, new_visit);
    if let Some(addr) = ip {
        add_ip(&mut run_acc.daily_ips, p.date.as_str(), addr);
    }
    add_code(&mut run_acc.status_codes, e.status);
    let m: usize = method_index(e.method());
    let n: u64 = run_acc.method_counts[m];
    run_acc.method_counts.set(m, n + 1);
    let q: usize = proto_index(e.proto());
    let n: u64 = run_acc.protocol_counts[q];
    run_acc.protocol_counts.set(q, n + 1);
}

/// Adds to the tables that the settings and the entry's mask leave in.
fn add_tables(
    run_acc: &mut RunAccumulators,
    config: &ProcessorConfig,
    parsed: &ParsedEntry,
    code: &Arc<String>,
    host: &Option<Arc<String>>,
)
    requires
        old(run_acc).wf(),
        parsed.entry.wf(),
        pairs_fit(old(run_acc)@.urls, parsed.entry@.bytes),
        pairs_fit(old(run_acc)@.hosts, parsed.entry@.bytes),
        pairs_fit(old(run_acc)@.agents, parsed.entry@.bytes),
        pairs_fit(old(run_acc)@.countries, parsed.entry@.bytes),
        counts_fit(old(run_acc)@.refs),
    ensures
        final(run_acc).wf(),
        final(run_acc)@ == (AccView {
            urls: if config.enable_top_urls && !parsed.hidden.urls {
                bumped(
                    old(run_acc)@.urls,
                    decode_utf8(path_part(parsed.entry@.path)),
                    parsed.entry@.bytes,
                )
            } else {
                old(run_acc)@.urls
            },
            hosts: if config.enable_top_sites && !parsed.hidden.hosts {
                bumped(old(run_acc)@.hosts, decode_utf8(parsed.entry@.ip), parsed.entry@.bytes)
            } else {
                old(run_acc)@.hosts
            },
            refs: match host {
                Some(h) => counted(old(run_acc)@.refs, (**h)@),
                None => old(run_acc)@.refs,
            },
            agents: if config.enable_top_agents && !parsed.hidden.agents {
                bumped(old(run_acc)@.agents, (*parsed.ua_family)@, parsed.entry@.bytes)
            } else {
                old(run_acc)@.agents
            },
            countries: if !parsed.hidden.countries {
                bumped(old(run_acc)@.countries, (**code)@, parsed.entry@.bytes)
            } else {
                old(run_acc)@.countries
            },
            ..old(run_acc)@
        }),
{
    let e = &parsed.entry;
    let hide = parsed.hidden;
    let ip = e.ip();
    let clean_path = strip_query(e.path());
    proof {
        e.lemma_plain_fields();
        encode_utf8_decode_utf8(clean_path@);
        encode_utf8_decode_utf8(ip@);
    }
    if config.enable_top_urls && !hide.urls {
        add_pair(&mut run_acc.urls, clean_path, e.bytes);
    }
    if config.enable_top_sites && !hide.hosts {
        add_pair(&mut run_acc.hosts, ip, e.bytes);
    }
    if config.enable_top_agents && !hide.agents {
        add_pair(&mut run_acc.agents, parsed.ua_family.as_str(), e.bytes);
    }
    if let Some(h) = host {
        add_count(&mut run_acc.refs, h.as_str());
    }
    if !hide.countries {
        add_pair(&mut run_acc.countries, code.as_str(), e.bytes);
    }
}

/// The country code of an entry: that of its address, or the unknown one where it has none.
pub open spec fn code_of(db: Map<(u8, u64, u64), RecordView>, e: EntryView) -> Seq<char> {
    match ip_of(e.ip) {
        Some(ip) => country_in(db, ip.key()).0,
        None => unknown_country().0,
    }
}

/// The country cache after an entry.
pub open spec fn geo_after(
    cache: Map<(u8, u64, u64), (Seq<char>, Seq<char>)>,
    db: Map<(u8, u64, u64), RecordView>,
    e: EntryView,
) -> Map<(u8, u64, u64), (Seq<char>, Seq<char>)> {
    match ip_of(e.ip) {
        Some(ip) => cache.insert(ip.key(), country_in(db, ip.key())),
        None => cache,
    }
}

/// The totals after an entry.
pub open spec fn totals_after(
    config: ProcessorConfig,
    acc: AccView,
    e: EntryView,
    p: PeriodsView,
    agent: Seq<char>,
    hide: HideMask,
    new_visit: bool,
    code: Seq<char>,
) -> AccView {
    let hour = (p.date, p.hour as u8);
    AccView {
        current_month: acc.current_month,
        hourly: acc.hourly.insert(
            hour,
            hour_after(hour_so_far(acc.hourly, hour), e, new_visit),
        ),
        urls: if config.enable_top_urls && !hide.urls {
            bumped(acc.urls, decode_utf8(path_part(e.path)), e.bytes)
        } else {
            acc.urls
        },
        hosts: if config.enable_top_sites && !hide.hosts {
            bumped(acc.hosts, decode_utf8(e.ip), e.bytes)
        } else {
            acc.hosts
        },
        refs: match host_of(e.referer) {
            Some(h) => if config.enable_top_refs && !hide.refs {
                counted(acc.refs, decode_utf8(h))
            } else {
                acc.refs
            },
            None => acc.refs,
        },
        agents: if config.enable_top_agents && !hide.agents {
            bumped(acc.agents, agent, e.bytes)
        } else {
            acc.agents
        },
        countries: if !hide.countries {
            bumped(acc.countries, code, e.bytes)
        } else {
            acc.countries
        },
        daily_ips: match ip_of(e.ip) {
            Some(ip) => day_counted(acc.daily_ips, p.date, ip),
            None => acc.daily_ips,
        },
        status_codes: counted(acc.status_codes, e.status),
        method_counts: slot_counted(acc.method_counts, method_slot(e.method)),
        protocol_counts: slot_counted(acc.protocol_counts, proto_slot(e.proto)),
    }
}

} // verus!
