//! What the totals of a run say of its entries: each counter is the number of the entries that it
//! stands for.

use vstd::prelude::*;
use vstd::string::*;
use vstd::utf8::{decode_utf8, encode_utf8_decode_utf8};

use super::aggregation::{
    ends_host, from_last_dot, host_end, host_of, hour_fits, hour_so_far, is_file_ext,
    last_component, path_part, visitor_of,
};
use super::totals::{after_all, all_fit, Counted};
use super::ProcessorConfig;
use crate::bitmaps::{has_ip, law_insert_ip, no_ips};
use crate::ip::{ip_of, law_key_identifies, Ip};
use crate::maps::entry;
use crate::method_proto::{
    method_slot, proto_slot, METHOD_COUNT, METHOD_DELETE, METHOD_GET, METHOD_HEAD, METHOD_OPTIONS,
    METHOD_PATCH, METHOD_POST, METHOD_PUT, PROTO_1_0, PROTO_1_1, PROTO_2_0,
    PROTO_3_0, PROTO_COUNT,
};
use crate::parser::combined::find_key;
use crate::parser::figures::ascii;
use crate::run_accumulators::AccView;
use crate::text::{
    last_before, lemma_last_before, lemma_until, occurs_at, until, DOT, QUESTION, SLASH,
};

verus! {

/// How many of the entries are of a kind.
pub open spec fn tally(items: Seq<Counted>, kind: spec_fn(Counted) -> bool) -> nat
    decreases items.len(),
{
    if items.len() == 0 {
        0
    } else {
        tally(items.drop_last(), kind) + if kind(items.last()) {
            1nat
        } else {
            0nat
        }
    }
}

/// The bytes of the entries of a kind.
pub open spec fn bytes_of(items: Seq<Counted>, kind: spec_fn(Counted) -> bool) -> nat
    decreases items.len(),
{
    if items.len() == 0 {
        0
    } else {
        bytes_of(items.drop_last(), kind) + if kind(items.last()) {
            items.last().entry.bytes as nat
        } else {
            0nat
        }
    }
}

// ── Hours ───────────────────────────────────────────────────────────────────

/// An entry of an hour.
pub open spec fn of_hour(k: (Seq<char>, u8)) -> spec_fn(Counted) -> bool {
    |x: Counted| x.periods.date == k.0 && x.periods.hour as u8 == k.1
}

/// An entry of an hour that starts a visit.
pub open spec fn visit_of(k: (Seq<char>, u8)) -> spec_fn(Counted) -> bool {
    |x: Counted| of_hour(k)(x) && x.new_visit
}

/// An entry of an hour with a status from one number to another.
pub open spec fn answered(k: (Seq<char>, u8), from: int, to: int) -> spec_fn(Counted) -> bool {
    |x: Counted| of_hour(k)(x) && from <= x.entry.status <= to
}

/// An entry of an hour that was neither a success, a redirection nor the client's fault.
pub open spec fn answered_otherwise(k: (Seq<char>, u8)) -> spec_fn(Counted) -> bool {
    |x: Counted| of_hour(k)(x) && !(200 <= x.entry.status <= 499)
}

/// A path that is of a file rather than a page.
pub open spec fn is_file_path(path: Seq<u8>) -> bool {
    is_file_ext(from_last_dot(last_component(path_part(path))))
}

/// A file of an hour that was handed out.
pub open spec fn file_of(k: (Seq<char>, u8)) -> spec_fn(Counted) -> bool {
    |x: Counted| answered(k, 200, 299)(x) && is_file_path(x.entry.path)
}

/// A page of an hour that was handed out.
pub open spec fn page_of(k: (Seq<char>, u8)) -> spec_fn(Counted) -> bool {
    |x: Counted| answered(k, 200, 299)(x) && !is_file_path(x.entry.path)
}

/// The counters of an hour are the numbers of its entries: all of them as hits, with their bytes;
/// those that start a visit; those with a status from 200 to 299, of these the files and the pages;
/// those from 300 to 399; those from 400 to 499; and all others.
pub proof fn law_hours_count_their_entries(
    config: ProcessorConfig,
    acc: AccView,
    items: Seq<Counted>,
    k: (Seq<char>, u8),
)
    requires
        all_fit(config, acc, items),
    ensures
        ({
            let before = hour_so_far(acc.hourly, k);
            let now = hour_so_far(after_all(config, acc, items).hourly, k);
            &&& now.hits == before.hits + tally(items, of_hour(k))
            &&& now.bandwidth == before.bandwidth + bytes_of(items, of_hour(k))
            &&& now.visits == before.visits + tally(items, visit_of(k))
            &&& now.status_2xx == before.status_2xx + tally(items, answered(k, 200, 299))
            &&& now.status_3xx == before.status_3xx + tally(items, answered(k, 300, 399))
            &&& now.status_4xx == before.status_4xx + tally(items, answered(k, 400, 499))
            &&& now.status_5xx == before.status_5xx + tally(items, answered_otherwise(k))
            &&& now.files == before.files + tally(items, file_of(k))
            &&& now.pages == before.pages + tally(items, page_of(k))
        }),
    decreases items.len(),
{
    if items.len() > 0 {
        let rest = items.drop_last();
        law_hours_count_their_entries(config, acc, rest, k);
        let mid = after_all(config, acc, rest);
        let x = items.last();
        if of_hour(k)(x) {
            assert((x.periods.date, x.periods.hour as u8) == k);
            assert(hour_fits(hour_so_far(mid.hourly, k), x.entry.bytes));
        } else {
            assert((x.periods.date, x.periods.hour as u8) != k);
        }
    }
}

// ── Tables ──────────────────────────────────────────────────────────────────

/// An entry for a path, not hidden.
pub open spec fn for_url(config: ProcessorConfig, k: Seq<char>) -> spec_fn(Counted) -> bool {
    |x: Counted|
        config.enable_top_urls && !x.hidden.urls && decode_utf8(path_part(x.entry.path)) == k
}

/// An entry from a host, not hidden.
pub open spec fn from_host(config: ProcessorConfig, k: Seq<char>) -> spec_fn(Counted) -> bool {
    |x: Counted| config.enable_top_sites && !x.hidden.hosts && decode_utf8(x.entry.ip) == k
}

/// An entry of an agent, not hidden.
pub open spec fn by_agent(config: ProcessorConfig, k: Seq<char>) -> spec_fn(Counted) -> bool {
    |x: Counted| config.enable_top_agents && !x.hidden.agents && x.agent == k
}

/// An entry from a country, not hidden.
pub open spec fn from_country(k: Seq<char>) -> spec_fn(Counted) -> bool {
    |x: Counted| !x.hidden.countries && x.country == k
}

/// An entry that a host referred to, not hidden.
pub open spec fn referred_by(config: ProcessorConfig, k: Seq<char>) -> spec_fn(Counted) -> bool {
    |x: Counted|
        config.enable_top_refs && !x.hidden.refs && (host_of(x.entry.referer) matches Some(h)
            && decode_utf8(h) == k)
}

/// An entry with a status.
pub open spec fn of_status(k: u16) -> spec_fn(Counted) -> bool {
    |x: Counted| x.entry.status == k
}

/// An entry whose method has a slot.
pub open spec fn of_method(i: int) -> spec_fn(Counted) -> bool {
    |x: Counted| method_slot(x.entry.method) == i
}

/// An entry whose protocol has a slot.
pub open spec fn of_proto(i: int) -> spec_fn(Counted) -> bool {
    |x: Counted| proto_slot(x.entry.proto) == i
}

/// What a table holds of hits and bytes; nothing for a key that it lacks.
pub open spec fn pair_of(m: Map<Seq<char>, (u64, u64)>, k: Seq<char>) -> (u64, u64) {
    match entry(m, k) {
        Some(p) => p,
        None => (0, 0),
    }
}

/// What a table holds of a key; nothing for a key that it lacks.
pub open spec fn number_of<K>(m: Map<K, u64>, k: K) -> u64 {
    match entry(m, k) {
        Some(n) => n,
        None => 0,
    }
}

/// A table of hits and bytes has grown by the entries of a kind.
pub open spec fn grew_by(
    before: (u64, u64),
    now: (u64, u64),
    items: Seq<Counted>,
    kind: spec_fn(Counted) -> bool,
) -> bool {
    now.0 == before.0 + tally(items, kind) && now.1 == before.1 + bytes_of(items, kind)
}

/// The rows of the tables are the numbers and the bytes of the entries that they are about: of the
/// paths, hosts, agents and countries that are not hidden and whose tables are switched on, of the
/// hosts that referred to them, of the statuses, methods and protocols.
pub proof fn law_tables_count_their_entries(
    config: ProcessorConfig,
    acc: AccView,
    items: Seq<Counted>,
    k: Seq<char>,
    code: u16,
    i: int,
)
    requires
        all_fit(config, acc, items),
        acc.method_counts.len() == METHOD_COUNT,
        acc.protocol_counts.len() == PROTO_COUNT,
    ensures
        ({
            let t = after_all(config, acc, items);
            &&& grew_by(pair_of(acc.urls, k), pair_of(t.urls, k), items, for_url(config, k))
            &&& grew_by(pair_of(acc.hosts, k), pair_of(t.hosts, k), items, from_host(config, k))
            &&& grew_by(pair_of(acc.agents, k), pair_of(t.agents, k), items, by_agent(config, k))
            &&& grew_by(
                pair_of(acc.countries, k),
                pair_of(t.countries, k),
                items,
                from_country(k),
            )
            &&& number_of(t.refs, k) == number_of(acc.refs, k) + tally(
                items,
                referred_by(config, k),
            )
            &&& number_of(t.status_codes, code) == number_of(acc.status_codes, code) + tally(
                items,
                of_status(code),
            )
            &&& t.method_counts.len() == METHOD_COUNT
            &&& t.protocol_counts.len() == PROTO_COUNT
            &&& 0 <= i < METHOD_COUNT ==> t.method_counts[i] == acc.method_counts[i] + tally(
                items,
                of_method(i),
            )
            &&& 0 <= i < PROTO_COUNT ==> t.protocol_counts[i] == acc.protocol_counts[i] + tally(
                items,
                of_proto(i),
            )
        }),
    decreases items.len(),
{
    if items.len() > 0 {
        law_tables_count_their_entries(config, acc, items.drop_last(), k, code, i);
        let mid = after_all(config, acc, items.drop_last());
        let x = items.last();
        assert(0 <= method_slot(x.entry.method) < METHOD_COUNT);
        assert(0 <= proto_slot(x.entry.proto) < PROTO_COUNT);
        if 0 <= i < METHOD_COUNT {
            assert(mid.method_counts[i] < u64::MAX);
        }
        if 0 <= i < PROTO_COUNT {
            assert(mid.protocol_counts[i] < u64::MAX);
        }
    }
}

/// The addresses of a day are those of its entries: after any entries an address is among them if
/// and only if it was before, or an entry of that day comes from it.
pub proof fn law_days_hold_their_addresses(
    config: ProcessorConfig,
    acc: AccView,
    items: Seq<Counted>,
    date: Seq<char>,
    ip: Ip,
)
    ensures
        ({
            let before = match entry(acc.daily_ips, date) {
                Some(s) => s,
                None => no_ips(),
            };
            let now = match entry(after_all(config, acc, items).daily_ips, date) {
                Some(s) => s,
                None => no_ips(),
            };
            has_ip(now, ip) <==> has_ip(before, ip) || exists|i: int|
                0 <= i < items.len() && (#[trigger] items[i]).periods.date == date && ip_of(
                    items[i].entry.ip,
                ) == Some(ip)
        }),
    decreases items.len(),
{
    if items.len() > 0 {
        let rest = items.drop_last();
        law_days_hold_their_addresses(config, acc, rest, date, ip);
        let x = items.last();
        let mid = after_all(config, acc, rest);
        let s = match entry(mid.daily_ips, date) {
            Some(s) => s,
            None => no_ips(),
        };
        if let Some(a) = ip_of(x.entry.ip) {
            law_insert_ip(s, a, ip);
        }
        assert(items[items.len() - 1] == x);
        if exists|i: int|
            0 <= i < rest.len() && (#[trigger] rest[i]).periods.date == date && ip_of(
                rest[i].entry.ip,
            ) == Some(ip) {
            let i = choose|i: int|
                0 <= i < rest.len() && (#[trigger] rest[i]).periods.date == date && ip_of(
                    rest[i].entry.ip,
                ) == Some(ip);
            assert(items[i] == rest[i]);
        }
        if exists|i: int|
            0 <= i < items.len() && (#[trigger] items[i]).periods.date == date && ip_of(
                items[i].entry.ip,
            ) == Some(ip) {
            let i = choose|i: int|
                0 <= i < items.len() && (#[trigger] items[i]).periods.date == date && ip_of(
                    items[i].entry.ip,
                ) == Some(ip);
            if i < rest.len() {
                assert(rest[i] == items[i]);
            }
        }
    }
}

/// Two requests are of one visitor if and only if they come from the same address, however it is
/// written, or have the same text where they have none.
pub proof fn law_visitors_are_told_apart(a: Seq<u8>, b: Seq<u8>)
    ensures
        visitor_of(a) == visitor_of(b) <==> match (ip_of(a), ip_of(b)) {
            (Some(x), Some(y)) => x == y,
            (None, None) => decode_utf8(a) == decode_utf8(b),
            _ => false,
        },
{
    assert(visitor_of(a) == visitor_from(ip_of(a), decode_utf8(a)));
    assert(visitor_of(b) == visitor_from(ip_of(b), decode_utf8(b)));
    lemma_told_apart(ip_of(a), decode_utf8(a), ip_of(b), decode_utf8(b));
}

spec fn visitor_from(ip: Option<Ip>, text: Seq<char>) -> (u8, u64, u64, Seq<char>) {
    match ip {
        Some(ip) => (ip.key().0, ip.key().1, ip.key().2, Seq::empty()),
        None => (0, 0, 0, text),
    }
}

proof fn lemma_told_apart(a: Option<Ip>, s: Seq<char>, b: Option<Ip>, t: Seq<char>)
    ensures
        visitor_from(a, s) == visitor_from(b, t) <==> match (a, b) {
            (Some(x), Some(y)) => x == y,
            (None, None) => s == t,
            _ => false,
        },
{
    if let (Some(x), Some(y)) = (a, b) {
        if x.key() == y.key() {
            law_key_identifies(x, y);
        }
    }
}

/// Methods and protocols are told by their names: the seven methods that have a slot of their own,
/// the versions of the protocol, whether or not a version of a whole number is written with a zero
/// behind it, and one slot for everything else.
pub proof fn law_slots_are_named(s: &str)
    ensures
        ({
            let m = method_slot(s.spec_bytes());
            &&& m == METHOD_GET <==> s@ == seq!['G', 'E', 'T']
            &&& m == METHOD_POST <==> s@ == seq!['P', 'O', 'S', 'T']
            &&& m == METHOD_HEAD <==> s@ == seq!['H', 'E', 'A', 'D']
            &&& m == METHOD_PUT <==> s@ == seq!['P', 'U', 'T']
            &&& m == METHOD_DELETE <==> s@ == seq!['D', 'E', 'L', 'E', 'T', 'E']
            &&& m == METHOD_OPTIONS <==> s@ == seq!['O', 'P', 'T', 'I', 'O', 'N', 'S']
            &&& m == METHOD_PATCH <==> s@ == seq!['P', 'A', 'T', 'C', 'H']
            &&& 0 <= m < METHOD_COUNT
        }),
        ({
            let p = proto_slot(s.spec_bytes());
            let http = seq!['H', 'T', 'T', 'P', '/'];
            &&& p == PROTO_1_0 <==> s@ == http + seq!['1', '.', '0']
            &&& p == PROTO_1_1 <==> s@ == http + seq!['1', '.', '1']
            &&& p == PROTO_2_0 <==> s@ == http + seq!['2', '.', '0'] || s@ == http + seq!['2']
            &&& p == PROTO_3_0 <==> s@ == http + seq!['3', '.', '0'] || s@ == http + seq!['3']
            &&& 0 <= p < PROTO_COUNT
        }),
{
    reveal_strlit("GET");
    lemma_same_text(s, "GET");
    assert("GET"@ =~= seq!['G', 'E', 'T']);
    reveal_strlit("POST");
    lemma_same_text(s, "POST");
    assert("POST"@ =~= seq!['P', 'O', 'S', 'T']);
    reveal_strlit("HEAD");
    lemma_same_text(s, "HEAD");
    assert("HEAD"@ =~= seq!['H', 'E', 'A', 'D']);
    reveal_strlit("PUT");
    lemma_same_text(s, "PUT");
    assert("PUT"@ =~= seq!['P', 'U', 'T']);
    reveal_strlit("DELETE");
    lemma_same_text(s, "DELETE");
    assert("DELETE"@ =~= seq!['D', 'E', 'L', 'E', 'T', 'E']);
    reveal_strlit("OPTIONS");
    lemma_same_text(s, "OPTIONS");
    assert("OPTIONS"@ =~= seq!['O', 'P', 'T', 'I', 'O', 'N', 'S']);
    reveal_strlit("PATCH");
    lemma_same_text(s, "PATCH");
    assert("PATCH"@ =~= seq!['P', 'A', 'T', 'C', 'H']);
    reveal_strlit("HTTP/1.0");
    lemma_same_text(s, "HTTP/1.0");
    assert("HTTP/1.0"@ =~= seq!['H', 'T', 'T', 'P', '/'] + seq!['1', '.', '0']);
    reveal_strlit("HTTP/1.1");
    lemma_same_text(s, "HTTP/1.1");
    assert("HTTP/1.1"@ =~= seq!['H', 'T', 'T', 'P', '/'] + seq!['1', '.', '1']);
    reveal_strlit("HTTP/2");
    lemma_same_text(s, "HTTP/2");
    assert("HTTP/2"@ =~= seq!['H', 'T', 'T', 'P', '/'] + seq!['2']);
    reveal_strlit("HTTP/2.0");
    lemma_same_text(s, "HTTP/2.0");
    assert("HTTP/2.0"@ =~= seq!['H', 'T', 'T', 'P', '/'] + seq!['2', '.', '0']);
    reveal_strlit("HTTP/3");
    lemma_same_text(s, "HTTP/3");
    assert("HTTP/3"@ =~= seq!['H', 'T', 'T', 'P', '/'] + seq!['3']);
    reveal_strlit("HTTP/3.0");
    lemma_same_text(s, "HTTP/3.0");
    assert("HTTP/1.0"@[5] == '1' && "HTTP/1.0"@[7] == '0' && "HTTP/1.0"@.len() == 8);
    assert("HTTP/1.1"@[5] == '1' && "HTTP/1.1"@[7] == '1' && "HTTP/1.1"@.len() == 8);
    assert("HTTP/2.0"@[5] == '2' && "HTTP/2.0"@.len() == 8);
    assert("HTTP/2"@[5] == '2' && "HTTP/2"@.len() == 6);
    assert("HTTP/3"@[5] == '3' && "HTTP/3"@.len() == 6);
    assert("HTTP/3.0"@[5] == '3' && "HTTP/3.0"@.len() == 8);
    assert("HTTP/3.0"@ =~= seq!['H', 'T', 'T', 'P', '/'] + seq!['3', '.', '0']);
}

proof fn lemma_same_text(s: &str, t: &str)
    ensures
        s.spec_bytes() == t.spec_bytes() <==> s@ == t@,
{
    encode_utf8_decode_utf8(s@);
    encode_utf8_decode_utf8(t@);
}

// ── Paths and referrers ─────────────────────────────────────────────────────

/// A byte does not occur.
pub open spec fn free_of(s: Seq<u8>, c: u8) -> bool {
    forall|i: int| 0 <= i < s.len() ==> #[trigger] s[i] != c
}

/// A URL counts without its query: what stands before the first question mark, or all of it.
pub proof fn law_path_without_query(path: Seq<u8>, query: Seq<u8>)
    requires
        free_of(path, '?' as u8),
    ensures
        path_part(path) == path,
        path_part(path + seq!['?' as u8] + query) == path,
{
    let full = path + seq!['?' as u8] + query;
    lemma_until(path, 0, QUESTION);
    lemma_until(full, 0, QUESTION);
    assert(full[path.len() as int] == QUESTION);
    let n = until(full, 0, QUESTION);
    assert(n == path.len()) by {
        if n < path.len() {
            assert(full[n] == path[n]);
        }
    }
    assert(path_part(path) =~= path);
    assert(path_part(full) =~= path);
}

/// The extension of a path is what follows the last dot of its last part, with the dot, whatever
/// stands before it and whatever query follows; a last part without a dot has none.
pub proof fn law_extension_of_a_path(dir: Seq<u8>, stem: Seq<u8>, ext: Seq<u8>, query: Seq<u8>)
    requires
        free_of(dir, '?' as u8),
        free_of(stem, '?' as u8) && free_of(stem, '/' as u8),
        free_of(ext, '?' as u8) && free_of(ext, '/' as u8) && free_of(ext, '.' as u8),
    ensures
        ({
            let named = dir + seq!['/' as u8] + stem + seq!['.' as u8] + ext;
            let plain = dir + seq!['/' as u8] + ext;
            &&& from_last_dot(last_component(path_part(named + seq!['?' as u8] + query))) == seq![
                '.' as u8,
            ] + ext
            &&& from_last_dot(last_component(path_part(named))) == seq!['.' as u8] + ext
            &&& from_last_dot(last_component(path_part(plain))) == Seq::<u8>::empty()
        }),
{
    let slash = seq!['/' as u8];
    let dot = seq!['.' as u8];
    let named = dir + slash + stem + dot + ext;
    let plain = dir + slash + ext;
    assert(free_of(named, '?' as u8)) by {
        assert forall|i: int| 0 <= i < named.len() implies #[trigger] named[i] != '?' as u8 by {
            let d = dir.len() as int;
            let s = stem.len() as int;
            if i < d {
                assert(named[i] == dir[i]);
            } else if d < i < d + 1 + s {
                assert(named[i] == stem[i - d - 1]);
            } else if d + 1 + s < i {
                assert(named[i] == ext[i - d - s - 2]);
            }
        }
    }
    assert(free_of(plain, '?' as u8)) by {
        assert forall|i: int| 0 <= i < plain.len() implies #[trigger] plain[i] != '?' as u8 by {
            let d = dir.len() as int;
            if i < d {
                assert(plain[i] == dir[i]);
            } else if d < i {
                assert(plain[i] == ext[i - d - 1]);
            }
        }
    }
    law_path_without_query(named, query);
    law_path_without_query(plain, query);
    let name = stem + dot + ext;
    assert(free_of(name, '/' as u8)) by {
        assert forall|i: int| 0 <= i < name.len() implies #[trigger] name[i] != '/' as u8 by {
            let s = stem.len() as int;
            if i < s {
                assert(name[i] == stem[i]);
            } else if s < i {
                assert(name[i] == ext[i - s - 1]);
            }
        }
    }
    assert(named =~= dir + slash + name);
    lemma_last_part(dir, name);
    lemma_last_part(dir, ext);
    lemma_last_before(name, name.len() as int, DOT);
    let at = last_before(name, name.len() as int, DOT);
    assert(name[stem.len() as int] == DOT);
    assert(at == stem.len()) by {
        if at > stem.len() {
            assert(name[at] == ext[at - stem.len() - 1]);
        }
    }
    assert(name.skip(at) =~= dot + ext);
    lemma_last_before(ext, ext.len() as int, DOT);
}

proof fn lemma_last_part(dir: Seq<u8>, name: Seq<u8>)
    requires
        free_of(name, '/' as u8),
    ensures
        last_component(dir + seq!['/' as u8] + name) == name,
{
    let path = dir + seq!['/' as u8] + name;
    lemma_last_before(path, path.len() as int, SLASH);
    let at = last_before(path, path.len() as int, SLASH);
    assert(path[dir.len() as int] == SLASH);
    assert(at == dir.len()) by {
        if at > dir.len() {
            assert(path[at] == name[at - dir.len() - 1]);
        }
    }
    assert(path.skip(at + 1) =~= name);
}

/// The host of a referrer is what stands behind its scheme, up to a slash, a colon or a question
/// mark or the end; a text without a scheme has none.
pub proof fn law_host_of_a_referrer(scheme: Seq<u8>, host: Seq<u8>, rest: Seq<u8>)
    requires
        free_of(scheme, ':' as u8),
        host.len() > 0,
        free_of(host, '/' as u8) && free_of(host, ':' as u8) && free_of(host, '?' as u8),
        rest.len() > 0 ==> rest[0] == '/' as u8 || rest[0] == ':' as u8 || rest[0] == '?' as u8,
    ensures
        host_of(scheme + seq![':' as u8, '/' as u8, '/' as u8] + host + rest) == Some(host),
        host_of(scheme) is None,
{
    let mark = seq![':' as u8, '/' as u8, '/' as u8];
    reveal_strlit("://");
    is_ascii_spec_bytes("://");
    assert("://".spec_bytes() =~= mark);
    let url = scheme + mark + host + rest;
    let n = scheme.len() as int;
    assert(url.subrange(n, n + 3) =~= mark);
    lemma_found(url, mark, 0, n);
    lemma_host_end(url, n + 3, n + 3 + host.len(), host);
    assert(url.subrange(n + 3, n + 3 + host.len()) =~= host);
    lemma_not_found(scheme, mark, 0);
}

proof fn lemma_found(url: Seq<u8>, mark: Seq<u8>, i: int, n: int)
    requires
        mark == seq![':' as u8, '/' as u8, '/' as u8],
        0 <= i <= n,
        n + 3 <= url.len(),
        url.subrange(n, n + 3) == mark,
        forall|k: int| 0 <= k < n ==> #[trigger] url[k] != ':' as u8,
    ensures
        find_key(url, mark, i) == Some(n),
    decreases n - i,
{
    if i < n {
        assert(!occurs_at(url, mark, i)) by {
            assert(url.subrange(i, i + 3)[0] == url[i]);
            assert(mark[0] == ':' as u8);
        }
        lemma_found(url, mark, i + 1, n);
    }
}

proof fn lemma_not_found(url: Seq<u8>, mark: Seq<u8>, i: int)
    requires
        mark == seq![':' as u8, '/' as u8, '/' as u8],
        0 <= i <= url.len(),
        forall|k: int| 0 <= k < url.len() ==> #[trigger] url[k] != ':' as u8,
    ensures
        find_key(url, mark, i) is None,
    decreases url.len() - i,
{
    if i + 3 <= url.len() {
        assert(!occurs_at(url, mark, i)) by {
            assert(url.subrange(i, i + 3)[0] == url[i]);
            assert(mark[0] == ':' as u8);
        }
        lemma_not_found(url, mark, i + 1);
    }
}

proof fn lemma_host_end(url: Seq<u8>, i: int, end: int, host: Seq<u8>)
    requires
        0 <= end - host.len() <= i <= end <= url.len(),
        forall|k: int| end - host.len() <= k < end ==> !ends_host(#[trigger] url[k]),
        end < url.len() ==> ends_host(url[end]),
    ensures
        host_end(url, i) == end,
    decreases end - i,
{
    if i < end {
        lemma_host_end(url, i + 1, end, host);
    }
}

/// The extensions of files that are no pages: styles, scripts, images, fonts, sounds, films, archives
/// and data.
pub open spec fn is_extension_of_a_file(ext: Seq<u8>) -> bool {
    ||| ext == ascii(seq!['.', 'c', 's', 's'])
    ||| ext == ascii(seq!['.', 'j', 's'])
    ||| ext == ascii(seq!['.', 'p', 'n', 'g'])
    ||| ext == ascii(seq!['.', 'j', 'p', 'g'])
    ||| ext == ascii(seq!['.', 'j', 'p', 'e', 'g'])
    ||| ext == ascii(seq!['.', 'g', 'i', 'f'])
    ||| ext == ascii(seq!['.', 'w', 'e', 'b', 'p'])
    ||| ext == ascii(seq!['.', 's', 'v', 'g'])
    ||| ext == ascii(seq!['.', 'i', 'c', 'o'])
    ||| ext == ascii(seq!['.', 'o', 't', 'f'])
    ||| ext == ascii(seq!['.', 'w', 'o', 'f', 'f'])
    ||| ext == ascii(seq!['.', 'w', 'o', 'f', 'f', '2'])
    ||| ext == ascii(seq!['.', 't', 't', 'f'])
    ||| ext == ascii(seq!['.', 'e', 'o', 't'])
    ||| ext == ascii(seq!['.', 'm', 'p', '4'])
    ||| ext == ascii(seq!['.', 'm', 'p', '3'])
    ||| ext == ascii(seq!['.', 'z', 'i', 'p'])
    ||| ext == ascii(seq!['.', 't', 'a', 'r'])
    ||| ext == ascii(seq!['.', 'g', 'z'])
    ||| ext == ascii(seq!['.', 'b', 'r'])
    ||| ext == ascii(seq!['.', 'p', 'd', 'f'])
    ||| ext == ascii(seq!['.', 'x', 'm', 'l'])
    ||| ext == ascii(seq!['.', 'j', 's', 'o', 'n'])
    ||| ext == ascii(seq!['.', 't', 'x', 't'])
}

/// What is fetched counts as a file, and not as a page, if and only if its path has one of these
/// extensions, in small letters.
pub proof fn law_files_by_their_extensions(ext: Seq<u8>)
    ensures
        is_file_ext(ext) <==> is_extension_of_a_file(ext),
{
    reveal_strlit(".css");
    is_ascii_spec_bytes(".css");
    assert(".css".spec_bytes() =~= ascii(seq!['.', 'c', 's', 's']));
    reveal_strlit(".js");
    is_ascii_spec_bytes(".js");
    assert(".js".spec_bytes() =~= ascii(seq!['.', 'j', 's']));
    reveal_strlit(".png");
    is_ascii_spec_bytes(".png");
    assert(".png".spec_bytes() =~= ascii(seq!['.', 'p', 'n', 'g']));
    reveal_strlit(".jpg");
    is_ascii_spec_bytes(".jpg");
    assert(".jpg".spec_bytes() =~= ascii(seq!['.', 'j', 'p', 'g']));
    reveal_strlit(".jpeg");
    is_ascii_spec_bytes(".jpeg");
    assert(".jpeg".spec_bytes() =~= ascii(seq!['.', 'j', 'p', 'e', 'g']));
    reveal_strlit(".gif");
    is_ascii_spec_bytes(".gif");
    assert(".gif".spec_bytes() =~= ascii(seq!['.', 'g', 'i', 'f']));
    reveal_strlit(".webp");
    is_ascii_spec_bytes(".webp");
    assert(".webp".spec_bytes() =~= ascii(seq!['.', 'w', 'e', 'b', 'p']));
    reveal_strlit(".svg");
    is_ascii_spec_bytes(".svg");
    assert(".svg".spec_bytes() =~= ascii(seq!['.', 's', 'v', 'g']));
    reveal_strlit(".ico");
    is_ascii_spec_bytes(".ico");
    assert(".ico".spec_bytes() =~= ascii(seq!['.', 'i', 'c', 'o']));
    reveal_strlit(".otf");
    is_ascii_spec_bytes(".otf");
    assert(".otf".spec_bytes() =~= ascii(seq!['.', 'o', 't', 'f']));
    reveal_strlit(".woff");
    is_ascii_spec_bytes(".woff");
    assert(".woff".spec_bytes() =~= ascii(seq!['.', 'w', 'o', 'f', 'f']));
    reveal_strlit(".woff2");
    is_ascii_spec_bytes(".woff2");
    assert(".woff2".spec_bytes() =~= ascii(seq!['.', 'w', 'o', 'f', 'f', '2']));
    reveal_strlit(".ttf");
    is_ascii_spec_bytes(".ttf");
    assert(".ttf".spec_bytes() =~= ascii(seq!['.', 't', 't', 'f']));
    reveal_strlit(".eot");
    is_ascii_spec_bytes(".eot");
    assert(".eot".spec_bytes() =~= ascii(seq!['.', 'e', 'o', 't']));
    reveal_strlit(".mp4");
    is_ascii_spec_bytes(".mp4");
    assert(".mp4".spec_bytes() =~= ascii(seq!['.', 'm', 'p', '4']));
    reveal_strlit(".mp3");
    is_ascii_spec_bytes(".mp3");
    assert(".mp3".spec_bytes() =~= ascii(seq!['.', 'm', 'p', '3']));
    reveal_strlit(".zip");
    is_ascii_spec_bytes(".zip");
    assert(".zip".spec_bytes() =~= ascii(seq!['.', 'z', 'i', 'p']));
    reveal_strlit(".tar");
    is_ascii_spec_bytes(".tar");
    assert(".tar".spec_bytes() =~= ascii(seq!['.', 't', 'a', 'r']));
    reveal_strlit(".gz");
    is_ascii_spec_bytes(".gz");
    assert(".gz".spec_bytes() =~= ascii(seq!['.', 'g', 'z']));
    reveal_strlit(".br");
    is_ascii_spec_bytes(".br");
    assert(".br".spec_bytes() =~= ascii(seq!['.', 'b', 'r']));
    reveal_strlit(".pdf");
    is_ascii_spec_bytes(".pdf");
    assert(".pdf".spec_bytes() =~= ascii(seq!['.', 'p', 'd', 'f']));
    reveal_strlit(".xml");
    is_ascii_spec_bytes(".xml");
    assert(".xml".spec_bytes() =~= ascii(seq!['.', 'x', 'm', 'l']));
    reveal_strlit(".json");
    is_ascii_spec_bytes(".json");
    assert(".json".spec_bytes() =~= ascii(seq!['.', 'j', 's', 'o', 'n']));
    reveal_strlit(".txt");
    is_ascii_spec_bytes(".txt");
    assert(".txt".spec_bytes() =~= ascii(seq!['.', 't', 'x', 't']));
}

} // verus!
