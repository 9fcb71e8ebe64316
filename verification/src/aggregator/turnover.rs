//! What is kept from one month or run to the next: which visitors, which rows and which periods.

use vstd::prelude::*;
use vstd::utf8::*;

use super::aggregation::{starts_visit, visits_after};
use super::flush::{
    fresh, is_month_end, is_top_keys, is_trimmed, is_trimmed_counts, is_trimmed_pairs, latest_of,
    stored_visits, visit_cutoff, MonthEnd,
};
use super::pipeline::skipped_files;
use super::records::law_boundary_is_the_last_begun_file;
use super::{interval_of, is_due, VisitView};
use crate::run_accumulators::AccView;
use crate::text::lemma_bytes_determine;

verus! {

/// A request counts as the last one of its visitor unless a later one was seen, and it changes
/// nothing else that is known of the visitors.
pub proof fn law_last_request_counts(
    v: VisitView,
    key: (u8, u64, u64, Seq<char>),
    ts: i64,
    other: (u8, u64, u64, Seq<char>),
)
    requires
        v.dirty.dom().contains(key) ==> v.last_seen.dom().contains(key) && v.dirty[key]
            <= v.last_seen[key],
        other != key,
    ensures
        ({
            let after = visits_after(v, key, ts);
            let last = if v.last_seen.dom().contains(key) && v.last_seen[key] > ts {
                v.last_seen[key]
            } else {
                ts
            };
            &&& after.last_seen.dom().contains(key) && after.last_seen[key] == last
            &&& after.dirty.dom().contains(key) && after.dirty[key] == last
            &&& after.max_seen >= v.max_seen && after.max_seen >= ts
            &&& after.max_seen == v.max_seen || after.max_seen == ts
            &&& after.last_seen.dom().contains(other) <==> v.last_seen.dom().contains(other)
            &&& v.last_seen.dom().contains(other) ==> after.last_seen[other] == v.last_seen[other]
            &&& after.dirty.dom().contains(other) <==> v.dirty.dom().contains(other)
            &&& v.dirty.dom().contains(other) ==> after.dirty[other] == v.dirty[other]
        }),
{
}

/// Of two requests of a visitor in turn, the second starts a visit if and only if it comes more than
/// half an hour after the last that was seen by then.
pub proof fn law_next_request_of_a_visitor(
    v: VisitView,
    key: (u8, u64, u64, Seq<char>),
    a: i64,
    b: i64,
)
    requires
        v.last_seen.dom().contains(key) ==> v.last_seen[key] <= a,
    ensures
        starts_visit(visits_after(v, key, a), key, b) <==> b - a > 30 * 60,
        !v.last_seen.dom().contains(key) ==> starts_visit(v, key, a),
        v.last_seen.dom().contains(key) ==> (starts_visit(v, key, a) <==> a - v.last_seen[key] > 30
            * 60),
{
}

/// A visitor is forgotten if and only if it was last seen more than half an hour before the last
/// request of all.
pub proof fn law_visitors_are_forgotten(
    m: Map<(u8, u64, u64, Seq<char>), i64>,
    max_seen: i64,
    key: (u8, u64, u64, Seq<char>),
)
    requires
        m.dom().contains(key),
    ensures
        fresh(m, visit_cutoff(max_seen)).dom().contains(key) <==> max_seen <= 0 || max_seen - m[key]
            <= 30 * 60,
        fresh(m, visit_cutoff(max_seen)).dom().contains(key) ==> fresh(
            m,
            visit_cutoff(max_seen),
        )[key] == m[key],
{
}

/// What is loaded of the visitors is what is stored of them, and the last request of all is the
/// latest of those.
pub proof fn law_visitors_are_loaded(rows: Seq<((u8, u64, u64, Seq<char>), i64)>, i: int)
    requires
        0 <= i < rows.len(),
        forall|a: int, b: int|
            0 <= a < b < rows.len() ==> (#[trigger] rows[a]).0 != (#[trigger] rows[b]).0,
    ensures
        stored_visits(rows).dom().contains(rows[i].0) && stored_visits(rows)[rows[i].0]
            == rows[i].1,
        latest_of(rows) >= rows[i].1,
        latest_of(rows) >= 0,
        latest_of(rows) == 0 || exists|j: int|
            0 <= j < rows.len() && (#[trigger] rows[j]).1 == latest_of(rows),
    decreases rows.len(),
{
    let before = rows.drop_last();
    let n = rows.len() - 1;
    assert(rows[n] == rows.last());
    if n > 0 {
        if i < n {
            law_visitors_are_loaded(before, i);
            assert(before[i] == rows[i]);
        } else {
            law_visitors_are_loaded(before, 0);
        }
        if latest_of(before) != 0 {
            let j = choose|j: int|
                0 <= j < before.len() && (#[trigger] before[j]).1 == latest_of(before);
            assert(rows[j].1 == latest_of(before));
        }
    } else {
        assert(latest_of(before) == 0);
    }
}

/// A checkpoint is due once as many minutes have passed as are set, and never where none are.
pub proof fn law_checkpoints_come_every_so_many_minutes(minutes: u64, elapsed_secs: u64)
    ensures
        minutes == 0 ==> !is_due(interval_of(minutes), elapsed_secs),
        0 < minutes <= 0x400_0000_0000_0000 ==> (is_due(interval_of(minutes), elapsed_secs)
            <==> elapsed_secs >= minutes * 60),
{
}

/// Files are skipped only where there are several of them and earlier runs saw an entry, and the last
/// of the files is never skipped.
pub proof fn law_files_to_skip(first_times: Seq<Option<i64>>, last_log_ts: i64)
    ensures
        first_times.len() <= 1 ==> skipped_files(first_times, last_log_ts) == 0,
        last_log_ts <= 0 ==> skipped_files(first_times, last_log_ts) == 0,
        first_times.len() > 1 && last_log_ts > 0 ==> {
            let b = skipped_files(first_times, last_log_ts);
            &&& 0 <= b < first_times.len()
            &&& b > 0 ==> (first_times[b] matches Some(t) && t < last_log_ts)
            &&& forall|i: int|
                b < i < first_times.len() ==> ((#[trigger] first_times[i]) matches Some(t) ==> t
                    >= last_log_ts)
        },
{
    law_boundary_is_the_last_begun_file(first_times, last_log_ts);
}

/// The name of a month: four digits of the year, a hyphen and two of the month.
pub open spec fn is_month(m: Seq<char>) -> bool {
    &&& m.len() == 7
    &&& forall|i: int| 0 <= i < 7 && i != 4 ==> '0' <= #[trigger] m[i] <= '9'
    &&& m[4] == '-'
}

/// At the end of a month the month is finalized. Its year is finalized with it if and only if the
/// next month is of another year.
pub proof fn law_end_of_a_month(r: MonthEnd, old_month: Seq<char>, new_month: Seq<char>)
    requires
        is_month(old_month),
        is_month(new_month),
        is_month_end(r, old_month, new_month),
    ensures
        r.finalize matches Some(m) && m@ == old_month,
        r.finalize_year is Some <==> old_month.take(4) != new_month.take(4),
        r.finalize_year matches Some(y) ==> y@ == old_month.take(4),
{
    is_ascii_chars_encode_utf8(old_month);
    is_ascii_chars_encode_utf8(new_month);
    let a = old_month.take(4);
    let b = new_month.take(4);
    is_ascii_chars_encode_utf8(a);
    is_ascii_chars_encode_utf8(b);
    assert(encode_utf8(old_month).take(4) =~= encode_utf8(a));
    assert(encode_utf8(new_month).take(4) =~= encode_utf8(b));
    if encode_utf8(a) == encode_utf8(b) {
        lemma_bytes_determine(a, b);
    }
    if r.finalize_year is Some {
        lemma_bytes_determine(r.finalize_year->0@, a);
    }
}

/// Before the first month there is nothing to be finalized.
pub proof fn law_start_of_the_first_month(r: MonthEnd, new_month: Seq<char>)
    requires
        is_month_end(r, Seq::empty(), new_month),
    ensures
        r.finalize is None,
        r.finalize_year is None,
{
    is_ascii_chars_encode_utf8(Seq::empty());
}

/// `n` keys that are kept have at least as many hits as a key that is not, and so have `n` keys, of
/// which some may be the same, as many bytes.
pub open spec fn outdone(
    before: Map<Seq<char>, (u64, u64)>,
    after: Map<Seq<char>, (u64, u64)>,
    n: nat,
    k: Seq<char>,
) -> bool {
    &&& exists|s: Set<Seq<char>>|
        #![trigger s.subset_of(after.dom())]
        s.subset_of(after.dom()) && s.finite() && s.len() == n && forall|t: Seq<char>| #[trigger]
            s.contains(t) ==> before[t].0 >= before[k].0
    &&& exists|s: Set<Seq<char>>|
        #![trigger s.subset_of(after.dom())]
        s.subset_of(after.dom()) && s.finite() && s.len() == n && forall|t: Seq<char>| #[trigger]
            s.contains(t) ==> before[t].1 >= before[k].1
}

proof fn lemma_trimmed_pairs(
    before: Map<Seq<char>, (u64, u64)>,
    after: Map<Seq<char>, (u64, u64)>,
    n: nat,
    k: Seq<char>,
)
    requires
        is_trimmed_pairs(before, after, n),
        before.dom().contains(k),
    ensures
        after.dom().contains(k) ==> after[k] == before[k],
        after.dom().contains(k) || outdone(before, after, n, k),
        before.dom().len() <= n ==> after.dom().contains(k),
{
    if before.dom().len() > n {
        let (by_hits, by_bandwidth) = choose|by_hits: Set<Seq<char>>, by_bandwidth: Set<Seq<char>>|
            #[trigger] is_top_keys(before, by_hits, n, super::flush::first())
                && #[trigger] is_top_keys(before, by_bandwidth, n, super::flush::second()) && after
                == before.restrict(by_hits.union(by_bandwidth));
        assert(by_hits.subset_of(after.dom()));
        assert(by_bandwidth.subset_of(after.dom()));
        if !after.dom().contains(k) {
            assert(!by_hits.contains(k) && !by_bandwidth.contains(k));
            assert forall|t: Seq<char>| #[trigger] by_hits.contains(t) implies before[t].0
                >= before[k].0 by {
                assert(super::flush::first()(before[t]) >= super::flush::first()(before[k]));
            }
            assert forall|t: Seq<char>| #[trigger] by_bandwidth.contains(t) implies before[t].1
                >= before[k].1 by {
                assert(super::flush::second()(before[t]) >= super::flush::second()(before[k]));
            }
        }
    }
}

/// Where the tables of a run are cut to the rows that can be shown, a URL, host or agent goes only
/// if as many others as are shown have at least its hits, and as many at least its bytes. The rows
/// that stay keep their numbers. Without a limit all stay.
pub proof fn law_best_rows_of_a_run_stay(before: AccView, after: AccView, top_n: nat, k: Seq<char>)
    requires
        is_trimmed(before, after, top_n),
    ensures
        top_n == 0 ==> after == before,
        before.urls.dom().contains(k) ==> (after.urls.dom().contains(k) && after.urls[k]
            == before.urls[k]) || (top_n > 0 && outdone(before.urls, after.urls, top_n, k)),
        before.hosts.dom().contains(k) ==> (after.hosts.dom().contains(k) && after.hosts[k]
            == before.hosts[k]) || (top_n > 0 && outdone(before.hosts, after.hosts, top_n, k)),
        before.agents.dom().contains(k) ==> (after.agents.dom().contains(k) && after.agents[k]
            == before.agents[k]) || (top_n > 0 && outdone(before.agents, after.agents, top_n, k)),
{
    if top_n > 0 {
        if before.urls.dom().contains(k) {
            lemma_trimmed_pairs(before.urls, after.urls, top_n, k);
        }
        if before.hosts.dom().contains(k) {
            lemma_trimmed_pairs(before.hosts, after.hosts, top_n, k);
        }
        if before.agents.dom().contains(k) {
            lemma_trimmed_pairs(before.agents, after.agents, top_n, k);
        }
    }
}

/// A referrer goes only if as many others as are shown were counted at least as often. What is not
/// shown in a table of rows stays as it was: the hours, the countries, the days' addresses, the
/// status codes, the methods and the protocols.
pub proof fn law_best_referrers_of_a_run_stay(
    before: AccView,
    after: AccView,
    top_n: nat,
    k: Seq<char>,
)
    requires
        is_trimmed(before, after, top_n),
        before.refs.dom().contains(k),
    ensures
        (after.refs.dom().contains(k) && after.refs[k] == before.refs[k]) || (top_n > 0 && exists|
            s: Set<Seq<char>>,
        |
            #![trigger s.subset_of(after.refs.dom())]
            s.subset_of(after.refs.dom()) && s.finite() && s.len() == top_n && forall|t: Seq<char>|
             #[trigger]
                s.contains(t) ==> before.refs[t] >= before.refs[k]),
        after.current_month == before.current_month,
        after.hourly == before.hourly,
        after.countries == before.countries,
        after.daily_ips == before.daily_ips,
        after.status_codes == before.status_codes,
        after.method_counts == before.method_counts,
        after.protocol_counts == before.protocol_counts,
{
    if top_n > 0 && before.refs.dom().len() > top_n {
        assert(is_trimmed_counts(before.refs, after.refs, top_n));
        let keep = choose|keep: Set<Seq<char>>| #[trigger]
            is_top_keys(before.refs, keep, top_n, super::flush::whole()) && after.refs
                == before.refs.restrict(keep);
        assert(keep.subset_of(after.refs.dom()));
        if !after.refs.dom().contains(k) {
            assert forall|t: Seq<char>| #[trigger] keep.contains(t) implies before.refs[t]
                >= before.refs[k] by {
                assert(super::flush::whole()(before.refs[t]) >= super::flush::whole()(
                    before.refs[k],
                ));
            }
        }
    }
}

} // verus!
