//! What the rows of the tables come to, column by column.

use vstd::prelude::*;
use vstd::string::*;

use super::ranks::{ErrUrlStats, UrlStats};
use super::writer::{
    count_sums, counted_slots, failure_sum_fits, failure_sums, failures_or_none, hour_sum_fits,
    hour_sums, is_flushed, merged_code, merged_name, method_labels, pair_sum_fits, pair_sums,
    proto_labels, time_of_text, url_or_none, url_sum_fits, url_sums,
};
use crate::accumulators::{no_traffic, HourlyStats};
use crate::aggregator::aggregation::later_of;
use crate::method_proto::{
    METHOD_DELETE, METHOD_GET, METHOD_HEAD, METHOD_OPTIONS, METHOD_OTHER, METHOD_PATCH, METHOD_POST,
    METHOD_PUT, PROTO_1_0, PROTO_1_1, PROTO_2_0, PROTO_3_0, PROTO_OTHER,
};
use crate::parser::combined::{all_digits, is_digit};
use crate::parser::figures::{figures, lemma_figures};

verus! {

/// A flush adds to each column of an hour what it holds of that hour, and leaves the other hours as
/// they were.
pub proof fn law_hour_columns_add_up<K>(
    table: Map<K, HourlyStats>,
    part: Map<K, HourlyStats>,
    flushed: Map<K, HourlyStats>,
    k: K,
)
    requires
        is_flushed(table, part, no_traffic(), hour_sums(), flushed),
    ensures
        flushed.dom().contains(k) <==> table.dom().contains(k) || part.dom().contains(k),
        !part.dom().contains(k) && table.dom().contains(k) ==> flushed[k] == table[k],
        part.dom().contains(k) ==> {
            &&& flushed[k].hits == part[k].hits + if table.dom().contains(k) {
                table[k].hits as int
            } else {
                0
            }
            &&& flushed[k].visits == part[k].visits + if table.dom().contains(k) {
                table[k].visits as int
            } else {
                0
            }
            &&& flushed[k].bandwidth == part[k].bandwidth + if table.dom().contains(k) {
                table[k].bandwidth as int
            } else {
                0
            }
            &&& flushed[k].files == part[k].files + if table.dom().contains(k) {
                table[k].files as int
            } else {
                0
            }
            &&& flushed[k].pages == part[k].pages + if table.dom().contains(k) {
                table[k].pages as int
            } else {
                0
            }
            &&& flushed[k].status_2xx == part[k].status_2xx + if table.dom().contains(k) {
                table[k].status_2xx as int
            } else {
                0
            }
            &&& flushed[k].status_3xx == part[k].status_3xx + if table.dom().contains(k) {
                table[k].status_3xx as int
            } else {
                0
            }
            &&& flushed[k].status_4xx == part[k].status_4xx + if table.dom().contains(k) {
                table[k].status_4xx as int
            } else {
                0
            }
            &&& flushed[k].status_5xx == part[k].status_5xx + if table.dom().contains(k) {
                table[k].status_5xx as int
            } else {
                0
            }
        },
{
    if table.dom().contains(k) || part.dom().contains(k) {
        assert(flushed.dom().contains(k));
    }
}

/// A flush adds to each column of a failing URL what it holds of that URL, and leaves the other URLs
/// as they were.
pub proof fn law_failure_columns_add_up<K>(
    table: Map<K, ErrUrlStats>,
    part: Map<K, ErrUrlStats>,
    flushed: Map<K, ErrUrlStats>,
    k: K,
)
    requires
        is_flushed(table, part, failures_or_none(None), failure_sums(), flushed),
    ensures
        flushed.dom().contains(k) <==> table.dom().contains(k) || part.dom().contains(k),
        !part.dom().contains(k) && table.dom().contains(k) ==> flushed[k] == table[k],
        part.dom().contains(k) ==> {
            &&& flushed[k].c400 == part[k].c400 + if table.dom().contains(k) {
                table[k].c400 as int
            } else {
                0
            }
            &&& flushed[k].c401 == part[k].c401 + if table.dom().contains(k) {
                table[k].c401 as int
            } else {
                0
            }
            &&& flushed[k].c403 == part[k].c403 + if table.dom().contains(k) {
                table[k].c403 as int
            } else {
                0
            }
            &&& flushed[k].c404 == part[k].c404 + if table.dom().contains(k) {
                table[k].c404 as int
            } else {
                0
            }
            &&& flushed[k].c422 == part[k].c422 + if table.dom().contains(k) {
                table[k].c422 as int
            } else {
                0
            }
            &&& flushed[k].c429 == part[k].c429 + if table.dom().contains(k) {
                table[k].c429 as int
            } else {
                0
            }
            &&& flushed[k].c4xx == part[k].c4xx + if table.dom().contains(k) {
                table[k].c4xx as int
            } else {
                0
            }
            &&& flushed[k].c500 == part[k].c500 + if table.dom().contains(k) {
                table[k].c500 as int
            } else {
                0
            }
            &&& flushed[k].c502 == part[k].c502 + if table.dom().contains(k) {
                table[k].c502 as int
            } else {
                0
            }
            &&& flushed[k].c503 == part[k].c503 + if table.dom().contains(k) {
                table[k].c503 as int
            } else {
                0
            }
            &&& flushed[k].c5xx == part[k].c5xx + if table.dom().contains(k) {
                table[k].c5xx as int
            } else {
                0
            }
            &&& flushed[k].bandwidth == part[k].bandwidth + if table.dom().contains(k) {
                table[k].bandwidth as int
            } else {
                0
            }
        },
{
    if table.dom().contains(k) || part.dom().contains(k) {
        assert(flushed.dom().contains(k));
    }
}

/// A flush adds to the hits, the bytes and the response times of a URL what it holds of that URL. Its
/// longest time is the longer of the two.
pub proof fn law_url_columns_add_up<K>(
    table: Map<K, UrlStats>,
    part: Map<K, UrlStats>,
    flushed: Map<K, UrlStats>,
    k: K,
)
    requires
        is_flushed(table, part, url_or_none(None), url_sums(), flushed),
    ensures
        flushed.dom().contains(k) <==> table.dom().contains(k) || part.dom().contains(k),
        !part.dom().contains(k) && table.dom().contains(k) ==> flushed[k] == table[k],
        part.dom().contains(k) ==> {
            &&& flushed[k].hits == part[k].hits + if table.dom().contains(k) {
                table[k].hits as int
            } else {
                0
            }
            &&& flushed[k].bandwidth == part[k].bandwidth + if table.dom().contains(k) {
                table[k].bandwidth as int
            } else {
                0
            }
            &&& flushed[k].rt_sum == part[k].rt_sum + if table.dom().contains(k) {
                table[k].rt_sum as int
            } else {
                0
            }
            &&& flushed[k].rt_count == part[k].rt_count + if table.dom().contains(k) {
                table[k].rt_count as int
            } else {
                0
            }
            &&& flushed[k].rt_max >= part[k].rt_max
            &&& table.dom().contains(k) ==> flushed[k].rt_max >= table[k].rt_max
            &&& flushed[k].rt_max == part[k].rt_max || (table.dom().contains(k)
                && flushed[k].rt_max == table[k].rt_max)
        },
{
    if table.dom().contains(k) || part.dom().contains(k) {
        assert(flushed.dom().contains(k));
    }
}

/// A flush adds to a pair of hits and bytes, and to a single count, what it holds of them.
pub proof fn law_counts_add_up<K>(
    table: Map<K, (u64, u64)>,
    part: Map<K, (u64, u64)>,
    flushed: Map<K, (u64, u64)>,
    counts: Map<K, u64>,
    more: Map<K, u64>,
    sums: Map<K, u64>,
    k: K,
)
    requires
        is_flushed(table, part, (0u64, 0u64), pair_sums(), flushed),
        is_flushed(counts, more, 0u64, count_sums(), sums),
    ensures
        part.dom().contains(k) && table.dom().contains(k) ==> flushed[k].0 == table[k].0 + part[k].0
            && flushed[k].1 == table[k].1 + part[k].1,
        part.dom().contains(k) && !table.dom().contains(k) ==> flushed[k] == part[k],
        !part.dom().contains(k) && table.dom().contains(k) ==> flushed[k] == table[k],
        more.dom().contains(k) && counts.dom().contains(k) ==> sums[k] == counts[k] + more[k],
        more.dom().contains(k) && !counts.dom().contains(k) ==> sums[k] == more[k],
        !more.dom().contains(k) && counts.dom().contains(k) ==> sums[k] == counts[k],
{
    if table.dom().contains(k) || part.dom().contains(k) {
        assert(flushed.dom().contains(k));
    }
    if counts.dom().contains(k) || more.dom().contains(k) {
        assert(sums.dom().contains(k));
    }
}

/// A sum is refused if and only if one of the columns would leave the range of a signed number of 64
/// bits: nothing wraps around.
pub proof fn law_columns_do_not_overflow(
    a: HourlyStats,
    b: HourlyStats,
    u: UrlStats,
    v: UrlStats,
    p: (u64, u64),
    q: (u64, u64),
)
    ensures
        hour_sum_fits(a, b) <==> {
            &&& a.hits + b.hits <= 0x7fff_ffff_ffff_ffff
            &&& a.visits + b.visits <= 0x7fff_ffff_ffff_ffff
            &&& a.bandwidth + b.bandwidth <= 0x7fff_ffff_ffff_ffff
            &&& a.files + b.files <= 0x7fff_ffff_ffff_ffff
            &&& a.pages + b.pages <= 0x7fff_ffff_ffff_ffff
            &&& a.status_2xx + b.status_2xx <= 0x7fff_ffff_ffff_ffff
            &&& a.status_3xx + b.status_3xx <= 0x7fff_ffff_ffff_ffff
            &&& a.status_4xx + b.status_4xx <= 0x7fff_ffff_ffff_ffff
            &&& a.status_5xx + b.status_5xx <= 0x7fff_ffff_ffff_ffff
        },
        url_sum_fits(u, v) <==> {
            &&& u.hits + v.hits <= 0x7fff_ffff_ffff_ffff
            &&& u.bandwidth + v.bandwidth <= 0x7fff_ffff_ffff_ffff
            &&& u.rt_sum + v.rt_sum <= 0x7fff_ffff_ffff_ffff
            &&& u.rt_count + v.rt_count <= 0x7fff_ffff_ffff_ffff
        },
        pair_sum_fits(p, q) <==> p.0 + q.0 <= 0x7fff_ffff_ffff_ffff && p.1 + q.1
            <= 0x7fff_ffff_ffff_ffff,
{
}

/// The same holds of the columns of failing URLs.
pub proof fn law_failure_columns_do_not_overflow(a: ErrUrlStats, b: ErrUrlStats)
    ensures
        failure_sum_fits(a, b) <==> {
            &&& a.c400 + b.c400 <= 0x7fff_ffff_ffff_ffff
            &&& a.c401 + b.c401 <= 0x7fff_ffff_ffff_ffff
            &&& a.c403 + b.c403 <= 0x7fff_ffff_ffff_ffff
            &&& a.c404 + b.c404 <= 0x7fff_ffff_ffff_ffff
            &&& a.c422 + b.c422 <= 0x7fff_ffff_ffff_ffff
            &&& a.c429 + b.c429 <= 0x7fff_ffff_ffff_ffff
            &&& a.c4xx + b.c4xx <= 0x7fff_ffff_ffff_ffff
            &&& a.c500 + b.c500 <= 0x7fff_ffff_ffff_ffff
            &&& a.c502 + b.c502 <= 0x7fff_ffff_ffff_ffff
            &&& a.c503 + b.c503 <= 0x7fff_ffff_ffff_ffff
            &&& a.c5xx + b.c5xx <= 0x7fff_ffff_ffff_ffff
            &&& a.bandwidth + b.bandwidth <= 0x7fff_ffff_ffff_ffff
        },
{
}

/// The code of a host's country is that of the last lookup that found one; the name of a country is
/// the first that was found.
pub proof fn law_countries_once_known_stay(stored: Seq<char>, new: Seq<char>)
    ensures
        merged_code(None, new) == new,
        merged_code(Some(stored), seq!['-', '-']) == stored,
        new != seq!['-', '-'] ==> merged_code(Some(stored), new) == new,
        merged_name(None, new) == new,
        merged_name(Some(seq!['U', 'n', 'k', 'n', 'o', 'w', 'n']), new) == new,
        stored != seq!['U', 'n', 'k', 'n', 'o', 'w', 'n'] ==> merged_name(Some(stored), new)
            == stored,
{
    reveal_strlit("--");
    assert("--"@ =~= seq!['-', '-']);
    reveal_strlit("Unknown");
    assert("Unknown"@ =~= seq!['U', 'n', 'k', 'n', 'o', 'w', 'n']);
}

/// Of the time that is stored of a visitor and a new one, the later is stored.
pub proof fn law_later_time_is_stored(stored: i64, ts: i64)
    ensures
        later_of(None, ts) == ts,
        later_of(Some(stored), ts) >= stored,
        later_of(Some(stored), ts) >= ts,
        later_of(Some(stored), ts) == stored || later_of(Some(stored), ts) == ts,
{
}

/// A stored time is read as it was written, with a minus sign where it is below zero. One that does
/// not fit counts as zero, and so does a text that is no number.
pub proof fn law_stored_times_are_read(n: nat)
    ensures
        n <= 0x7fff_ffff_ffff_ffff ==> time_of_text(figures(n)) == n,
        n > 0x7fff_ffff_ffff_ffff ==> time_of_text(figures(n)) == 0,
        n <= 0x8000_0000_0000_0000 ==> time_of_text(seq!['-' as u8] + figures(n)) == -n,
        n > 0x8000_0000_0000_0000 ==> time_of_text(seq!['-' as u8] + figures(n)) == 0,
        time_of_text(Seq::<u8>::empty()) == 0,
        time_of_text(seq!['x' as u8] + figures(n)) == 0,
{
    lemma_figures(n);
    let s = figures(n);
    assert(is_digit(s[0]));
    let m = seq!['-' as u8] + s;
    assert(m.skip(1) =~= s);
    let x = seq!['x' as u8] + s;
    assert(!is_digit(x[0]));
    assert(!all_digits(x));
}

/// Every slot that was counted has one row, with its name and its count, and the rows are in the
/// order of the slots. One that was not counted has none.
pub proof fn law_counted_slots_have_rows(
    counts: Seq<u64>,
    label: spec_fn(int) -> Seq<char>,
    n: int,
    i: int,
)
    requires
        0 <= i < n <= counts.len(),
    ensures
        counts[i] > 0 ==> counted_slots(counts, label, n).contains((label(i), counts[i])),
        counted_slots(counts, label, n).len() <= n,
        forall|j: int|
            0 <= j < counted_slots(counts, label, n).len() ==> (#[trigger] counted_slots(
                counts,
                label,
                n,
            )[j]).1 > 0,
        (forall|k: int| 0 <= k < n ==> counts[k] > 0) ==> counted_slots(counts, label, n).len() == n,
    decreases n,
{
    let rows = counted_slots(counts, label, n);
    let before = counted_slots(counts, label, n - 1);
    if i < n - 1 {
        law_counted_slots_have_rows(counts, label, n - 1, i);
        if counts[i] > 0 {
            let j = choose|j: int| 0 <= j < before.len() && before[j] == (label(i), counts[i]);
            assert(rows[j] == before[j]);
        }
    } else {
        if counts[i] > 0 {
            assert(rows[before.len() as int] == (label(i), counts[i]));
        }
        if n > 1 {
            law_counted_slots_have_rows(counts, label, n - 1, 0);
        }
    }
}

/// The names under which methods and protocol versions are stored.
pub proof fn law_names_of_slots()
    ensures
        method_labels()(METHOD_GET as int) == seq!['G', 'E', 'T'],
        method_labels()(METHOD_POST as int) == seq!['P', 'O', 'S', 'T'],
        method_labels()(METHOD_HEAD as int) == seq!['H', 'E', 'A', 'D'],
        method_labels()(METHOD_PUT as int) == seq!['P', 'U', 'T'],
        method_labels()(METHOD_DELETE as int) == seq!['D', 'E', 'L', 'E', 'T', 'E'],
        method_labels()(METHOD_OPTIONS as int) == seq!['O', 'P', 'T', 'I', 'O', 'N', 'S'],
        method_labels()(METHOD_PATCH as int) == seq!['P', 'A', 'T', 'C', 'H'],
        method_labels()(METHOD_OTHER as int) == seq!['o', 't', 'h', 'e', 'r'],
        proto_labels()(PROTO_1_0 as int) == seq!['1', '.', '0'],
        proto_labels()(PROTO_1_1 as int) == seq!['1', '.', '1'],
        proto_labels()(PROTO_2_0 as int) == seq!['2', '.', '0'],
        proto_labels()(PROTO_3_0 as int) == seq!['3', '.', '0'],
        proto_labels()(PROTO_OTHER as int) == seq!['o', 't', 'h', 'e', 'r'],
{
    reveal_strlit("GET");
    reveal_strlit("POST");
    reveal_strlit("HEAD");
    reveal_strlit("PUT");
    reveal_strlit("DELETE");
    reveal_strlit("OPTIONS");
    reveal_strlit("PATCH");
    reveal_strlit("other");
    reveal_strlit("1.0");
    reveal_strlit("1.1");
    reveal_strlit("2.0");
    reveal_strlit("3.0");
}

} // verus!
