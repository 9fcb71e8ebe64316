//! Which rows a table keeps, told by how many other rows do better.

use vstd::prelude::*;
use vstd::set_lib::*;

use super::ranks::{
    averages, bucket_rule, bucket_time_low, count_score, count_scores, error_column,
    error_columns, failure_pairs, firsts_of, is_culled_counts, is_culled_pairs, is_culled_urls, is_kept, is_last_average,
    is_last_shown, is_low, pair_columns, seconds_of, totals_fit, url_bandwidths_of, url_columns,
    url_hits_of, url_rule, url_time_low, ErrUrlStats, UrlStats, ERROR_COLUMNS,
};
use crate::ranking::{is_best, is_nth_best, is_worst, lemma_counts, Score};

verus! {

// ── Rows that do better ─────────────────────────────────────────────────────

/// The other rows whose value is not smaller than that of a row.
pub open spec fn reached_by(values: Seq<u64>, p: int) -> Set<usize> {
    Set::new(|q: usize| q < values.len() && q != p && values[q as int] >= values[p])
}

/// The rows whose value is larger than a number.
pub open spec fn above(values: Seq<u64>, t: int) -> Set<usize> {
    Set::new(|q: usize| q < values.len() && values[q as int] > t)
}

/// A row's average response time is larger than a multiple of that of another, which counts as zero
/// where none was measured.
pub open spec fn is_slower(q: UrlStats, times: int, p: UrlStats) -> bool {
    q.rt_count > 0 && if p.rt_count > 0 {
        q.rt_sum * p.rt_count > times * (p.rt_sum * q.rt_count)
    } else {
        q.rt_sum > 0
    }
}

/// The rows whose average response time is larger than a multiple of that of a row.
pub open spec fn slower(rows: Seq<UrlStats>, times: int, p: UrlStats) -> Set<usize> {
    Set::new(|q: usize| q < rows.len() && is_slower(rows[q as int], times, p))
}

/// The other rows whose average response time is not smaller than that of a row.
pub open spec fn as_slow(rows: Seq<UrlStats>, p: int) -> Set<usize> {
    Set::new(
        |q: usize|
            q < rows.len() && q != p && rows[q as int].rt_count > 0 && rows[q as int].rt_sum
                * rows[p].rt_count >= rows[p].rt_sum * rows[q as int].rt_count,
    )
}

/// The rows with a response time.
pub open spec fn timed(rows: Seq<UrlStats>) -> Set<usize> {
    Set::new(|q: usize| q < rows.len() && rows[q as int].rt_count > 0)
}

/// Positions below a number are finitely many.
proof fn lemma_positions(s: Set<usize>, len: int)
    requires
        0 <= len <= usize::MAX,
        forall|q: usize| s.contains(q) ==> q < len,
    ensures
        s.finite(),
{
    let all = Seq::new(len as nat, |i: int| i as usize);
    assert forall|q: usize| s.contains(q) implies all.to_set().contains(q) by {
        assert(all[q as int] == q);
    }
    assert(s.subset_of(all.to_set()));
    lemma_len_subset(s, all.to_set());
}

proof fn lemma_among_best(
    scores: Seq<Option<Score>>,
    top: Seq<usize>,
    n: int,
    p: usize,
    rivals: Set<usize>,
)
    requires
        is_best(scores, top, n),
        p < scores.len(),
        scores[p as int] is Some,
        rivals.finite(),
        rivals.len() < n,
        forall|q: usize|
            q < scores.len() && q != p && scores[q as int] is Some && scores[q as int]->0.ge(
                scores[p as int]->0,
            ) ==> rivals.contains(q),
    ensures
        top.contains(p),
{
    if !top.contains(p) {
        let set = top.to_set();
        top.unique_seq_to_set();
        assert forall|q: usize| set.contains(q) implies rivals.contains(q) by {
            let i = choose|i: int| 0 <= i < top.len() && top[i] == q;
            assert(top[i] < scores.len());
            assert(scores[top[i] as int]->0.ge(scores[p as int]->0));
        }
        assert(set.subset_of(rivals));
        lemma_len_subset(set, rivals);
    }
}

proof fn lemma_few_better(
    scores: Seq<Option<Score>>,
    top: Seq<usize>,
    n: int,
    p: usize,
    better: Set<usize>,
)
    requires
        is_best(scores, top, n),
        top.contains(p),
        forall|q: usize|
            better.contains(q) ==> q < scores.len() && scores[q as int] is Some
                && !scores[p as int]->0.ge(scores[q as int]->0),
    ensures
        better.finite(),
        better.len() < n,
{
    let set = top.to_set();
    top.unique_seq_to_set();
    let at = choose|i: int| 0 <= i < top.len() && top[i] == p;
    assert(top[at] < scores.len());
    assert(set.contains(p));
    assert forall|q: usize| better.contains(q) implies set.remove(p).contains(q) by {
        if !top.contains(q) {
            assert(scores[q as int] is Some);
            assert(scores[top[at] as int]->0.ge(scores[q as int]->0));
        }
        assert(q != p) by {
            if q == p {
                assert(scores[p as int]->0.ge(scores[p as int]->0));
            }
        }
        assert(set.contains(q));
    }
    assert(better.subset_of(set.remove(p)));
    lemma_len_subset(better, set.remove(p));
}

// ── Pruning ─────────────────────────────────────────────────────────────────

proof fn lemma_kept_by_count(
    columns: Seq<Seq<Option<Score>>>,
    k: int,
    values: Seq<u64>,
    n: int,
    keep: Seq<bool>,
    p: usize,
)
    requires
        is_kept(columns, values.len() as int, n, keep),
        0 <= k < columns.len(),
        columns[k] == count_scores(values),
        values.len() <= usize::MAX,
        p < values.len(),
        reached_by(values, p as int).len() < n,
    ensures
        keep[p as int],
{
    let scores = count_scores(values);
    let tops = choose|tops: Seq<Seq<usize>>|
        {
            &&& #[trigger] tops.len() == columns.len()
            &&& forall|k: int|
                0 <= k < columns.len() ==> is_best(#[trigger] columns[k], #[trigger] tops[k], n)
            &&& forall|p: int|
                0 <= p < values.len() ==> (#[trigger] keep[p] <==> exists|k: int|
                    0 <= k < tops.len() && (#[trigger] tops[k]).contains(p as usize))
        };
    assert(is_best(columns[k], tops[k], n));
    let rivals = reached_by(values, p as int);
    lemma_positions(rivals, values.len() as int);
    assert forall|q: usize|
        q < scores.len() && q != p && scores[q as int] is Some && scores[q as int]->0.ge(
            scores[p as int]->0,
        ) implies rivals.contains(q) by {
        lemma_counts(scores[q as int]->0, scores[p as int]->0);
    }
    lemma_among_best(scores, tops[k], n, p, rivals);
    assert(tops[k].contains(p));
    assert(keep[p as int]);
}

/// Where a row is kept, some column has it among its best.
proof fn lemma_kept_for(columns: Seq<Seq<Option<Score>>>, rows: int, n: int, keep: Seq<bool>, p: int)
    requires
        is_kept(columns, rows, n, keep),
        0 <= p < rows <= usize::MAX,
        keep[p],
    ensures
        exists|k: int, top: Seq<usize>|
            0 <= k < columns.len() && #[trigger] is_best(columns[k], top, n) && top.contains(
                p as usize,
            ),
{
    let tops = choose|tops: Seq<Seq<usize>>|
        {
            &&& #[trigger] tops.len() == columns.len()
            &&& forall|k: int|
                0 <= k < columns.len() ==> is_best(#[trigger] columns[k], #[trigger] tops[k], n)
            &&& forall|p: int|
                0 <= p < rows ==> (#[trigger] keep[p] <==> exists|k: int|
                    0 <= k < tops.len() && (#[trigger] tops[k]).contains(p as usize))
        };
    let k = choose|k: int| 0 <= k < tops.len() && (#[trigger] tops[k]).contains(p as usize);
    assert(is_best(columns[k], tops[k], n));
}

proof fn lemma_few_above(values: Seq<u64>, top: Seq<usize>, n: int, p: usize)
    requires
        is_best(count_scores(values), top, n),
        top.contains(p),
    ensures
        above(values, values[p as int] as int).len() < n,
{
    let scores = count_scores(values);
    let better = above(values, values[p as int] as int);
    let at = choose|i: int| 0 <= i < top.len() && top[i] == p;
    assert(top[at] < scores.len());
    assert forall|q: usize| better.contains(q) implies q < scores.len() && scores[q as int] is Some
        && !scores[p as int]->0.ge(scores[q as int]->0) by {
        lemma_counts(scores[p as int]->0, scores[q as int]->0);
    }
    lemma_few_better(scores, top, n, p, better);
}

/// The values are those of one column of a table of failing URLs: of one status, of the other
/// statuses of a class, or of the bytes.
pub open spec fn is_failure_column(rows: Seq<ErrUrlStats>, values: Seq<u64>) -> bool {
    &&& values.len() == rows.len()
    &&& {
        ||| forall|i: int| 0 <= i < rows.len() ==> #[trigger] values[i] == rows[i].c400
        ||| forall|i: int| 0 <= i < rows.len() ==> #[trigger] values[i] == rows[i].c401
        ||| forall|i: int| 0 <= i < rows.len() ==> #[trigger] values[i] == rows[i].c403
        ||| forall|i: int| 0 <= i < rows.len() ==> #[trigger] values[i] == rows[i].c404
        ||| forall|i: int| 0 <= i < rows.len() ==> #[trigger] values[i] == rows[i].c422
        ||| forall|i: int| 0 <= i < rows.len() ==> #[trigger] values[i] == rows[i].c429
        ||| forall|i: int| 0 <= i < rows.len() ==> #[trigger] values[i] == rows[i].c4xx
        ||| forall|i: int| 0 <= i < rows.len() ==> #[trigger] values[i] == rows[i].c500
        ||| forall|i: int| 0 <= i < rows.len() ==> #[trigger] values[i] == rows[i].c502
        ||| forall|i: int| 0 <= i < rows.len() ==> #[trigger] values[i] == rows[i].c503
        ||| forall|i: int| 0 <= i < rows.len() ==> #[trigger] values[i] == rows[i].c5xx
        ||| forall|i: int| 0 <= i < rows.len() ==> #[trigger] values[i] == rows[i].bandwidth
    }
}

proof fn lemma_failure_column(rows: Seq<ErrUrlStats>, values: Seq<u64>) -> (k: int)
    requires
        is_failure_column(rows, values),
    ensures
        0 <= k < ERROR_COLUMNS,
        error_columns(rows)[k] == count_scores(values),
{
    let scores = count_scores(values);
    let columns = error_columns(rows);
    let k: int = if forall|i: int| 0 <= i < rows.len() ==> #[trigger] values[i] == rows[i].c400 {
        0
    } else if forall|i: int| 0 <= i < rows.len() ==> #[trigger] values[i] == rows[i].c401 {
        1
    } else if forall|i: int| 0 <= i < rows.len() ==> #[trigger] values[i] == rows[i].c403 {
        2
    } else if forall|i: int| 0 <= i < rows.len() ==> #[trigger] values[i] == rows[i].c404 {
        3
    } else if forall|i: int| 0 <= i < rows.len() ==> #[trigger] values[i] == rows[i].c422 {
        4
    } else if forall|i: int| 0 <= i < rows.len() ==> #[trigger] values[i] == rows[i].c429 {
        5
    } else if forall|i: int| 0 <= i < rows.len() ==> #[trigger] values[i] == rows[i].c4xx {
        6
    } else if forall|i: int| 0 <= i < rows.len() ==> #[trigger] values[i] == rows[i].c500 {
        7
    } else if forall|i: int| 0 <= i < rows.len() ==> #[trigger] values[i] == rows[i].c502 {
        8
    } else if forall|i: int| 0 <= i < rows.len() ==> #[trigger] values[i] == rows[i].c503 {
        9
    } else if forall|i: int| 0 <= i < rows.len() ==> #[trigger] values[i] == rows[i].c5xx {
        10
    } else {
        11
    };
    assert(columns[k] =~= scores) by {
        assert forall|i: int| 0 <= i < rows.len() implies columns[k][i] == scores[i] by {
            assert(scores[i] == count_score(values[i]));
        }
    }
    k
}

/// The values of a column by its place.
spec fn failure_values(rows: Seq<ErrUrlStats>, k: int) -> Seq<u64> {
    Seq::new(rows.len(), |i: int| error_column(rows[i], k))
}

proof fn lemma_failure_values(rows: Seq<ErrUrlStats>, k: int)
    requires
        0 <= k < ERROR_COLUMNS,
    ensures
        is_failure_column(rows, failure_values(rows, k)),
        error_columns(rows)[k] == count_scores(failure_values(rows, k)),
{
    assert(error_columns(rows)[k] =~= count_scores(failure_values(rows, k)));
}

/// A failing URL stays at the end of a month if and only if it is among the worst by some column: a
/// row that fewer than `n` others reach in one of the columns stays, and a row that stays is
/// surpassed by fewer than `n` in one of them.
pub proof fn law_worst_failures_stay(
    rows: Seq<ErrUrlStats>,
    values: Seq<u64>,
    n: int,
    keep: Seq<bool>,
    p: usize,
)
    requires
        is_kept(error_columns(rows), rows.len() as int, n, keep),
        is_failure_column(rows, values),
        rows.len() <= usize::MAX,
        p < rows.len(),
    ensures
        reached_by(values, p as int).len() < n ==> keep[p as int],
        keep[p as int] ==> exists|column: Seq<u64>| #[trigger]
            is_failure_column(rows, column) && above(column, column[p as int] as int).len() < n,
{
    let columns = error_columns(rows);
    if reached_by(values, p as int).len() < n {
        let k = lemma_failure_column(rows, values);
        lemma_kept_by_count(columns, k, values, n, keep, p);
    }
    if keep[p as int] {
        lemma_kept_for(columns, rows.len() as int, n, keep, p as int);
        let (k, top) = choose|k: int, top: Seq<usize>|
            0 <= k < columns.len() && #[trigger] is_best(columns[k], top, n) && top.contains(
                p as int as usize,
            );
        lemma_failure_values(rows, k);
        lemma_few_above(failure_values(rows, k), top, n, p);
    }
}

/// A row of counts stays at the end of a month if fewer than `n` others reach it, and only if fewer
/// than `n` surpass it.
pub proof fn law_best_counts_stay(values: Seq<u64>, n: int, keep: Seq<bool>, p: usize)
    requires
        is_kept(seq![count_scores(values)], values.len() as int, n, keep),
        values.len() <= usize::MAX,
        p < values.len(),
    ensures
        reached_by(values, p as int).len() < n ==> keep[p as int],
        keep[p as int] ==> above(values, values[p as int] as int).len() < n,
{
    let columns = seq![count_scores(values)];
    if reached_by(values, p as int).len() < n {
        lemma_kept_by_count(columns, 0, values, n, keep, p);
    }
    if keep[p as int] {
        lemma_kept_for(columns, values.len() as int, n, keep, p as int);
        let (k, top) = choose|k: int, top: Seq<usize>|
            0 <= k < columns.len() && #[trigger] is_best(columns[k], top, n) && top.contains(
                p as int as usize,
            );
        lemma_few_above(values, top, n, p);
    }
}

/// The values are those of one column of a table of pairs.
pub open spec fn is_pair_column(rows: Seq<(u64, u64)>, values: Seq<u64>) -> bool {
    &&& values.len() == rows.len()
    &&& {
        ||| forall|i: int| 0 <= i < rows.len() ==> #[trigger] values[i] == rows[i].0
        ||| forall|i: int| 0 <= i < rows.len() ==> #[trigger] values[i] == rows[i].1
    }
}

/// A row of hits and bytes stays at the end of a month if it is among the best by either: if fewer
/// than `n` others reach it in one, and only if fewer than `n` surpass it in one.
pub proof fn law_best_pairs_stay(
    rows: Seq<(u64, u64)>,
    values: Seq<u64>,
    n: int,
    keep: Seq<bool>,
    p: usize,
)
    requires
        is_kept(pair_columns(rows), rows.len() as int, n, keep),
        is_pair_column(rows, values),
        rows.len() <= usize::MAX,
        p < rows.len(),
    ensures
        reached_by(values, p as int).len() < n ==> keep[p as int],
        keep[p as int] ==> exists|column: Seq<u64>| #[trigger]
            is_pair_column(rows, column) && above(column, column[p as int] as int).len() < n,
{
    let columns = pair_columns(rows);
    if reached_by(values, p as int).len() < n {
        if forall|i: int| 0 <= i < rows.len() ==> #[trigger] values[i] == rows[i].0 {
            assert(values =~= firsts_of(rows));
            lemma_kept_by_count(columns, 0, values, n, keep, p);
        } else {
            assert(values =~= seconds_of(rows));
            lemma_kept_by_count(columns, 1, values, n, keep, p);
        }
    }
    if keep[p as int] {
        lemma_kept_for(columns, rows.len() as int, n, keep, p as int);
        let (k, top) = choose|k: int, top: Seq<usize>|
            0 <= k < columns.len() && #[trigger] is_best(columns[k], top, n) && top.contains(
                p as int as usize,
            );
        let column = if k == 0 {
            firsts_of(rows)
        } else {
            seconds_of(rows)
        };
        assert(columns[k] == count_scores(column));
        lemma_few_above(column, top, n, p);
        assert(is_pair_column(rows, column));
    }
}

proof fn lemma_slow(rows: Seq<UrlStats>, p: usize, q: usize)
    requires
        p < rows.len(),
        q < rows.len(),
        rows[p as int].rt_count > 0,
        rows[q as int].rt_count > 0,
    ensures
        averages(rows)[q as int]->0.ge(averages(rows)[p as int]->0) == (rows[q as int].rt_sum
            * rows[p as int].rt_count >= rows[p as int].rt_sum * rows[q as int].rt_count),
        is_slower(rows[q as int], 1, rows[p as int]) == !averages(rows)[p as int]->0.ge(
            averages(rows)[q as int]->0,
        ),
{
}

/// A URL stays at the end of a month if it is among the best by hits, by bytes or by its average
/// response time: if fewer than `n` others reach it in one of these, and only if fewer than `n`
/// surpass it in one.
pub proof fn law_best_urls_stay(rows: Seq<UrlStats>, n: int, keep: Seq<bool>, p: usize)
    requires
        is_kept(url_columns(rows), rows.len() as int, n, keep),
        rows.len() <= usize::MAX,
        p < rows.len(),
    ensures
        ({
            let row = rows[p as int];
            let hits = rows.map_values(|r: UrlStats| r.hits);
            let bytes = rows.map_values(|r: UrlStats| r.bandwidth);
            &&& reached_by(hits, p as int).len() < n ==> keep[p as int]
            &&& reached_by(bytes, p as int).len() < n ==> keep[p as int]
            &&& row.rt_count > 0 && as_slow(rows, p as int).len() < n ==> keep[p as int]
            &&& keep[p as int] ==> {
                ||| above(hits, row.hits as int).len() < n
                ||| above(bytes, row.bandwidth as int).len() < n
                ||| row.rt_count > 0 && slower(rows, 1, row).len() < n
            }
        }),
{
    let columns = url_columns(rows);
    let row = rows[p as int];
    let hits = rows.map_values(|r: UrlStats| r.hits);
    let bytes = rows.map_values(|r: UrlStats| r.bandwidth);
    assert(hits =~= url_hits_of(rows));
    assert(bytes =~= url_bandwidths_of(rows));
    if reached_by(hits, p as int).len() < n {
        lemma_kept_by_count(columns, 0, hits, n, keep, p);
    }
    if reached_by(bytes, p as int).len() < n {
        lemma_kept_by_count(columns, 1, bytes, n, keep, p);
    }
    let scores = averages(rows);
    if row.rt_count > 0 && as_slow(rows, p as int).len() < n {
        let tops = choose|tops: Seq<Seq<usize>>|
            {
                &&& #[trigger] tops.len() == columns.len()
                &&& forall|k: int|
                    0 <= k < columns.len() ==> is_best(#[trigger] columns[k], #[trigger] tops[k], n)
                &&& forall|p: int|
                    0 <= p < rows.len() ==> (#[trigger] keep[p] <==> exists|k: int|
                        0 <= k < tops.len() && (#[trigger] tops[k]).contains(p as usize))
            };
        assert(is_best(columns[2], tops[2], n));
        let rivals = as_slow(rows, p as int);
        lemma_positions(rivals, rows.len() as int);
        assert forall|q: usize|
            q < scores.len() && q != p && scores[q as int] is Some && scores[q as int]->0.ge(
                scores[p as int]->0,
            ) implies rivals.contains(q) by {
            lemma_slow(rows, p, q);
        }
        lemma_among_best(scores, tops[2], n, p, rivals);
        assert(tops[2].contains(p));
        assert(keep[p as int]);
    }
    if keep[p as int] {
        lemma_kept_for(columns, rows.len() as int, n, keep, p as int);
        let (k, top) = choose|k: int, top: Seq<usize>|
            0 <= k < columns.len() && #[trigger] is_best(columns[k], top, n) && top.contains(
                p as int as usize,
            );
        if k == 0 {
            lemma_few_above(hits, top, n, p);
        } else if k == 1 {
            lemma_few_above(bytes, top, n, p);
        } else {
            let better = slower(rows, 1, row);
            let at = choose|i: int| 0 <= i < top.len() && top[i] == p;
            assert(top[at] < scores.len() && scores[top[at] as int] is Some);
            assert forall|q: usize| better.contains(q) implies q < scores.len()
                && scores[q as int] is Some && !scores[p as int]->0.ge(scores[q as int]->0) by {
                lemma_slow(rows, p, q);
            }
            lemma_few_better(scores, top, n, p, better);
        }
    }
}

// ── Culling ─────────────────────────────────────────────────────────────────

/// The last of `n` best values is larger than a number if and only if `n` values are.
proof fn lemma_last(values: Seq<u64>, n: int, last: u64, t: int)
    requires
        is_nth_best(count_scores(values), n, Score { num: last, den: 1 }),
        values.len() <= usize::MAX,
    ensures
        above(values, t).len() >= n <==> t < last,
{
    let scores = count_scores(values);
    let v = Score { num: last, den: 1 };
    let top = choose|top: Seq<usize>| #[trigger]
        is_best(scores, top, n) && top.len() == n && is_worst(scores, top, v);
    let set = top.to_set();
    top.unique_seq_to_set();
    let high = above(values, t);
    lemma_positions(high, values.len() as int);
    if t < last {
        assert forall|q: usize| set.contains(q) implies high.contains(q) by {
            let i = choose|i: int| 0 <= i < top.len() && top[i] == q;
            assert(top[i] < scores.len());
            assert(scores[top[i] as int]->0.ge(v));
            lemma_counts(scores[q as int]->0, v);
        }
        assert(set.subset_of(high));
        lemma_len_subset(set, high);
    } else {
        let w = choose|i: int| 0 <= i < top.len() && scores[#[trigger] top[i] as int] == Some(v);
        assert(top[w] < scores.len());
        assert(scores[top[w] as int] == count_score(values[top[w] as int]));
        assert(set.contains(top[w]));
        assert forall|q: usize| high.contains(q) implies set.remove(top[w]).contains(q) by {
            if !top.contains(q) {
                assert(scores[q as int] is Some);
                assert(scores[top[w] as int]->0.ge(scores[q as int]->0));
                lemma_counts(v, scores[q as int]->0);
            }
            assert(set.contains(q));
        }
        assert(high.subset_of(set.remove(top[w])));
        lemma_len_subset(high, set.remove(top[w]));
    }
}

proof fn lemma_shown(values: Seq<u64>, n: int, last: u64, t: int)
    requires
        is_last_shown(values, n, last),
        0 < n <= values.len() <= usize::MAX,
    ensures
        above(values, t).len() >= n <==> t < last,
{
    lemma_last(values, n, last, t);
}

/// While a month goes on, a row of counts is dropped from a table of more than fifty times the rows
/// that are shown, and only from such a table, if as many rows as are shown have more than ten
/// times its count.
pub proof fn law_hopeless_counts_go(values: Seq<u64>, n: int, keep: Seq<bool>, p: usize)
    requires
        is_culled_counts(values, n, keep),
        values.len() <= usize::MAX,
        p < values.len(),
    ensures
        !keep[p as int] <==> n > 0 && values.len() > 50 * n && above(
            values,
            10 * values[p as int],
        ).len() >= n,
{
    if n > 0 && values.len() > 50 * n {
        let last = choose|last: u64| #[trigger]
            is_last_shown(values, n, last) && forall|i: int|
                0 <= i < values.len() ==> #[trigger] keep[i] == !is_low(
                    values[i],
                    last,
                );
        lemma_shown(values, n, last, 10 * values[p as int]);
        assert(keep[p as int] == !is_low(values[p as int], last));
    }
}

/// While a month goes on, a row of hits and bytes is dropped from a table of more than fifty times
/// the rows that are shown, and only from such a table, if as many rows as are shown have more than
/// ten times its hits, and as many have more than ten times its bytes.
pub proof fn law_hopeless_pairs_go(rows: Seq<(u64, u64)>, n: int, keep: Seq<bool>, p: usize)
    requires
        is_culled_pairs(rows, n, keep),
        rows.len() <= usize::MAX,
        p < rows.len(),
    ensures
        ({
            let hits = rows.map_values(|r: (u64, u64)| r.0);
            let bytes = rows.map_values(|r: (u64, u64)| r.1);
            !keep[p as int] <==> n > 0 && rows.len() > 50 * n && above(
                hits,
                10 * rows[p as int].0,
            ).len() >= n && above(bytes, 10 * rows[p as int].1).len() >= n
        }),
{
    let hits = rows.map_values(|r: (u64, u64)| r.0);
    let bytes = rows.map_values(|r: (u64, u64)| r.1);
    assert(hits =~= firsts_of(rows));
    assert(bytes =~= seconds_of(rows));
    if n > 0 && rows.len() > 50 * n {
        let (a, b) = choose|a: u64, b: u64| #[trigger]
            is_last_shown(firsts_of(rows), n, a) && #[trigger] is_last_shown(
                seconds_of(rows),
                n,
                b,
            ) && forall|i: int|
                0 <= i < rows.len() ==> #[trigger] keep[i] == !(is_low(rows[i].0, a)
                    && is_low(rows[i].1, b));
        lemma_shown(hits, n, a, 10 * rows[p as int].0);
        lemma_shown(bytes, n, b, 10 * rows[p as int].1);
        assert(keep[p as int] == !(is_low(rows[p as int].0, a)
            && is_low(rows[p as int].1, b)));
    }
}

/// A failing URL is judged by all its failures together and by its bytes: it is dropped from a
/// large table if as many rows as are shown have more than ten times its failures, whatever their
/// statuses, and as many have more than ten times its bytes.
pub proof fn law_hopeless_failures_go(
    rows: Seq<ErrUrlStats>,
    failures: Seq<u64>,
    n: int,
    keep: Seq<bool>,
    p: usize,
)
    requires
        totals_fit(rows),
        is_culled_pairs(failure_pairs(rows), n, keep),
        rows.len() <= usize::MAX,
        p < rows.len(),
        failures.len() == rows.len(),
        forall|i: int|
            0 <= i < rows.len() ==> #[trigger] failures[i] == rows[i].c400 + rows[i].c401
                + rows[i].c403 + rows[i].c404 + rows[i].c422 + rows[i].c429 + rows[i].c4xx
                + rows[i].c500 + rows[i].c502 + rows[i].c503 + rows[i].c5xx,
    ensures
        ({
            let bytes = rows.map_values(|r: ErrUrlStats| r.bandwidth);
            !keep[p as int] <==> n > 0 && rows.len() > 50 * n && above(
                failures,
                10 * failures[p as int],
            ).len() >= n && above(bytes, 10 * rows[p as int].bandwidth).len() >= n
        }),
{
    let pairs = failure_pairs(rows);
    let bytes = rows.map_values(|r: ErrUrlStats| r.bandwidth);
    law_hopeless_pairs_go(pairs, n, keep, p);
    assert forall|i: int| 0 <= i < rows.len() implies pairs[i].0 == failures[i] by {
        assert(rows[i].total() <= u64::MAX);
    }
    assert(pairs.map_values(|r: (u64, u64)| r.0) =~= failures);
    assert(pairs.map_values(|r: (u64, u64)| r.1) =~= bytes);
}

proof fn lemma_up(xn: int, xd: int, vn: int, vd: int, qn: int, qd: int)
    requires
        xn >= 0,
        xd > 0,
        vn >= 0,
        vd > 0,
        qn >= 0,
        qd > 0,
        10 * (xn * vd) < vn * xd,
        qn * vd >= vn * qd,
    ensures
        qn * xd > 10 * (xn * qd),
{
    assert(qn * xd > 10 * (xn * qd)) by (nonlinear_arith)
        requires
            xn >= 0,
            xd > 0,
            vn >= 0,
            vd > 0,
            qn >= 0,
            qd > 0,
            10 * (xn * vd) < vn * xd,
            qn * vd >= vn * qd,
    {
        assert((qn * vd) * xd >= (vn * qd) * xd);
        assert((vn * xd) * qd > (10 * (xn * vd)) * qd);
        assert((vn * qd) * xd == (vn * xd) * qd);
        assert((qn * vd) * xd == (qn * xd) * vd);
        assert((10 * (xn * vd)) * qd == (10 * (xn * qd)) * vd);
        assert((qn * xd) * vd > (10 * (xn * qd)) * vd);
    }
}

proof fn lemma_down(xn: int, xd: int, vn: int, vd: int, qn: int, qd: int)
    requires
        xn >= 0,
        xd > 0,
        vn >= 0,
        vd > 0,
        qn >= 0,
        qd > 0,
        10 * (xn * vd) >= vn * xd,
        vn * qd >= qn * vd,
    ensures
        qn * xd <= 10 * (xn * qd),
{
    assert(qn * xd <= 10 * (xn * qd)) by (nonlinear_arith)
        requires
            xn >= 0,
            xd > 0,
            vn >= 0,
            vd > 0,
            qn >= 0,
            qd > 0,
            10 * (xn * vd) >= vn * xd,
            vn * qd >= qn * vd,
    {
        assert((vn * qd) * xd >= (qn * vd) * xd);
        assert((10 * (xn * vd)) * qd >= (vn * xd) * qd);
        assert((vn * qd) * xd == (vn * xd) * qd);
        assert((qn * vd) * xd == (qn * xd) * vd);
        assert((10 * (xn * vd)) * qd == (10 * (xn * qd)) * vd);
        assert((10 * (xn * qd)) * vd >= (qn * xd) * vd);
    }
}

/// The average of a row, which is zero where none was measured.
spec fn average_or_zero(row: UrlStats) -> Score {
    if row.rt_count > 0 {
        Score { num: row.rt_sum, den: row.rt_count }
    } else {
        Score { num: 0, den: 1 }
    }
}

proof fn lemma_slower_is(q: UrlStats, row: UrlStats)
    ensures
        is_slower(q, 10, row) == (q.rt_count > 0 && q.rt_sum * average_or_zero(row).den > 10 * (
        average_or_zero(row).num * q.rt_count)),
{
    if row.rt_count == 0 {
        assert(q.rt_sum * 1 == q.rt_sum) by (nonlinear_arith);
        assert(0 * q.rt_count == 0) by (nonlinear_arith);
    }
}

/// The last of `n` best averages is larger than ten times that of a row if and only if `n`
/// averages are.
proof fn lemma_last_average(rows: Seq<UrlStats>, n: int, v: Score, row: UrlStats)
    requires
        is_nth_best(averages(rows), n, v),
        rows.len() <= usize::MAX,
    ensures
        v.wf(),
        timed(rows).len() >= n,
        slower(rows, 10, row).len() >= n <==> 10 * (average_or_zero(row).num * v.den) < v.num
            * average_or_zero(row).den,
{
    let scores = averages(rows);
    let x = average_or_zero(row);
    let top = choose|top: Seq<usize>| #[trigger]
        is_best(scores, top, n) && top.len() == n && is_worst(scores, top, v);
    let set = top.to_set();
    top.unique_seq_to_set();
    let w = choose|i: int| 0 <= i < top.len() && scores[#[trigger] top[i] as int] == Some(v);
    assert(top[w] < scores.len());
    assert(scores[top[w] as int] == rows[top[w] as int].average());
    assert(set.contains(top[w]));
    let all = timed(rows);
    lemma_positions(all, rows.len() as int);
    assert forall|q: usize| set.contains(q) implies all.contains(q) by {
        let i = choose|i: int| 0 <= i < top.len() && top[i] == q;
        assert(top[i] < scores.len() && scores[top[i] as int] is Some);
    }
    assert(set.subset_of(all));
    lemma_len_subset(set, all);
    let slow = slower(rows, 10, row);
    lemma_positions(slow, rows.len() as int);
    if 10 * (x.num * v.den) < v.num * x.den {
        assert forall|q: usize| set.contains(q) implies slow.contains(q) by {
            let i = choose|i: int| 0 <= i < top.len() && top[i] == q;
            assert(top[i] < scores.len() && scores[top[i] as int] is Some);
            assert(scores[top[i] as int]->0.ge(v));
            let r = rows[q as int];
            lemma_up(
                x.num as int,
                x.den as int,
                v.num as int,
                v.den as int,
                r.rt_sum as int,
                r.rt_count as int,
            );
            lemma_slower_is(r, row);
        }
        assert(set.subset_of(slow));
        lemma_len_subset(set, slow);
    } else {
        assert forall|q: usize| slow.contains(q) implies set.remove(top[w]).contains(q) by {
            let r = rows[q as int];
            lemma_slower_is(r, row);
            assert(scores[q as int] == r.average());
            if !top.contains(q) {
                assert(scores[q as int] is Some);
                assert(scores[top[w] as int]->0.ge(scores[q as int]->0));
            }
            if !top.contains(q) || q == top[w] {
                lemma_down(
                    x.num as int,
                    x.den as int,
                    v.num as int,
                    v.den as int,
                    r.rt_sum as int,
                    r.rt_count as int,
                );
            }
            assert(set.contains(q));
        }
        assert(slow.subset_of(set.remove(top[w])));
        lemma_len_subset(slow, set.remove(top[w]));
    }
}

proof fn lemma_times_low(rows: Seq<UrlStats>, n: int, t: Option<Score>, row: UrlStats)
    requires
        is_last_average(rows, n, t),
        rows.len() <= usize::MAX,
    ensures
        url_time_low(row, t) <==> timed(rows).len() < n || slower(rows, 10, row).len() >= n,
        bucket_time_low(row, t) <==> row.rt_count == 0 || slower(rows, 10, row).len() >= n,
{
    let all = timed(rows);
    let slow = slower(rows, 10, row);
    lemma_positions(all, rows.len() as int);
    lemma_positions(slow, rows.len() as int);
    assert forall|q: usize| slow.contains(q) implies all.contains(q) by {
        lemma_slower_is(rows[q as int], row);
    }
    assert(slow.subset_of(all));
    lemma_len_subset(slow, all);
    match t {
        Some(v) => {
            lemma_last_average(rows, n, v, row);
            if row.rt_count == 0 {
                assert(0 * v.den == 0) by (nonlinear_arith);
                assert(v.num * 1 == v.num) by (nonlinear_arith);
            }
        },
        None => {
            let scores = averages(rows);
            let top = choose|top: Seq<usize>| #[trigger] is_best(scores, top, n) && top.len() < n;
            let set = top.to_set();
            top.unique_seq_to_set();
            assert forall|q: usize| all.contains(q) implies set.contains(q) by {
                assert(scores[q as int] is Some);
            }
            assert(all.subset_of(set));
            lemma_len_subset(all, set);
        },
    }
}

/// While a month goes on, a URL is dropped from a table of more than fifty times the rows that are
/// shown, and only from such a table, if as many rows as are shown have more than ten times its
/// hits, as many have more than ten times its bytes, and its response times do not matter. Those of
/// a URL matter where as many rows as are shown have one, and fewer are more than ten times as slow.
/// Those of a bucket's URL matter where it has one, and fewer rows are more than ten times as slow.
pub proof fn law_hopeless_urls_go(
    rows: Seq<UrlStats>,
    n: int,
    keep: Seq<bool>,
    of_bucket: bool,
    p: usize,
)
    requires
        is_culled_urls(
            rows,
            n,
            keep,
            if of_bucket {
                bucket_rule()
            } else {
                url_rule()
            },
        ),
        rows.len() <= usize::MAX,
        p < rows.len(),
    ensures
        ({
            let row = rows[p as int];
            let hits = rows.map_values(|r: UrlStats| r.hits);
            let bytes = rows.map_values(|r: UrlStats| r.bandwidth);
            let time_matters = slower(rows, 10, row).len() < n && if of_bucket {
                row.rt_count > 0
            } else {
                timed(rows).len() >= n
            };
            !keep[p as int] <==> n > 0 && rows.len() > 50 * n && above(hits, 10 * row.hits).len()
                >= n && above(bytes, 10 * row.bandwidth).len() >= n && !time_matters
        }),
{
    let row = rows[p as int];
    let hits = rows.map_values(|r: UrlStats| r.hits);
    let bytes = rows.map_values(|r: UrlStats| r.bandwidth);
    assert(hits =~= url_hits_of(rows));
    assert(bytes =~= url_bandwidths_of(rows));
    let rule = if of_bucket {
        bucket_rule()
    } else {
        url_rule()
    };
    if n > 0 && rows.len() > 50 * n {
        let (a, b, t) = choose|a: u64, b: u64, t: Option<Score>| #[trigger]
            is_last_shown(url_hits_of(rows), n, a) && #[trigger] is_last_shown(
                url_bandwidths_of(rows),
                n,
                b,
            ) && #[trigger] is_last_average(rows, n, t) && forall|i: int|
                0 <= i < rows.len() ==> #[trigger] keep[i] == !(is_low(
                    rows[i].hits,
                    a,
                ) && is_low(rows[i].bandwidth, b) && rule(rows[i], t));
        lemma_shown(hits, n, a, 10 * row.hits);
        lemma_shown(bytes, n, b, 10 * row.bandwidth);
        lemma_times_low(rows, n, t, row);
        assert(keep[p as int] == !(is_low(row.hits, a) && is_low(
            row.bandwidth,
            b,
        ) && rule(row, t)));
    }
}

} // verus!
