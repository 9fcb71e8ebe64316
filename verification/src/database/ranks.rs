//! Which rows of a month's tables are kept.
//!
//! While a month goes on, rows without a chance to be among the best are culled. When it is over,
//! only the best rows of each kind are kept.

use vstd::prelude::*;

use crate::ranking::{
    best_positions, is_best, is_nth_best, lemma_counts, mark, no_marks, nth_best, some_ok, Score,
};

verus! {

/// A table is culled only where it has more rows than this many times the rows that are shown.
pub const CULL_THRESHOLD_FACTOR: u64 = 50;

/// A row is culled where all its values are below this fraction of the last value that is shown.
pub const CULL_FRACTION: u64 = 10;

/// Requests of a URL: hits, bytes, and response times in milliseconds.
#[derive(Debug, Clone, Copy, PartialEq, Eq, Structural)]
pub struct UrlStats {
    pub hits: u64,
    pub bandwidth: u64,
    pub rt_sum: u64,
    pub rt_count: u64,
    pub rt_max: u64,
}

/// Failed requests of a URL by status, and bytes.
#[derive(Debug, Clone, Copy, PartialEq, Eq, Structural)]
pub struct ErrUrlStats {
    pub c400: u64,
    pub c401: u64,
    pub c403: u64,
    pub c404: u64,
    pub c422: u64,
    pub c429: u64,
    pub c4xx: u64,
    pub c500: u64,
    pub c502: u64,
    pub c503: u64,
    pub c5xx: u64,
    pub bandwidth: u64,
}

impl UrlStats {
    /// The average response time; `None` where none was measured.
    pub open spec fn average(self) -> Option<Score> {
        if self.rt_count > 0 {
            Some(Score { num: self.rt_sum, den: self.rt_count })
        } else {
            None
        }
    }

    fn average_score(self) -> (r: Option<Score>)
        ensures
            r == self.average(),
    {
        if self.rt_count > 0 {
            Some(Score { num: self.rt_sum, den: self.rt_count })
        } else {
            None
        }
    }
}

impl ErrUrlStats {
    /// All failed requests.
    pub open spec fn total(self) -> int {
        self.c400 + self.c401 + self.c403 + self.c404 + self.c422 + self.c429 + self.c4xx
            + self.c500 + self.c502 + self.c503 + self.c5xx
    }

    /// All failed requests; `None` where 64 bits cannot count them.
    pub fn error_total(self) -> (r: Option<u64>)
        ensures
            match r {
                Some(n) => n == self.total(),
                None => self.total() > u64::MAX,
            },
    {
        let n: u128 = self.c400 as u128 + self.c401 as u128 + self.c403 as u128 + self.c404 as u128
            + self.c422 as u128 + self.c429 as u128 + self.c4xx as u128 + self.c500 as u128
            + self.c502 as u128 + self.c503 as u128 + self.c5xx as u128;
        if n <= u64::MAX as u128 {
            Some(n as u64)
        } else {
            None
        }
    }
}

/// The score of a count.
pub open spec fn count_score(n: u64) -> Option<Score> {
    Some(Score { num: n, den: 1 })
}

/// Counts as scores.
pub open spec fn count_scores(values: Seq<u64>) -> Seq<Option<Score>> {
    Seq::new(values.len(), |i: int| count_score(values[i]))
}

/// The average response times of rows.
pub open spec fn averages(rows: Seq<UrlStats>) -> Seq<Option<Score>> {
    Seq::new(rows.len(), |i: int| rows[i].average())
}

fn score_counts(values: &Vec<u64>) -> (r: Vec<Option<Score>>)
    ensures
        r@ == count_scores(values@),
        some_ok(r@),
{
    let mut r: Vec<Option<Score>> = Vec::new();
    let mut i: usize = 0;
    while i < values.len()
        invariant
            0 <= i <= values@.len(),
            r@.len() == i,
            forall|j: int| 0 <= j < i ==> #[trigger] r@[j] == count_score(values@[j]),
        decreases values@.len() - i,
    {
        r.push(Some(Score::of_count(values[i])));
        i += 1;
    }
    assert(r@ =~= count_scores(values@));
    r
}

fn score_averages(rows: &Vec<UrlStats>) -> (r: Vec<Option<Score>>)
    ensures
        r@ == averages(rows@),
        some_ok(r@),
{
    let mut r: Vec<Option<Score>> = Vec::new();
    let mut i: usize = 0;
    while i < rows.len()
        invariant
            0 <= i <= rows@.len(),
            r@.len() == i,
            forall|j: int| 0 <= j < i ==> #[trigger] r@[j] == rows@[j].average(),
        decreases rows@.len() - i,
    {
        r.push(rows[i].average_score());
        i += 1;
    }
    assert(r@ =~= averages(rows@));
    r
}

// ── Culling ─────────────────────────────────────────────────────────────────

/// A table is large enough to be culled.
pub open spec fn is_large(rows: int, top_n: int) -> bool {
    top_n > 0 && rows > top_n * CULL_THRESHOLD_FACTOR
}

fn large(rows: usize, top_n: usize) -> (r: bool)
    ensures
        r == is_large(rows as int, top_n as int),
{
    top_n > 0 && rows as u128 > top_n as u128 * CULL_THRESHOLD_FACTOR as u128
}

/// `n` is the value of the last row that is shown; zero where there are fewer rows.
pub open spec fn is_last_shown(values: Seq<u64>, top_n: int, n: u64) -> bool {
    if values.len() >= top_n {
        is_nth_best(count_scores(values), top_n, Score { num: n, den: 1 })
    } else {
        n == 0
    }
}

/// The last average that is shown; `None` where there are fewer rows with one.
pub open spec fn is_last_average(rows: Seq<UrlStats>, top_n: int, last: Option<Score>) -> bool {
    match last {
        Some(v) => is_nth_best(averages(rows), top_n, v),
        None => exists|top: Seq<usize>| #[trigger]
            is_best(averages(rows), top, top_n) && top.len() < top_n,
    }
}

/// A count is below the cull fraction of the last one that is shown, and so too low to matter.
pub open spec fn is_low(value: u64, last: u64) -> bool {
    CULL_FRACTION * value < last
}

fn low(value: u64, last: u64) -> (r: bool)
    ensures
        r == is_low(value, last),
{
    last > 0 && value <= (last - 1) / CULL_FRACTION
}

/// A fraction is below the cull fraction of another.
pub open spec fn is_low_average(value: Score, last: Score) -> bool {
    CULL_FRACTION * (value.num * last.den) < last.num * value.den
}

fn low_average(value: Score, last: Score) -> (r: bool)
    ensures
        r == is_low_average(value, last),
{
    proof {
        crate::ranking::lemma_product_fits(value.num, last.den);
        crate::ranking::lemma_product_fits(last.num, value.den);
    }
    let a: u128 = value.num as u128 * last.den as u128;
    let b: u128 = last.num as u128 * value.den as u128;
    b > 0 && a <= (b - 1) / CULL_FRACTION as u128
}

proof fn lemma_value_at(values: Seq<u64>, n: int, v: Score)
    requires
        is_nth_best(count_scores(values), n, v),
    ensures
        v.den == 1,
{
    let scores = count_scores(values);
    let top = choose|top: Seq<usize>| #[trigger]
        is_best(scores, top, n) && top.len() == n && crate::ranking::is_worst(scores, top, v);
    let i = choose|i: int| 0 <= i < top.len() && scores[#[trigger] top[i] as int] == Some(v);
    assert(top[i] < scores.len());
    assert(scores[top[i] as int] == count_score(values[top[i] as int]));
}

proof fn lemma_enough(values: Seq<u64>, top: Seq<usize>, n: int)
    requires
        is_best(count_scores(values), top, n),
        top.len() < n,
        values.len() <= usize::MAX,
    ensures
        values.len() < n,
{
    let scores = count_scores(values);
    assert forall|p: usize| p < values.len() implies top.contains(p) by {
        assert(scores[p as int] is Some);
    }
    // Every position is listed, so there are at least as many listed as positions.
    let all = vstd::set_lib::set_int_range(0, values.len() as int);
    let f = |x: usize| x as int;
    top.unique_seq_to_set();
    vstd::set_lib::lemma_int_range(0, values.len() as int);
    vstd::set_lib::lemma_map_size_bound(top.to_set(), top.to_set().map(f), f);
    assert(all.subset_of(top.to_set().map(f))) by {
        assert forall|y: int| all.contains(y) implies top.to_set().map(f).contains(y) by {
            assert(top.contains(y as usize));
            assert(top.to_set().contains(y as usize) && f(y as usize) == y);
        }
    }
    vstd::set_lib::lemma_len_subset(all, top.to_set().map(f));
}

/// The value of the last row that is shown.
pub fn last_shown(values: &Vec<u64>, top_n: usize) -> (r: u64)
    requires
        top_n > 0,
    ensures
        is_last_shown(values@, top_n as int, r),
{
    let scores = score_counts(values);
    let len: usize = values.len();
    match nth_best(&scores, top_n) {
        Some(v) => {
            proof {
                lemma_value_at(values@, top_n as int, v);
                let top = choose|top: Seq<usize>| #[trigger]
                    is_best(scores@, top, top_n as int) && top.len() == top_n
                        && crate::ranking::is_worst(scores@, top, v);
                lemma_no_more(top, values@.len() as int);
            }
            v.num
        },
        None => {
            proof {
                let top = choose|top: Seq<usize>| #[trigger]
                    is_best(scores@, top, top_n as int) && top.len() < top_n;
                lemma_enough(values@, top, top_n as int);
            }
            0
        },
    }
}

/// Different positions below `m` are at most `m`.
proof fn lemma_no_more(top: Seq<usize>, m: int)
    requires
        top.no_duplicates(),
        0 <= m,
        forall|i: int| 0 <= i < top.len() ==> #[trigger] top[i] < m,
    ensures
        top.len() <= m,
{
    let all = vstd::set_lib::set_int_range(0, m);
    let f = |x: usize| x as int;
    let have = top.to_set();
    top.unique_seq_to_set();
    top.lemma_cardinality_of_set();
    assert(vstd::relations::injective_on(f, have));
    vstd::set_lib::lemma_map_size(have, have.map(f), f);
    vstd::set_lib::lemma_int_range(0, m);
    assert(have.map(f).subset_of(all)) by {
        assert forall|y: int| have.map(f).contains(y) implies all.contains(y) by {
            let x = choose|x: usize| have.contains(x) && f(x) == y;
            let i = choose|i: int| 0 <= i < top.len() && top[i] == x;
            assert(top[i] < m);
        }
    }
    vstd::set_lib::lemma_len_subset(have.map(f), all);
}

// ── Columns ─────────────────────────────────────────────────────────────────

/// The first column of pairs.
pub open spec fn firsts_of(rows: Seq<(u64, u64)>) -> Seq<u64> {
    Seq::new(rows.len(), |i: int| rows[i].0)
}

fn firsts(rows: &Vec<(u64, u64)>) -> (r: Vec<u64>)
    ensures
        r@ == firsts_of(rows@),
{
    let mut r: Vec<u64> = Vec::new();
    let mut i: usize = 0;
    while i < rows.len()
        invariant
            0 <= i <= rows@.len(),
            r@.len() == i,
            forall|j: int| 0 <= j < i ==> #[trigger] r@[j] == rows@[j].0,
        decreases rows@.len() - i,
    {
        r.push(rows[i].0);
        i += 1;
    }
    assert(r@ =~= firsts_of(rows@));
    r
}

/// The second column of pairs.
pub open spec fn seconds_of(rows: Seq<(u64, u64)>) -> Seq<u64> {
    Seq::new(rows.len(), |i: int| rows[i].1)
}

fn seconds(rows: &Vec<(u64, u64)>) -> (r: Vec<u64>)
    ensures
        r@ == seconds_of(rows@),
{
    let mut r: Vec<u64> = Vec::new();
    let mut i: usize = 0;
    while i < rows.len()
        invariant
            0 <= i <= rows@.len(),
            r@.len() == i,
            forall|j: int| 0 <= j < i ==> #[trigger] r@[j] == rows@[j].1,
        decreases rows@.len() - i,
    {
        r.push(rows[i].1);
        i += 1;
    }
    assert(r@ =~= seconds_of(rows@));
    r
}

/// The hits of URLs.
pub open spec fn url_hits_of(rows: Seq<UrlStats>) -> Seq<u64> {
    Seq::new(rows.len(), |i: int| rows[i].hits)
}

fn url_hits(rows: &Vec<UrlStats>) -> (r: Vec<u64>)
    ensures
        r@ == url_hits_of(rows@),
{
    let mut r: Vec<u64> = Vec::new();
    let mut i: usize = 0;
    while i < rows.len()
        invariant
            0 <= i <= rows@.len(),
            r@.len() == i,
            forall|j: int| 0 <= j < i ==> #[trigger] r@[j] == rows@[j].hits,
        decreases rows@.len() - i,
    {
        r.push(rows[i].hits);
        i += 1;
    }
    assert(r@ =~= url_hits_of(rows@));
    r
}

/// The bytes of URLs.
pub open spec fn url_bandwidths_of(rows: Seq<UrlStats>) -> Seq<u64> {
    Seq::new(rows.len(), |i: int| rows[i].bandwidth)
}

fn url_bandwidths(rows: &Vec<UrlStats>) -> (r: Vec<u64>)
    ensures
        r@ == url_bandwidths_of(rows@),
{
    let mut r: Vec<u64> = Vec::new();
    let mut i: usize = 0;
    while i < rows.len()
        invariant
            0 <= i <= rows@.len(),
            r@.len() == i,
            forall|j: int| 0 <= j < i ==> #[trigger] r@[j] == rows@[j].bandwidth,
        decreases rows@.len() - i,
    {
        r.push(rows[i].bandwidth);
        i += 1;
    }
    assert(r@ =~= url_bandwidths_of(rows@));
    r
}

/// All flags are set.
pub open spec fn all_kept(keep: Seq<bool>, rows: int) -> bool {
    keep.len() == rows && forall|i: int| 0 <= i < rows ==> #[trigger] keep[i]
}

fn keep_all(rows: usize) -> (r: Vec<bool>)
    ensures
        all_kept(r@, rows as int),
{
    vec![true; rows]
}

/// A table of counts after it was culled: a large one keeps the rows that are not low.
pub open spec fn is_culled_counts(values: Seq<u64>, top_n: int, keep: Seq<bool>) -> bool {
    if is_large(values.len() as int, top_n) {
        keep.len() == values.len() && exists|last: u64| #[trigger]
            is_last_shown(values, top_n, last) && forall|i: int|
                0 <= i < values.len() ==> #[trigger] keep[i] == !is_low(values[i], last)
    } else {
        all_kept(keep, values.len() as int)
    }
}

/// Which rows of a table of counts stay while the month goes on.
pub fn cull_counts(values: &Vec<u64>, top_n: usize) -> (r: Vec<bool>)
    ensures
        is_culled_counts(values@, top_n as int, r@),
{
    if !large(values.len(), top_n) {
        return keep_all(values.len());
    }
    let last: u64 = last_shown(values, top_n);
    let mut r: Vec<bool> = Vec::new();
    let mut i: usize = 0;
    while i < values.len()
        invariant
            0 <= i <= values@.len(),
            r@.len() == i,
            forall|j: int| 0 <= j < i ==> #[trigger] r@[j] == !is_low(values@[j], last),
        decreases values@.len() - i,
    {
        r.push(!low(values[i], last));
        i += 1;
    }
    assert(is_last_shown(values@, top_n as int, last));
    r
}

/// A table of pairs after it was culled: a large one keeps the rows of which one value is not low.
pub open spec fn is_culled_pairs(rows: Seq<(u64, u64)>, top_n: int, keep: Seq<bool>) -> bool {
    if is_large(rows.len() as int, top_n) {
        keep.len() == rows.len() && exists|a: u64, b: u64| #[trigger]
            is_last_shown(firsts_of(rows), top_n, a) && #[trigger] is_last_shown(
                seconds_of(rows),
                top_n,
                b,
            ) && forall|i: int|
                0 <= i < rows.len() ==> #[trigger] keep[i] == !(is_low(rows[i].0, a) && is_low(
                    rows[i].1,
                    b,
                ))
    } else {
        all_kept(keep, rows.len() as int)
    }
}

/// Which rows of a table of pairs stay while the month goes on.
pub fn cull_pairs(rows: &Vec<(u64, u64)>, top_n: usize) -> (r: Vec<bool>)
    ensures
        is_culled_pairs(rows@, top_n as int, r@),
{
    if !large(rows.len(), top_n) {
        return keep_all(rows.len());
    }
    let a: u64 = last_shown(&firsts(rows), top_n);
    let b: u64 = last_shown(&seconds(rows), top_n);
    let mut r: Vec<bool> = Vec::new();
    let mut i: usize = 0;
    while i < rows.len()
        invariant
            0 <= i <= rows@.len(),
            r@.len() == i,
            forall|j: int|
                0 <= j < i ==> #[trigger] r@[j] == !(is_low(rows@[j].0, a) && is_low(rows@[j].1, b)),
        decreases rows@.len() - i,
    {
        r.push(!(low(rows[i].0, a) && low(rows[i].1, b)));
        i += 1;
    }
    assert(is_last_shown(firsts_of(rows@), top_n as int, a));
    assert(is_last_shown(seconds_of(rows@), top_n as int, b));
    r
}

/// The average response time of a URL is too low to matter. Without a last average every time is;
/// without a time it counts as zero.
pub open spec fn url_time_low(row: UrlStats, last: Option<Score>) -> bool {
    match last {
        Some(v) => match row.average() {
            Some(x) => is_low_average(x, v),
            None => v.num > 0,
        },
        None => true,
    }
}

/// The same for the URLs of a bucket: a URL without a time is always low, and without a last
/// average no time is.
pub open spec fn bucket_time_low(row: UrlStats, last: Option<Score>) -> bool {
    match row.average() {
        Some(x) => last matches Some(v) && is_low_average(x, v),
        None => true,
    }
}

/// The rule by which the average of a URL is low.
pub open spec fn url_rule() -> spec_fn(UrlStats, Option<Score>) -> bool {
    |row: UrlStats, t: Option<Score>| url_time_low(row, t)
}

/// The rule by which the average of a bucket's URL is low.
pub open spec fn bucket_rule() -> spec_fn(UrlStats, Option<Score>) -> bool {
    |row: UrlStats, t: Option<Score>| bucket_time_low(row, t)
}

/// A table of URLs after it was culled: a large one keeps the rows of which one value is not low.
pub open spec fn is_culled_urls(
    rows: Seq<UrlStats>,
    top_n: int,
    keep: Seq<bool>,
    time_low: spec_fn(UrlStats, Option<Score>) -> bool,
) -> bool {
    if is_large(rows.len() as int, top_n) {
        keep.len() == rows.len() && exists|a: u64, b: u64, t: Option<Score>| #[trigger]
            is_last_shown(url_hits_of(rows), top_n, a) && #[trigger] is_last_shown(
                url_bandwidths_of(rows),
                top_n,
                b,
            ) && #[trigger] is_last_average(rows, top_n, t) && forall|i: int|
                0 <= i < rows.len() ==> #[trigger] keep[i] == !(is_low(rows[i].hits, a) && is_low(
                    rows[i].bandwidth,
                    b,
                ) && time_low(rows[i], t))
    } else {
        all_kept(keep, rows.len() as int)
    }
}

fn cull_url_rows(rows: &Vec<UrlStats>, top_n: usize, bucket: bool) -> (r: Vec<bool>)
    ensures
        bucket ==> is_culled_urls(
            rows@,
            top_n as int,
            r@,
            bucket_rule(),
        ),
        !bucket ==> is_culled_urls(
            rows@,
            top_n as int,
            r@,
            url_rule(),
        ),
{
    if !large(rows.len(), top_n) {
        return keep_all(rows.len());
    }
    let a: u64 = last_shown(&url_hits(rows), top_n);
    let b: u64 = last_shown(&url_bandwidths(rows), top_n);
    let times = score_averages(rows);
    let t = nth_best(&times, top_n);
    let mut r: Vec<bool> = Vec::new();
    let mut i: usize = 0;
    while i < rows.len()
        invariant
            0 <= i <= rows@.len(),
            r@.len() == i,
            forall|j: int|
                0 <= j < i ==> #[trigger] r@[j] == !(is_low(rows@[j].hits, a) && is_low(
                    rows@[j].bandwidth,
                    b,
                ) && if bucket {
                    bucket_time_low(rows@[j], t)
                } else {
                    url_time_low(rows@[j], t)
                }),
        decreases rows@.len() - i,
    {
        let row = rows[i];
        let time_low: bool = match (row.average_score(), t) {
            (Some(x), Some(v)) => low_average(x, v),
            (Some(_), None) => !bucket,
            (None, Some(v)) => bucket || v.num > 0,
            (None, None) => true,
        };
        r.push(!(low(row.hits, a) && low(row.bandwidth, b) && time_low));
        i += 1;
    }
    assert(is_last_shown(url_hits_of(rows@), top_n as int, a));
    assert(is_last_shown(url_bandwidths_of(rows@), top_n as int, b));
    assert(is_last_average(rows@, top_n as int, t));
    r
}

/// Which rows of a table of URLs stay while the month goes on.
pub fn cull_urls(rows: &Vec<UrlStats>, top_n: usize) -> (r: Vec<bool>)
    ensures
        is_culled_urls(
            rows@,
            top_n as int,
            r@,
            url_rule(),
        ),
{
    cull_url_rows(rows, top_n, false)
}

/// Which rows of a bucket's table of URLs stay while the month goes on.
pub fn cull_bucket_urls(rows: &Vec<UrlStats>, top_n: usize) -> (r: Vec<bool>)
    ensures
        is_culled_urls(
            rows@,
            top_n as int,
            r@,
            bucket_rule(),
        ),
{
    cull_url_rows(rows, top_n, true)
}

/// The failures and the bytes of URLs.
pub open spec fn failure_pairs(rows: Seq<ErrUrlStats>) -> Seq<(u64, u64)> {
    Seq::new(rows.len(), |i: int| (rows[i].total() as u64, rows[i].bandwidth))
}

/// The failures of every URL can be counted.
pub open spec fn totals_fit(rows: Seq<ErrUrlStats>) -> bool {
    forall|i: int| 0 <= i < rows.len() ==> (#[trigger] rows[i]).total() <= u64::MAX
}

/// Which rows of a table of failing URLs stay while the month goes on: those that are not low by
/// all their failures or by their bytes. `None` where 64 bits cannot count the failures of one.
pub fn cull_error_urls(rows: &Vec<ErrUrlStats>, top_n: usize) -> (r: Option<Vec<bool>>)
    ensures
        match r {
            Some(keep) => totals_fit(rows@) && is_culled_pairs(
                failure_pairs(rows@),
                top_n as int,
                keep@,
            ),
            None => !totals_fit(rows@),
        },
{
    let mut pairs: Vec<(u64, u64)> = Vec::new();
    let mut i: usize = 0;
    while i < rows.len()
        invariant
            0 <= i <= rows@.len(),
            pairs@.len() == i,
            forall|j: int| 0 <= j < i ==> (#[trigger] rows@[j]).total() <= u64::MAX,
            forall|j: int|
                0 <= j < i ==> #[trigger] pairs@[j] == (
                    rows@[j].total() as u64,
                    rows@[j].bandwidth,
                ),
        decreases rows@.len() - i,
    {
        match rows[i].error_total() {
            Some(n) => pairs.push((n, rows[i].bandwidth)),
            None => {
                assert(rows@[i as int].total() > u64::MAX);
                return None;
            },
        }
        i += 1;
    }
    assert(pairs@ =~= failure_pairs(rows@));
    Some(cull_pairs(&pairs, top_n))
}

proof fn lemma_best_reach_last(scores: Seq<Option<Score>>, n: int, top: Seq<usize>, p: usize, v: Score)
    requires
        some_ok(scores),
        is_best(scores, top, n),
        top.contains(p),
        is_nth_best(scores, n, v),
    ensures
        scores[p as int] is Some,
        scores[p as int]->0.ge(v),
{
    let tv = choose|t: Seq<usize>| #[trigger]
        is_best(scores, t, n) && t.len() == n && crate::ranking::is_worst(scores, t, v);
    let q = choose|q: int| 0 <= q < top.len() && top[q] == p;
    assert(top[q] < scores.len());
    if tv.contains(p) {
        let i = choose|i: int| 0 <= i < tv.len() && tv[i] == p;
        assert(scores[tv[i] as int]->0.ge(v));
    } else {
        let st = top.to_set();
        let sv = tv.to_set();
        top.unique_seq_to_set();
        tv.unique_seq_to_set();
        top.lemma_cardinality_of_set();
        tv.lemma_cardinality_of_set();
        if sv.subset_of(st) {
            vstd::set_lib::lemma_len_subset(sv, st);
            vstd::set_lib::lemma_subset_equality(sv, st);
            assert(st.contains(p));
            assert(sv.contains(p));
        }
        let x = choose|x: usize| sv.contains(x) && !st.contains(x);
        let i = choose|i: int| 0 <= i < tv.len() && tv[i] == x;
        assert(tv[i] < scores.len());
        assert(scores[tv[i] as int]->0.ge(v));
        assert(scores[x as int] is Some);
        assert(scores[top[q] as int]->0.ge(scores[x as int]->0));
        let w = choose|w: int| 0 <= w < tv.len() && scores[#[trigger] tv[w] as int] == Some(v);
        assert(tv[w] < scores.len());
        crate::ranking::lemma_ge_transitive(scores[p as int]->0, scores[x as int]->0, v);
    }
}

/// A row that is among the best by any count is never culled for that count: it is not low.
pub proof fn law_cull_spares_the_best(
    values: Seq<u64>,
    top_n: int,
    top: Seq<usize>,
    p: usize,
    last: u64,
)
    requires
        is_best(count_scores(values), top, top_n),
        top.contains(p),
        is_last_shown(values, top_n, last),
    ensures
        p < values.len(),
        !is_low(values[p as int], last),
{
    let scores = count_scores(values);
    let q = choose|q: int| 0 <= q < top.len() && top[q] == p;
    assert(top[q] < scores.len());
    if values.len() >= top_n {
        let v = Score { num: last, den: 1 };
        lemma_best_reach_last(scores, top_n, top, p, v);
        assert(scores[p as int] == count_score(values[p as int]));
        lemma_counts(scores[p as int]->0, v);
    }
}

/// A URL that is among the slowest is never culled for its time: it is not low.
pub proof fn law_cull_spares_the_slowest(
    rows: Seq<UrlStats>,
    top_n: int,
    top: Seq<usize>,
    p: usize,
    last: Score,
)
    requires
        is_best(averages(rows), top, top_n),
        top.contains(p),
        is_nth_best(averages(rows), top_n, last),
        last.wf(),
    ensures
        p < rows.len(),
        !url_time_low(rows[p as int], Some(last)),
        !bucket_time_low(rows[p as int], Some(last)),
{
    let scores = averages(rows);
    let q = choose|q: int| 0 <= q < top.len() && top[q] == p;
    assert(top[q] < scores.len());
    assert(some_ok(scores));
    lemma_best_reach_last(scores, top_n, top, p, last);
    let x = scores[p as int]->0;
    assert(x.num * last.den >= last.num * x.den);
}

// ── Pruning ─────────────────────────────────────────────────────────────────

/// The flags are set of the rows that are among the `n` best in some column.
pub open spec fn is_kept(columns: Seq<Seq<Option<Score>>>, rows: int, n: int, keep: Seq<bool>) -> bool {
    &&& keep.len() == rows
    &&& exists|tops: Seq<Seq<usize>>|
        {
            &&& #[trigger] tops.len() == columns.len()
            &&& forall|k: int|
                0 <= k < columns.len() ==> is_best(#[trigger] columns[k], #[trigger] tops[k], n)
            &&& forall|p: int|
                0 <= p < rows ==> (#[trigger] keep[p] <==> exists|k: int|
                    0 <= k < tops.len() && (#[trigger] tops[k]).contains(p as usize))
        }
}

/// Which rows are among the `n` best in some column.
fn keep_best(columns: &Vec<Vec<Option<Score>>>, rows: usize, n: usize) -> (r: Vec<bool>)
    requires
        forall|k: int|
            0 <= k < columns@.len() ==> (#[trigger] columns@[k])@.len() == rows && some_ok(
                columns@[k]@,
            ),
    ensures
        is_kept(Seq::new(columns@.len(), |k: int| columns@[k]@), rows as int, n as int, r@),
{
    let mut keep = no_marks(rows);
    let ghost mut tops: Seq<Seq<usize>> = Seq::empty();
    let mut i: usize = 0;
    while i < columns.len()
        invariant
            0 <= i <= columns@.len(),
            forall|k: int|
                0 <= k < columns@.len() ==> (#[trigger] columns@[k])@.len() == rows && some_ok(
                    columns@[k]@,
                ),
            keep@.len() == rows,
            tops.len() == i,
            forall|k: int| 0 <= k < i ==> is_best(columns@[k]@, #[trigger] tops[k], n as int),
            forall|p: int|
                0 <= p < rows ==> (#[trigger] keep@[p] <==> exists|k: int|
                    0 <= k < tops.len() && (#[trigger] tops[k]).contains(p as usize)),
        decreases columns@.len() - i,
    {
        let ghost before = keep@;
        let ghost old_tops = tops;
        let top = best_positions(&columns[i], n);
        mark(&mut keep, &top);
        proof {
            tops = old_tops.push(top@);
            assert forall|p: int| 0 <= p < rows implies (#[trigger] keep@[p] <==> exists|k: int|
                0 <= k < tops.len() && (#[trigger] tops[k]).contains(p as usize)) by {
                if before[p] {
                    let k = choose|k: int|
                        0 <= k < old_tops.len() && (#[trigger] old_tops[k]).contains(p as usize);
                    assert(tops[k].contains(p as usize));
                }
                if top@.contains(p as usize) {
                    assert(tops[old_tops.len() as int].contains(p as usize));
                }
                if exists|k: int| 0 <= k < tops.len() && (#[trigger] tops[k]).contains(p as usize) {
                    let k = choose|k: int|
                        0 <= k < tops.len() && (#[trigger] tops[k]).contains(p as usize);
                    if k < old_tops.len() {
                        assert(old_tops[k].contains(p as usize));
                    }
                }
            }
        }
        i += 1;
    }
    proof {
        let cols = Seq::new(columns@.len(), |k: int| columns@[k]@);
        assert(tops.len() == cols.len());
        assert forall|k: int| 0 <= k < cols.len() implies is_best(
            #[trigger] cols[k],
            #[trigger] tops[k],
            n as int,
        ) by {
            assert(cols[k] == columns@[k]@);
        }
    }
    keep
}

/// The best `top_n` of a table of counts.
pub fn prune_counts(values: &Vec<u64>, top_n: usize) -> (r: Vec<bool>)
    ensures
        is_kept(seq![count_scores(values@)], values@.len() as int, top_n as int, r@),
{
    let columns = vec![score_counts(values)];
    assert(Seq::new(columns@.len(), |k: int| columns@[k]@) =~= seq![count_scores(values@)]);
    keep_best(&columns, values.len(), top_n)
}

/// The columns by which pairs are shown.
pub open spec fn pair_columns(rows: Seq<(u64, u64)>) -> Seq<Seq<Option<Score>>> {
    seq![count_scores(firsts_of(rows)), count_scores(seconds_of(rows))]
}

/// The best `top_n` pairs by either value; all of them where no limit is set.
pub fn prune_pairs(rows: &Vec<(u64, u64)>, top_n: usize) -> (r: Vec<bool>)
    ensures
        top_n == 0 ==> all_kept(r@, rows@.len() as int),
        top_n > 0 ==> is_kept(pair_columns(rows@), rows@.len() as int, top_n as int, r@),
{
    if top_n == 0 {
        return keep_all(rows.len());
    }
    let columns = vec![score_counts(&firsts(rows)), score_counts(&seconds(rows))];
    assert(Seq::new(columns@.len(), |k: int| columns@[k]@) =~= pair_columns(rows@));
    keep_best(&columns, rows.len(), top_n)
}

/// The columns by which URLs are shown.
pub open spec fn url_columns(rows: Seq<UrlStats>) -> Seq<Seq<Option<Score>>> {
    seq![
        count_scores(url_hits_of(rows)),
        count_scores(url_bandwidths_of(rows)),
        averages(rows),
    ]
}

/// The best `top_n` URLs by hits, bytes or average response time; all of them where no limit is
/// set.
pub fn prune_urls(rows: &Vec<UrlStats>, top_n: usize) -> (r: Vec<bool>)
    ensures
        top_n == 0 ==> all_kept(r@, rows@.len() as int),
        top_n > 0 ==> is_kept(url_columns(rows@), rows@.len() as int, top_n as int, r@),
{
    if top_n == 0 {
        return keep_all(rows.len());
    }
    let columns = vec![
        score_counts(&url_hits(rows)),
        score_counts(&url_bandwidths(rows)),
        score_averages(rows),
    ];
    assert(Seq::new(columns@.len(), |k: int| columns@[k]@) =~= url_columns(rows@));
    keep_best(&columns, rows.len(), top_n)
}

/// One of the counts by which failing URLs are shown.
pub open spec fn error_column(row: ErrUrlStats, k: int) -> u64 {
    if k == 0 {
        row.c400
    } else if k == 1 {
        row.c401
    } else if k == 2 {
        row.c403
    } else if k == 3 {
        row.c404
    } else if k == 4 {
        row.c422
    } else if k == 5 {
        row.c429
    } else if k == 6 {
        row.c4xx
    } else if k == 7 {
        row.c500
    } else if k == 8 {
        row.c502
    } else if k == 9 {
        row.c503
    } else if k == 10 {
        row.c5xx
    } else {
        row.bandwidth
    }
}

/// The number of counts by which failing URLs are shown.
pub const ERROR_COLUMNS: usize = 12;

fn error_value(row: ErrUrlStats, k: usize) -> (r: u64)
    ensures
        r == error_column(row, k as int),
{
    match k {
        0 => row.c400,
        1 => row.c401,
        2 => row.c403,
        3 => row.c404,
        4 => row.c422,
        5 => row.c429,
        6 => row.c4xx,
        7 => row.c500,
        8 => row.c502,
        9 => row.c503,
        10 => row.c5xx,
        _ => row.bandwidth,
    }
}

/// The columns by which failing URLs are shown.
pub open spec fn error_columns(rows: Seq<ErrUrlStats>) -> Seq<Seq<Option<Score>>> {
    Seq::new(
        ERROR_COLUMNS as nat,
        |k: int| Seq::new(rows.len(), |i: int| count_score(error_column(rows[i], k))),
    )
}

/// The best `top_n` failing URLs by any status or by bytes; all of them where no limit is set.
pub fn prune_error_urls(rows: &Vec<ErrUrlStats>, top_n: usize) -> (r: Vec<bool>)
    ensures
        top_n == 0 ==> all_kept(r@, rows@.len() as int),
        top_n > 0 ==> is_kept(error_columns(rows@), rows@.len() as int, top_n as int, r@),
{
    if top_n == 0 {
        return keep_all(rows.len());
    }
    let mut columns: Vec<Vec<Option<Score>>> = Vec::new();
    let mut k: usize = 0;
    while k < ERROR_COLUMNS
        invariant
            0 <= k <= ERROR_COLUMNS,
            columns@.len() == k,
            forall|c: int|
                0 <= c < k ==> (#[trigger] columns@[c])@ == error_columns(rows@)[c] && some_ok(
                    columns@[c]@,
                ),
        decreases ERROR_COLUMNS - k,
    {
        let mut values: Vec<Option<Score>> = Vec::new();
        let mut i: usize = 0;
        while i < rows.len()
            invariant
                0 <= i <= rows@.len(),
                values@.len() == i,
                forall|j: int|
                    0 <= j < i ==> #[trigger] values@[j] == count_score(
                        error_column(rows@[j], k as int),
                    ),
            decreases rows@.len() - i,
        {
            values.push(Some(Score::of_count(error_value(rows[i], k))));
            i += 1;
        }
        assert(values@ =~= error_columns(rows@)[k as int]);
        columns.push(values);
        k += 1;
    }
    assert(Seq::new(columns@.len(), |c: int| columns@[c]@) =~= error_columns(rows@));
    keep_best(&columns, rows.len(), top_n)
}

} // verus!
