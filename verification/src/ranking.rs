//! Ranking by scores: which entries are the best, and what the n-th best scores.

use vstd::prelude::*;
use vstd::relations::injective_on;
use vstd::set_lib::*;

verus! {

/// A score: a fraction with a positive denominator. A count is a fraction over one.
#[derive(Debug, Clone, Copy, PartialEq, Eq, Structural)]
pub struct Score {
    pub num: u64,
    pub den: u64,
}

impl Score {
    pub open spec fn wf(self) -> bool {
        self.den > 0
    }

    /// At least as good as another score.
    pub open spec fn ge(self, other: Score) -> bool {
        self.num * other.den >= other.num * self.den
    }

    /// The score of a count.
    pub fn of_count(n: u64) -> (r: Score)
        ensures
            r.wf(),
            r == (Score { num: n, den: 1 }),
    {
        Score { num: n, den: 1 }
    }

    /// Whether this score is at least as good as another.
    pub fn is_ge(self, other: Score) -> (r: bool)
        ensures
            r == self.ge(other),
    {
        proof {
            lemma_product_fits(self.num, other.den);
            lemma_product_fits(other.num, self.den);
        }
        self.num as u128 * other.den as u128 >= other.num as u128 * self.den as u128
    }
}

pub proof fn lemma_product_fits(a: u64, b: u64)
    ensures
        0 <= a * b <= u128::MAX,
{
    assert(0 <= a * b <= 0xffff_ffff_ffff_ffff * 0xffff_ffff_ffff_ffff) by (nonlinear_arith)
        requires
            0 <= a <= 0xffff_ffff_ffff_ffff,
            0 <= b <= 0xffff_ffff_ffff_ffff,
    ;
}

pub proof fn lemma_ge_transitive(a: Score, b: Score, c: Score)
    requires
        a.wf(),
        b.wf(),
        c.wf(),
        a.ge(b),
        b.ge(c),
    ensures
        a.ge(c),
{
    let (an, ad) = (a.num as int, a.den as int);
    let (bn, bd) = (b.num as int, b.den as int);
    let (cn, cd) = (c.num as int, c.den as int);
    assert(an * cd >= cn * ad) by (nonlinear_arith)
        requires
            an * bd >= bn * ad,
            bn * cd >= cn * bd,
            ad > 0,
            bd > 0,
            cd > 0,
    {
        assert((an * bd) * cd >= (bn * ad) * cd);
        assert((bn * cd) * ad >= (cn * bd) * ad);
        assert((an * cd) * bd == (an * bd) * cd);
        assert((bn * ad) * cd == (bn * cd) * ad);
        assert((cn * bd) * ad == (cn * ad) * bd);
        assert((an * cd) * bd >= (cn * ad) * bd);
    }
}

/// Counts are ordered as numbers.
pub proof fn lemma_counts(a: Score, b: Score)
    requires
        a.den == 1,
        b.den == 1,
    ensures
        a.ge(b) == (a.num >= b.num),
{
    assert(a.num * b.den == a.num) by (nonlinear_arith)
        requires
            b.den == 1,
    ;
    assert(b.num * a.den == b.num) by (nonlinear_arith)
        requires
            a.den == 1,
    ;
}

/// All scores are fractions.
pub open spec fn scores_ok(scores: Seq<Score>) -> bool {
    forall|i: int| 0 <= i < scores.len() ==> (#[trigger] scores[i]).wf()
}

/// The positions `r` have scores that fall from each to the next.
pub open spec fn falls(scores: Seq<Score>, r: Seq<usize>) -> bool {
    forall|i: int, j: int| 0 <= i < j < r.len() ==> scores[#[trigger] r[i] as int].ge(scores[
    #[trigger] r[j] as int])
}

/// Of two positions with scores that are as good, the earlier comes first.
pub open spec fn keeps_order(scores: Seq<Score>, r: Seq<usize>) -> bool {
    forall|i: int, j: int|
        0 <= i < j < r.len() && scores[#[trigger] r[j] as int].ge(scores[#[trigger] r[i] as int])
            ==> r[i] < r[j]
}

/// `r` lists the positions from `lo` to `hi`, each once.
pub open spec fn lists_positions(r: Seq<usize>, lo: int, hi: int) -> bool {
    &&& r.len() == hi - lo
    &&& r.no_duplicates()
    &&& forall|i: int| 0 <= i < r.len() ==> lo <= #[trigger] r[i] < hi
    &&& forall|p: usize| lo <= p < hi ==> #[trigger] r.contains(p)
}

/// `r` lists all positions, from the best score to the worst.
pub open spec fn is_ranking(scores: Seq<Score>, r: Seq<usize>) -> bool {
    lists_positions(r, 0, scores.len() as int) && falls(scores, r) && keeps_order(scores, r)
}

fn merge(scores: &Vec<Score>, a: &Vec<usize>, b: &Vec<usize>) -> (r: Vec<usize>)
    requires
        scores_ok(scores@),
        falls(scores@, a@),
        falls(scores@, b@),
        keeps_order(scores@, a@),
        keeps_order(scores@, b@),
        a@.no_duplicates(),
        b@.no_duplicates(),
        a@.len() + b@.len() <= usize::MAX,
        forall|i: int| 0 <= i < a@.len() ==> #[trigger] a@[i] < scores@.len(),
        forall|i: int| 0 <= i < b@.len() ==> #[trigger] b@[i] < scores@.len(),
        forall|i: int, j: int|
            0 <= i < a@.len() && 0 <= j < b@.len() ==> #[trigger] a@[i] < #[trigger] b@[j],
    ensures
        r@.len() == a@.len() + b@.len(),
        r@.no_duplicates(),
        falls(scores@, r@),
        keeps_order(scores@, r@),
        forall|p: usize| #[trigger] r@.contains(p) <==> a@.contains(p) || b@.contains(p),
{
    let mut r: Vec<usize> = Vec::new();
    let mut i: usize = 0;
    let mut j: usize = 0;
    while i < a.len() || j < b.len()
        invariant
            scores_ok(scores@),
            falls(scores@, a@),
            falls(scores@, b@),
            keeps_order(scores@, a@),
            keeps_order(scores@, b@),
            a@.no_duplicates(),
            b@.no_duplicates(),
            a@.len() + b@.len() <= usize::MAX,
            forall|i: int| 0 <= i < a@.len() ==> #[trigger] a@[i] < scores@.len(),
            forall|i: int| 0 <= i < b@.len() ==> #[trigger] b@[i] < scores@.len(),
            forall|i: int, j: int|
                0 <= i < a@.len() && 0 <= j < b@.len() ==> #[trigger] a@[i] < #[trigger] b@[j],
            keeps_order(scores@, r@),
            forall|k: int, x: int|
                0 <= k < r@.len() && i <= x < a@.len() && scores@[#[trigger] a@[x] as int].ge(
                    scores@[#[trigger] r@[k] as int],
                ) ==> r@[k] < a@[x],
            forall|k: int, x: int|
                0 <= k < r@.len() && j <= x < b@.len() && scores@[#[trigger] b@[x] as int].ge(
                    scores@[#[trigger] r@[k] as int],
                ) ==> r@[k] < b@[x],
            0 <= i <= a@.len(),
            0 <= j <= b@.len(),
            r@.len() == i + j,
            r@.no_duplicates(),
            falls(scores@, r@),
            forall|k: int| 0 <= k < r@.len() ==> #[trigger] r@[k] < scores@.len(),
            forall|k: int, x: int|
                0 <= k < r@.len() && i <= x < a@.len() ==> scores@[#[trigger] r@[k] as int].ge(
                    scores@[#[trigger] a@[x] as int],
                ),
            forall|k: int, x: int|
                0 <= k < r@.len() && j <= x < b@.len() ==> scores@[#[trigger] r@[k] as int].ge(
                    scores@[#[trigger] b@[x] as int],
                ),
            forall|k: int, x: int|
                0 <= k < r@.len() && i <= x < a@.len() ==> #[trigger] r@[k] != #[trigger] a@[x],
            forall|k: int, x: int|
                0 <= k < r@.len() && j <= x < b@.len() ==> #[trigger] r@[k] != #[trigger] b@[x],
            forall|p: usize| #[trigger]
                r@.contains(p) <==> a@.take(i as int).contains(p) || b@.take(j as int).contains(p),
        decreases a@.len() - i + b@.len() - j,
    {
        let take_a: bool = if i >= a.len() {
            false
        } else if j >= b.len() {
            true
        } else {
            scores[a[i]].is_ge(scores[b[j]])
        };
        let ghost before = r@;
        let x: usize = if take_a {
            a[i]
        } else {
            b[j]
        };
        proof {
            lemma_merge_step(scores@, a@, b@, i as int, j as int, take_a);
        }
        r.push(x);
        if take_a {
            proof {
                assert(a@.take(i + 1) =~= a@.take(i as int).push(x));
            }
            i += 1;
        } else {
            proof {
                assert(b@.take(j + 1) =~= b@.take(j as int).push(x));
            }
            j += 1;
        }
        proof {
            lemma_push_contains(before, x);
            lemma_push_contains(
                if take_a {
                    a@.take(i - 1)
                } else {
                    b@.take(j - 1)
                },
                x,
            );
            assert(r@ == before.push(x));
        }
    }
    assert(a@.take(i as int) =~= a@);
    assert(b@.take(j as int) =~= b@);
    r
}

proof fn lemma_push_contains(s: Seq<usize>, x: usize)
    ensures
        forall|p: usize| #[trigger] s.push(x).contains(p) <==> s.contains(p) || p == x,
{
    assert forall|p: usize| #[trigger] s.push(x).contains(p) <==> s.contains(p) || p == x by {
        if s.contains(p) {
            let k = choose|k: int| 0 <= k < s.len() && s[k] == p;
            assert(s.push(x)[k] == p);
        }
        if p == x {
            assert(s.push(x)[s.len() as int] == p);
        }
        if s.push(x).contains(p) {
            let k = choose|k: int| 0 <= k < s.push(x).len() && s.push(x)[k] == p;
            if k < s.len() {
                assert(s[k] == p);
            }
        }
    }
}

/// The next position to be merged is at least as good as all that are left.
proof fn lemma_merge_step(
    scores: Seq<Score>,
    a: Seq<usize>,
    b: Seq<usize>,
    i: int,
    j: int,
    take_a: bool,
)
    requires
        scores_ok(scores),
        falls(scores, a),
        falls(scores, b),
        0 <= i <= a.len(),
        0 <= j <= b.len(),
        i < a.len() || j < b.len(),
        forall|k: int| 0 <= k < a.len() ==> #[trigger] a[k] < scores.len(),
        forall|k: int| 0 <= k < b.len() ==> #[trigger] b[k] < scores.len(),
        take_a ==> i < a.len() && (j < b.len() ==> scores[a[i] as int].ge(scores[b[j] as int])),
        !take_a ==> j < b.len() && (i < a.len() ==> !scores[a[i] as int].ge(scores[b[j] as int])),
    ensures
        ({
            let x = if take_a {
                a[i]
            } else {
                b[j]
            };
            &&& forall|k: int|
                i <= k < a.len() ==> scores[x as int].ge(scores[#[trigger] a[k] as int])
            &&& forall|k: int|
                j <= k < b.len() ==> scores[x as int].ge(scores[#[trigger] b[k] as int])
            &&& !take_a ==> forall|k: int|
                i <= k < a.len() ==> !scores[#[trigger] a[k] as int].ge(scores[x as int])
        }),
{
    let x = if take_a {
        a[i]
    } else {
        b[j]
    };
    assert forall|k: int| i <= k < a.len() implies scores[x as int].ge(
        scores[#[trigger] a[k] as int],
    ) by {
        if take_a {
            assert(scores[a[i] as int].ge(scores[a[k] as int]));
        } else {
            assert(scores[x as int].ge(scores[a[i] as int]));
            if k > i {
                lemma_ge_transitive(scores[x as int], scores[a[i] as int], scores[a[k] as int]);
            }
        }
    }
    if !take_a {
        assert forall|k: int| i <= k < a.len() implies !scores[#[trigger] a[k] as int].ge(
            scores[x as int],
        ) by {
            if scores[a[k] as int].ge(scores[x as int]) {
                if k > i {
                    assert(scores[a[i] as int].ge(scores[a[k] as int]));
                    lemma_ge_transitive(scores[a[i] as int], scores[a[k] as int], scores[x as int]);
                }
            }
        }
    }
    assert forall|k: int| j <= k < b.len() implies scores[x as int].ge(
        scores[#[trigger] b[k] as int],
    ) by {
        if take_a {
            if k > j {
                lemma_ge_transitive(scores[x as int], scores[b[j] as int], scores[b[k] as int]);
            }
        } else {
            assert(scores[b[j] as int].ge(scores[b[k] as int]));
        }
    }
}

fn rank_range(scores: &Vec<Score>, lo: usize, hi: usize) -> (r: Vec<usize>)
    requires
        scores_ok(scores@),
        lo <= hi <= scores@.len(),
    ensures
        lists_positions(r@, lo as int, hi as int),
        falls(scores@, r@),
        keeps_order(scores@, r@),
    decreases hi - lo,
{
    if hi - lo == 0 {
        return Vec::new();
    }
    if hi - lo == 1 {
        let mut r: Vec<usize> = Vec::new();
        r.push(lo);
        assert(r@[0] == lo);
        return r;
    }
    let mid: usize = lo + (hi - lo) / 2;
    let a = rank_range(scores, lo, mid);
    let b = rank_range(scores, mid, hi);
    let r = merge(scores, &a, &b);
    proof {
        assert forall|i: int| 0 <= i < r@.len() implies lo <= #[trigger] r@[i] < hi by {
            assert(r@.contains(r@[i]));
        }
        assert forall|p: usize| lo <= p < hi implies #[trigger] r@.contains(p) by {
            if p < mid {
                assert(a@.contains(p));
            } else {
                assert(b@.contains(p));
            }
        }
    }
    r
}

/// The positions of all scores, from the best to the worst.
pub fn rank(scores: &Vec<Score>) -> (r: Vec<usize>)
    requires
        scores_ok(scores@),
    ensures
        is_ranking(scores@, r@),
{
    rank_range(scores, 0, scores.len())
}

/// `n` positions hold the best scores: none outside them is better than one of them.
pub open spec fn is_top(scores: Seq<Score>, top: Seq<usize>, n: int) -> bool {
    &&& top.len() == n
    &&& top.no_duplicates()
    &&& forall|i: int| 0 <= i < top.len() ==> #[trigger] top[i] < scores.len()
    &&& forall|i: int, p: usize|
        0 <= i < top.len() && p < scores.len() && !top.contains(p) ==> scores[
        #[trigger] top[i] as int].ge(#[trigger] scores[p as int])
}

/// The positions of the `n` best scores, the best first.
pub fn top_positions(scores: &Vec<Score>, n: usize) -> (r: Vec<usize>)
    requires
        scores_ok(scores@),
        n <= scores@.len(),
    ensures
        is_top(scores@, r@, n as int),
        falls(scores@, r@),
{
    let mut r = rank(scores);
    let ghost full = r@;
    r.truncate(n);
    proof {
        assert(r@ =~= full.take(n as int));
        assert forall|i: int, p: usize|
            0 <= i < r@.len() && p < scores@.len() && !r@.contains(p) implies scores@[
        #[trigger] r@[i] as int].ge(#[trigger] scores@[p as int]) by {
            assert(full.contains(p));
            let k = choose|k: int| 0 <= k < full.len() && full[k] == p;
            if k < n {
                assert(r@[k] == p);
            }
            assert(full[i] == r@[i]);
        }
    }
    r
}

/// Those of the entries that have a score are fractions.
pub open spec fn some_ok(scores: Seq<Option<Score>>) -> bool {
    forall|i: int| 0 <= i < scores.len() && (#[trigger] scores[i]) is Some ==> scores[i]->0.wf()
}

/// `top` holds the `n` best of the entries that have a score, or all of them where there are fewer.
pub open spec fn is_best(scores: Seq<Option<Score>>, top: Seq<usize>, n: int) -> bool {
    &&& top.len() <= n
    &&& top.no_duplicates()
    &&& forall|i: int|
        0 <= i < top.len() ==> #[trigger] top[i] < scores.len() && scores[top[i] as int] is Some
    &&& forall|p: usize|
        p < scores.len() && (#[trigger] scores[p as int]) is Some && !top.contains(p) ==> top.len()
            == n && forall|i: int|
            0 <= i < top.len() ==> scores[#[trigger] top[i] as int]->0.ge(scores[p as int]->0)
}

/// The scores of the best, from one to the next, fall.
pub open spec fn best_fall(scores: Seq<Option<Score>>, top: Seq<usize>) -> bool {
    forall|i: int, j: int|
        0 <= i < j < top.len() ==> scores[#[trigger] top[i] as int]->0.ge(
            scores[#[trigger] top[j] as int]->0,
        )
}

/// The positions of the `n` best of the entries that have a score, the best first.
pub fn best_positions(scores: &Vec<Option<Score>>, n: usize) -> (r: Vec<usize>)
    requires
        some_ok(scores@),
    ensures
        is_best(scores@, r@, n as int),
        best_fall(scores@, r@),
{
    let mut at: Vec<usize> = Vec::new();
    let mut held: Vec<Score> = Vec::new();
    let mut i: usize = 0;
    while i < scores.len()
        invariant
            0 <= i <= scores@.len(),
            some_ok(scores@),
            held@.len() == at@.len(),
            at@.len() <= i,
            scores_ok(held@),
            forall|k: int|
                0 <= k < at@.len() ==> #[trigger] at@[k] < i && scores@[at@[k] as int] == Some(
                    held@[k],
                ),
            forall|a: int, b: int| 0 <= a < b < at@.len() ==> #[trigger] at@[a] < #[trigger] at@[b],
            forall|p: usize| p < i && (#[trigger] scores@[p as int]) is Some ==> at@.contains(p),
        decreases scores@.len() - i,
    {
        if let Some(v) = scores[i] {
            let ghost before = at@;
            at.push(i);
            held.push(v);
            proof {
                lemma_push_contains(before, i);
            }
        }
        i += 1;
    }
    let m: usize = if n < held.len() {
        n
    } else {
        held.len()
    };
    let top = top_positions(&held, m);
    let mut r: Vec<usize> = Vec::new();
    let mut k: usize = 0;
    while k < top.len()
        invariant
            0 <= k <= top@.len(),
            top@.len() == m,
            held@.len() == at@.len(),
            forall|j: int| 0 <= j < top@.len() ==> #[trigger] top@[j] < at@.len(),
            r@.len() == k,
            forall|j: int| 0 <= j < k ==> #[trigger] r@[j] == at@[top@[j] as int],
        decreases top@.len() - k,
    {
        r.push(at[top[k]]);
        k += 1;
    }
    proof {
        assert forall|a: int, b: int| 0 <= a < r@.len() && 0 <= b < r@.len() && a != b implies r@[a]
            != r@[b] by {
            assert(top@[a] != top@[b]);
            if top@[a] < top@[b] {
                assert(at@[top@[a] as int] < at@[top@[b] as int]);
            } else {
                assert(at@[top@[b] as int] < at@[top@[a] as int]);
            }
        }
        assert forall|p: usize|
            p < scores@.len() && (#[trigger] scores@[p as int]) is Some && !r@.contains(
                p,
            ) implies r@.len() == n && forall|i: int|
            0 <= i < r@.len() ==> scores@[#[trigger] r@[i] as int]->0.ge(scores@[p as int]->0) by {
            assert(at@.contains(p));
            let q = choose|q: int| 0 <= q < at@.len() && at@[q] == p;
            assert(!top@.contains(q as usize)) by {
                if top@.contains(q as usize) {
                    let j = choose|j: int| 0 <= j < top@.len() && top@[j] == q as usize;
                    assert(r@[j] == p);
                }
            }
            if m == held@.len() {
                lemma_all_listed(top@, m as int, q as usize);
            }
            assert forall|i: int| 0 <= i < r@.len() implies scores@[#[trigger] r@[i] as int]->0.ge(
                scores@[p as int]->0,
            ) by {
                assert(held@[top@[i] as int].ge(held@[q as usize as int]));
                assert(scores@[at@[top@[i] as int] as int] == Some(held@[top@[i] as int]));
                assert(scores@[at@[q] as int] == Some(held@[q]));
            }
        }
        assert forall|a: int, b: int| 0 <= a < b < r@.len() implies scores@[
        #[trigger] r@[a] as int]->0.ge(scores@[#[trigger] r@[b] as int]->0) by {
            assert(held@[top@[a] as int].ge(held@[top@[b] as int]));
            assert(scores@[at@[top@[a] as int] as int] == Some(held@[top@[a] as int]));
            assert(scores@[at@[top@[b] as int] as int] == Some(held@[top@[b] as int]));
        }
        assert forall|i: int| 0 <= i < r@.len() implies #[trigger] r@[i] < scores@.len()
            && scores@[r@[i] as int] is Some by {
            assert(at@[top@[i] as int] < scores@.len());
        }
    }
    r
}

/// As many different positions below `m` as there are hold every one of them.
proof fn lemma_all_listed(top: Seq<usize>, m: int, q: usize)
    requires
        top.no_duplicates(),
        top.len() == m,
        forall|i: int| 0 <= i < top.len() ==> #[trigger] top[i] < m,
        q < m,
    ensures
        top.contains(q),
{
    let all = set_int_range(0, m);
    let f = |x: usize| x as int;
    let have = top.to_set();
    top.unique_seq_to_set();
    top.lemma_cardinality_of_set();
    assert(injective_on(f, have));
    lemma_map_size(have, have.map(f), f);
    lemma_int_range(0, m);
    assert(have.map(f).subset_of(all)) by {
        assert forall|y: int| have.map(f).contains(y) implies all.contains(y) by {
            let x = choose|x: usize| have.contains(x) && f(x) == y;
            let i = choose|i: int| 0 <= i < top.len() && top[i] == x;
            assert(top[i] < m);
        }
    }
    lemma_subset_equality(have.map(f), all);
    assert(have.map(f).contains(q as int));
}

/// `v` is the `n`-th best score: the worst of some `n` best.
pub open spec fn is_nth_best(scores: Seq<Option<Score>>, n: int, v: Score) -> bool {
    exists|top: Seq<usize>| #[trigger]
        is_best(scores, top, n) && top.len() == n && is_worst(scores, top, v)
}

/// `v` is the worst of the scores at some positions.
pub open spec fn is_worst(scores: Seq<Option<Score>>, top: Seq<usize>, v: Score) -> bool {
    &&& exists|i: int| 0 <= i < top.len() && scores[#[trigger] top[i] as int] == Some(v)
    &&& forall|i: int| 0 <= i < top.len() ==> scores[#[trigger] top[i] as int]->0.ge(v)
}

/// The `n`-th best score; `None` where fewer than `n` entries have one.
pub fn nth_best(scores: &Vec<Option<Score>>, n: usize) -> (r: Option<Score>)
    requires
        some_ok(scores@),
        n > 0,
    ensures
        match r {
            Some(v) => v.wf() && is_nth_best(scores@, n as int, v),
            None => exists|top: Seq<usize>| #[trigger]
                is_best(scores@, top, n as int) && top.len() < n,
        },
{
    let top = best_positions(scores, n);
    assert(is_best(scores@, top@, n as int));
    if top.len() < n {
        return None;
    }
    let v = match scores[top[n - 1]] {
        Some(v) => v,
        None => {
            return None;
        },
    };
    proof {
        assert(scores@[top@[n - 1] as int] == Some(v));
        assert forall|i: int| 0 <= i < top@.len() implies scores@[#[trigger] top@[i] as int]->0.ge(
            v,
        ) by {
            if i < n - 1 {
                assert(scores@[top@[i] as int]->0.ge(scores@[top@[n - 1] as int]->0));
            }
        }
        assert(is_worst(scores@, top@, v));
    }
    Some(v)
}

/// There is one `n`-th best score: any two are as good as each other.
pub proof fn law_nth_best_is_one(scores: Seq<Option<Score>>, n: int, v: Score, w: Score)
    requires
        some_ok(scores),
        is_nth_best(scores, n, v),
        is_nth_best(scores, n, w),
    ensures
        v.ge(w) && w.ge(v),
{
    lemma_nth_at_least(scores, n, v, w);
    lemma_nth_at_least(scores, n, w, v);
}

proof fn lemma_nth_at_least(scores: Seq<Option<Score>>, n: int, v: Score, w: Score)
    requires
        some_ok(scores),
        is_nth_best(scores, n, v),
        is_nth_best(scores, n, w),
    ensures
        v.ge(w),
{
    let tv = choose|top: Seq<usize>| #[trigger]
        is_best(scores, top, n) && top.len() == n && is_worst(scores, top, v);
    let tw = choose|top: Seq<usize>| #[trigger]
        is_best(scores, top, n) && top.len() == n && is_worst(scores, top, w);
    if !v.ge(w) {
        let j = choose|j: int| 0 <= j < tv.len() && scores[#[trigger] tv[j] as int] == Some(v);
        assert(!tw.contains(tv[j])) by {
            if tw.contains(tv[j]) {
                let i = choose|i: int| 0 <= i < tw.len() && tw[i] == tv[j];
                assert(scores[tw[i] as int]->0.ge(w));
            }
        }
        // Some entry of `tw` is not among `tv`, since `tv[j]` is not among `tw`.
        let sv = tv.to_set();
        let sw = tw.to_set();
        tv.unique_seq_to_set();
        tw.unique_seq_to_set();
        tv.lemma_cardinality_of_set();
        tw.lemma_cardinality_of_set();
        assert(sv.contains(tv[j]));
        if sw.subset_of(sv) {
            lemma_subset_equality(sw, sv);
            assert(false);
        }
        let x = choose|x: usize| sw.contains(x) && !sv.contains(x);
        let i = choose|i: int| 0 <= i < tw.len() && tw[i] == x;
        assert(scores[tw[i] as int]->0.ge(w));
        assert(scores[tv[j] as int]->0.ge(scores[x as int]->0));
        assert(scores[x as int] is Some);
        lemma_ge_transitive(v, scores[x as int]->0, w);
    }
}

/// Marks positions.
pub fn mark(keep: &mut Vec<bool>, positions: &Vec<usize>)
    requires
        forall|i: int| 0 <= i < positions@.len() ==> #[trigger] positions@[i] < old(keep)@.len(),
    ensures
        final(keep)@.len() == old(keep)@.len(),
        forall|p: int|
            0 <= p < old(keep)@.len() ==> #[trigger] final(keep)@[p] == (old(keep)@[p]
                || positions@.contains(p as usize)),
{
    let ghost before = keep@;
    let n: usize = keep.len();
    let mut i: usize = 0;
    while i < positions.len()
        invariant
            0 <= i <= positions@.len(),
            before == old(keep)@,
            before.len() == n,
            keep@.len() == before.len(),
            forall|i: int| 0 <= i < positions@.len() ==> #[trigger] positions@[i] < before.len(),
            forall|p: int|
                0 <= p < before.len() ==> #[trigger] keep@[p] == (before[p] || positions@.take(
                    i as int,
                ).contains(p as usize)),
        decreases positions@.len() - i,
    {
        let ghost now = keep@;
        let x: usize = positions[i];
        keep.set(x, true);
        proof {
            let t = positions@.take(i as int);
            assert(positions@.take(i + 1) =~= t.push(x));
            lemma_push_contains(t, x);
        }
        i += 1;
    }
    assert(positions@.take(i as int) =~= positions@);
}

/// `n` flags, none set.
pub fn no_marks(n: usize) -> (r: Vec<bool>)
    ensures
        r@.len() == n,
        forall|i: int| 0 <= i < n ==> !#[trigger] r@[i],
{
    vec![false; n]
}

} // verus!
