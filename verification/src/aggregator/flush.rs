//! What of a run is stored, and what is carried on.

use vstd::prelude::*;
use vstd::string::*;
use vstd::utf8::*;

use super::aggregation::{later_of, merge_max, starts_visit, visits_after};
use super::{Processor, VisitView, VISIT_TIMEOUT_SECONDS};
use crate::accumulators::HourlyStats;
use crate::database::{visit_rows, VisitStateKey, VisitStateUpdate};
use crate::database::writer::{
    counted_slots, host_rows, is_host_row, method_labels, method_rows,
    named_rows, proto_labels, protocol_rows, HostRow,
};
use crate::mmdb::RecordView;
use crate::maps::{
    codes_list, counts, counts_len, counts_list, counts_remove, entry, hour_entries, hours_list,
    is_listing, pairs, pairs_len, pairs_list, pairs_remove, text_entries, visitor, visitor_entries,
    visits, visits_clone, visits_list, visits_new, visits_put, visits_remove, CountMap, PairMap,
    VisitMap,
};
use crate::run_accumulators::{empty_totals, AccView, RunAccumulators};
use crate::text::{bytes_eq, slice_str};
use crate::ranking::{is_top, lemma_counts, mark, no_marks, top_positions, Score};

verus! {

// ── Only the best entries ───────────────────────────────────────────────────

/// `keep` holds `n` keys, and no other key has a higher value.
pub open spec fn is_top_keys<V>(
    m: Map<Seq<char>, V>,
    keep: Set<Seq<char>>,
    n: nat,
    value: spec_fn(V) -> u64,
) -> bool {
    &&& keep.finite()
    &&& keep.len() == n
    &&& keep.subset_of(m.dom())
    &&& forall|k: Seq<char>, other: Seq<char>| #[trigger]
        keep.contains(k) && #[trigger] m.dom().contains(other) && !keep.contains(other) ==> value(
            m[k],
        ) >= value(m[other])
}

/// The first number of a pair.
pub open spec fn first() -> spec_fn((u64, u64)) -> u64 {
    |v: (u64, u64)| v.0
}

/// The second number of a pair.
pub open spec fn second() -> spec_fn((u64, u64)) -> u64 {
    |v: (u64, u64)| v.1
}

/// A number itself.
pub open spec fn whole() -> spec_fn(u64) -> u64 {
    |v: u64| v
}

/// The keys at some positions of a listing.
spec fn keys_at<V>(l: Seq<(Seq<char>, V)>, top: Seq<usize>) -> Seq<Seq<char>> {
    Seq::new(top.len(), |i: int| l[top[i] as int].0)
}

proof fn lemma_top_keys<V>(
    l: Seq<(Seq<char>, V)>,
    m: Map<Seq<char>, V>,
    scores: Seq<Score>,
    top: Seq<usize>,
    n: nat,
    value: spec_fn(V) -> u64,
)
    requires
        is_listing(l, m),
        l.len() <= usize::MAX,
        scores.len() == l.len(),
        forall|i: int|
            0 <= i < l.len() ==> #[trigger] scores[i] == (Score { num: value(l[i].1), den: 1 }),
        is_top(scores, top, n as int),
    ensures
        is_top_keys(m, keys_at(l, top).to_set(), n, value),
        forall|p: int|
            0 <= p < l.len() ==> (keys_at(l, top).to_set().contains((#[trigger] l[p]).0)
                <==> top.contains(p as usize)),
{
    let keys = keys_at(l, top);
    let keep = keys.to_set();
    assert(keys.no_duplicates()) by {
        assert forall|i: int, j: int| 0 <= i < keys.len() && 0 <= j < keys.len() && i != j implies
            keys[i] != keys[j] by {
            assert(top[i] != top[j]);
            assert(l[top[i] as int].0 != l[top[j] as int].0);
        }
    }
    keys.unique_seq_to_set();
    keys.lemma_cardinality_of_set();
    assert forall|p: int| 0 <= p < l.len() implies (keep.contains((#[trigger] l[p]).0)
        <==> top.contains(p as usize)) by {
        if top.contains(p as usize) {
            let i = choose|i: int| 0 <= i < top.len() && top[i] == p as usize;
            assert(keys[i] == l[p].0);
        }
        if keep.contains(l[p].0) {
            let i = choose|i: int| 0 <= i < keys.len() && keys[i] == l[p].0;
            assert(l[top[i] as int].0 == l[p].0);
            assert(top[i] == p as usize);
        }
    }
    assert forall|k: Seq<char>, other: Seq<char>| #[trigger]
        keep.contains(k) && #[trigger] m.dom().contains(other) && !keep.contains(
            other,
        ) implies value(m[k]) >= value(m[other]) by {
        let i = choose|i: int| 0 <= i < keys.len() && keys[i] == k;
        let p = choose|p: int| 0 <= p < l.len() && (#[trigger] l[p]).0 == other;
        assert(!top.contains(p as usize));
        assert(scores[top[i] as int].ge(scores[p as usize as int]));
        assert(scores[top[i] as int] == (Score { num: value(l[top[i] as int].1), den: 1 }));
        assert(scores[p] == (Score { num: value(l[p].1), den: 1 }));
        lemma_counts(scores[top[i] as int], scores[p]);
        assert(m[l[top[i] as int].0] == l[top[i] as int].1);
        assert(m[l[p].0] == l[p].1);
        assert(k == l[top[i] as int].0);
    }
    assert(keep.subset_of(m.dom())) by {
        assert forall|k: Seq<char>| keep.contains(k) implies m.dom().contains(k) by {
            let i = choose|i: int| 0 <= i < keys.len() && keys[i] == k;
            assert(m.dom().contains(l[top[i] as int].0));
        }
    }
}

/// `m` keeps the keys whose flag is set, and the keys from `from` on.
spec fn kept_from<V>(
    m: Map<Seq<char>, V>,
    before: Map<Seq<char>, V>,
    l: Seq<(Seq<char>, V)>,
    keep: Seq<bool>,
    from: int,
) -> bool {
    &&& m.dom().subset_of(before.dom())
    &&& forall|k: Seq<char>| #[trigger] m.dom().contains(k) ==> m[k] == before[k]
    &&& forall|p: int|
        0 <= p < l.len() ==> (m.dom().contains((#[trigger] l[p]).0) <==> keep[p] || p >= from)
}

proof fn lemma_drop_one<V>(
    m: Map<Seq<char>, V>,
    before: Map<Seq<char>, V>,
    l: Seq<(Seq<char>, V)>,
    keep: Seq<bool>,
    j: int,
)
    requires
        is_listing(l, before),
        0 <= j < l.len(),
        !keep[j],
        kept_from(m, before, l, keep, j),
    ensures
        kept_from(m.remove(l[j].0), before, l, keep, j + 1),
{
    let after = m.remove(l[j].0);
    assert forall|p: int| 0 <= p < l.len() implies (after.dom().contains((#[trigger] l[p]).0)
        <==> keep[p] || p >= j + 1) by {
        if p != j {
            assert(l[p].0 != l[j].0);
        }
    }
}

proof fn lemma_kept<V>(
    m: Map<Seq<char>, V>,
    before: Map<Seq<char>, V>,
    l: Seq<(Seq<char>, V)>,
    keep: Seq<bool>,
    chosen: Set<Seq<char>>,
)
    requires
        is_listing(l, before),
        kept_from(m, before, l, keep, l.len() as int),
        chosen.subset_of(before.dom()),
        forall|p: int| 0 <= p < l.len() ==> (chosen.contains((#[trigger] l[p]).0) <==> keep[p]),
    ensures
        m == before.restrict(chosen),
{
    assert forall|k: Seq<char>| m.dom().contains(k) <==> chosen.contains(k) by {
        if before.dom().contains(k) {
            let p = choose|p: int| 0 <= p < l.len() && (#[trigger] l[p]).0 == k;
            assert(keep[p] == keep[p]);
        }
    }
    assert(m =~= before.restrict(chosen));
}

/// Keeps the entries that are among the `top_n` by hits or among the `top_n` by bandwidth.
pub fn pretrim_hits_bw_map(map: &mut PairMap, top_n: usize)
    requires
        top_n > 0 || pairs(*old(map)).dom().len() == 0,
    ensures
        pairs(*old(map)).dom().len() <= top_n ==> pairs(*final(map)) == pairs(*old(map)),
        pairs(*old(map)).dom().len() > top_n ==> exists|
            by_hits: Set<Seq<char>>,
            by_bandwidth: Set<Seq<char>>,
        | #[trigger]
            is_top_keys(pairs(*old(map)), by_hits, top_n as nat, first())
                && #[trigger] is_top_keys(
                pairs(*old(map)),
                by_bandwidth,
                top_n as nat,
                second(),
            ) && pairs(*final(map)) == pairs(*old(map)).restrict(by_hits.union(by_bandwidth)),
{
    let len: usize = pairs_len(map);
    if len <= top_n {
        return ;
    }
    let ghost before = pairs(*map);
    let list = pairs_list(map);
    let ghost l = text_entries(list@);
    let mut hits: Vec<Score> = Vec::new();
    let mut bandwidths: Vec<Score> = Vec::new();
    let mut i: usize = 0;
    while i < list.len()
        invariant
            0 <= i <= list@.len(),
            l == text_entries(list@),
            hits@.len() == i,
            bandwidths@.len() == i,
            forall|j: int|
                0 <= j < i ==> #[trigger] hits@[j] == (Score { num: l[j].1.0, den: 1 }),
            forall|j: int|
                0 <= j < i ==> #[trigger] bandwidths@[j] == (Score { num: l[j].1.1, den: 1 }),
        decreases list@.len() - i,
    {
        hits.push(Score::of_count(list[i].1.0));
        bandwidths.push(Score::of_count(list[i].1.1));
        i += 1;
    }
    let by_hits = top_positions(&hits, top_n);
    let by_bandwidth = top_positions(&bandwidths, top_n);
    let mut keep = no_marks(list.len());
    mark(&mut keep, &by_hits);
    mark(&mut keep, &by_bandwidth);
    let ghost h = keys_at(l, by_hits@).to_set();
    let ghost b = keys_at(l, by_bandwidth@).to_set();
    proof {
        lemma_top_keys(l, before, hits@, by_hits@, top_n as nat, first());
        lemma_top_keys(l, before, bandwidths@, by_bandwidth@, top_n as nat, second());
    }
    let mut j: usize = 0;
    while j < list.len()
        invariant
            0 <= j <= list@.len(),
            l == text_entries(list@),
            is_listing(l, before),
            keep@.len() == list@.len(),
            kept_from(pairs(*map), before, l, keep@, j as int),
        decreases list@.len() - j,
    {
        if !keep[j] {
            let ghost now = pairs(*map);
            pairs_remove(map, list[j].0.as_str());
            proof {
                lemma_drop_one(now, before, l, keep@, j as int);
            }
        }
        j += 1;
    }
    proof {
        lemma_kept(pairs(*map), before, l, keep@, h.union(b));
    }
}

/// Keeps the `top_n` entries with the highest counts.
pub fn pretrim_count_map(map: &mut CountMap, top_n: usize)
    ensures
        counts(*old(map)).dom().len() <= top_n ==> counts(*final(map)) == counts(*old(map)),
        counts(*old(map)).dom().len() > top_n ==> exists|keep: Set<Seq<char>>| #[trigger]
            is_top_keys(counts(*old(map)), keep, top_n as nat, whole()) && counts(*final(map))
                == counts(*old(map)).restrict(keep),
{
    let len: usize = counts_len(map);
    if len <= top_n {
        return ;
    }
    let ghost before = counts(*map);
    let list = counts_list(map);
    let ghost l = text_entries(list@);
    let mut scores: Vec<Score> = Vec::new();
    let mut i: usize = 0;
    while i < list.len()
        invariant
            0 <= i <= list@.len(),
            l == text_entries(list@),
            scores@.len() == i,
            forall|j: int|
                0 <= j < i ==> #[trigger] scores@[j] == (Score { num: l[j].1, den: 1 }),
        decreases list@.len() - i,
    {
        scores.push(Score::of_count(list[i].1));
        i += 1;
    }
    let top = top_positions(&scores, top_n);
    let mut keep = no_marks(list.len());
    mark(&mut keep, &top);
    let ghost chosen = keys_at(l, top@).to_set();
    proof {
        lemma_top_keys(l, before, scores@, top@, top_n as nat, whole());
    }
    let mut j: usize = 0;
    while j < list.len()
        invariant
            0 <= j <= list@.len(),
            l == text_entries(list@),
            is_listing(l, before),
            keep@.len() == list@.len(),
            kept_from(counts(*map), before, l, keep@, j as int),
        decreases list@.len() - j,
    {
        if !keep[j] {
            let ghost now = counts(*map);
            counts_remove(map, list[j].0.as_str());
            proof {
                lemma_drop_one(now, before, l, keep@, j as int);
            }
        }
        j += 1;
    }
    proof {
        lemma_kept(counts(*map), before, l, keep@, chosen);
    }
}

/// `m` after it was trimmed to the `n` best by hits and by bandwidth.
pub open spec fn is_trimmed_pairs(
    before: Map<Seq<char>, (u64, u64)>,
    after: Map<Seq<char>, (u64, u64)>,
    n: nat,
) -> bool {
    if before.dom().len() <= n {
        after == before
    } else {
        exists|by_hits: Set<Seq<char>>, by_bandwidth: Set<Seq<char>>| #[trigger]
            is_top_keys(before, by_hits, n, first()) && #[trigger] is_top_keys(
                before,
                by_bandwidth,
                n,
                second(),
            ) && after == before.restrict(by_hits.union(by_bandwidth))
    }
}

/// `m` after it was trimmed to the `n` highest counts.
pub open spec fn is_trimmed_counts(
    before: Map<Seq<char>, u64>,
    after: Map<Seq<char>, u64>,
    n: nat,
) -> bool {
    if before.dom().len() <= n {
        after == before
    } else {
        exists|keep: Set<Seq<char>>| #[trigger]
            is_top_keys(before, keep, n, whole()) && after == before.restrict(keep)
    }
}

/// Totals of which only the rows that can be shown are kept; all of them where no limit is set.
pub open spec fn is_trimmed(before: AccView, after: AccView, top_n: nat) -> bool {
    if top_n == 0 {
        after == before
    } else {
        &&& is_trimmed_pairs(before.urls, after.urls, top_n)
        &&& is_trimmed_pairs(before.hosts, after.hosts, top_n)
        &&& is_trimmed_counts(before.refs, after.refs, top_n)
        &&& is_trimmed_pairs(before.agents, after.agents, top_n)
        &&& after == (AccView {
            urls: after.urls,
            hosts: after.hosts,
            refs: after.refs,
            agents: after.agents,
            ..before
        })
    }
}

/// Trims the tables of a run to what can be in the report of a month; none where no limit is set.
pub fn pretrim_for_month_end(run_acc: &mut RunAccumulators, top_n: usize)
    ensures
        is_trimmed(old(run_acc)@, final(run_acc)@, top_n as nat),
{
    if top_n == 0 {
        return ;
    }
    pretrim_hits_bw_map(&mut run_acc.urls, top_n);
    pretrim_hits_bw_map(&mut run_acc.hosts, top_n);
    pretrim_count_map(&mut run_acc.refs, top_n);
    pretrim_hits_bw_map(&mut run_acc.agents, top_n);
}

// ── Visitors ────────────────────────────────────────────────────────────────

/// Before this time a visitor's next request starts a visit anyway.
pub open spec fn visit_cutoff(max_seen: i64) -> Option<i64> {
    if max_seen > 0 {
        Some((max_seen - VISIT_TIMEOUT_SECONDS) as i64)
    } else {
        None
    }
}

/// The visitors that were not last seen before the cutoff.
pub open spec fn fresh<K>(m: Map<K, i64>, cutoff: Option<i64>) -> Map<K, i64> {
    match cutoff {
        Some(c) => Map::new(|k: K| m.dom().contains(k) && m[k] >= c, |k: K| m[k]),
        None => m,
    }
}

/// The visitors of rows; of rows with one visitor the last counts.
pub open spec fn stored_visits(
    rows: Seq<((u8, u64, u64, Seq<char>), i64)>,
) -> Map<(u8, u64, u64, Seq<char>), i64>
    decreases rows.len(),
{
    if rows.len() == 0 {
        Map::empty()
    } else {
        stored_visits(rows.drop_last()).insert(rows.last().0, rows.last().1)
    }
}

/// The latest time in rows, or zero.
pub open spec fn latest_of(rows: Seq<((u8, u64, u64, Seq<char>), i64)>) -> i64
    decreases rows.len(),
{
    if rows.len() == 0 {
        0
    } else {
        later_of(Some(latest_of(rows.drop_last())), rows.last().1)
    }
}

/// Drops the visitors that were last seen before a time.
fn retain_fresh(map: &mut VisitMap, cutoff: i64)
    ensures
        visits(*final(map)) == fresh(visits(*old(map)), Some(cutoff)),
{
    let ghost before = visits(*map);
    let list = visits_list(map);
    let ghost l = visitor_entries(list@);
    let mut j: usize = 0;
    while j < list.len()
        invariant
            0 <= j <= list@.len(),
            l == visitor_entries(list@),
            is_listing(l, before),
            visits(*map).dom().subset_of(before.dom()),
            forall|k: (u8, u64, u64, Seq<char>)| #[trigger]
                visits(*map).dom().contains(k) ==> visits(*map)[k] == before[k],
            forall|p: int|
                0 <= p < l.len() ==> (visits(*map).dom().contains((#[trigger] l[p]).0) <==> l[p].1
                    >= cutoff || p >= j),
        decreases list@.len() - j,
    {
        if list[j].1 < cutoff {
            let ghost now = visits(*map);
            visits_remove(map, &list[j].0);
            proof {
                assert(l[j as int].0 == visitor(list@[j as int].0));
                assert forall|p: int| 0 <= p < l.len() implies (visits(*map).dom().contains(
                    (#[trigger] l[p]).0,
                ) <==> l[p].1 >= cutoff || p >= j + 1) by {
                    if p != j {
                        assert(l[p].0 != l[j as int].0);
                    }
                }
            }
        }
        j += 1;
    }
    proof {
        let after = visits(*map);
        assert forall|k: (u8, u64, u64, Seq<char>)| after.dom().contains(k) <==> fresh(
            before,
            Some(cutoff),
        ).dom().contains(k) by {
            if before.dom().contains(k) {
                let p = choose|p: int| 0 <= p < l.len() && (#[trigger] l[p]).0 == k;
                assert(l[p].1 == before[k]);
            }
        }
        assert(after =~= fresh(before, Some(cutoff)));
    }
}

impl Processor {
    /// Takes the visitors over from the rows of an earlier run.
    pub fn load_visit_state(&mut self, rows: Vec<VisitStateUpdate>)
        ensures
            final(self).visits() == (VisitView {
                last_seen: stored_visits(visit_rows(rows@)),
                dirty: Map::empty(),
                max_seen: latest_of(visit_rows(rows@)),
            }),
            final(self).config == old(self).config,
            final(self).geo == old(self).geo,
            final(self).checkpoint_every_secs == old(self).checkpoint_every_secs,
            final(self).time_cache == old(self).time_cache,
            final(self).referer_cache == old(self).referer_cache,
    {
        self.visit_last_seen = visits_new();
        self.visit_state_dirty = visits_new();
        self.visit_max_seen_ts = 0;
        let ghost all = visit_rows(rows@);
        let ghost start = *self;
        assert(visits(self.visit_last_seen) =~= stored_visits(all.take(0)));
        let mut i: usize = 0;
        while i < rows.len()
            invariant
                0 <= i <= rows@.len(),
                all == visit_rows(rows@),
                visits(self.visit_last_seen) == stored_visits(all.take(i as int)),
                self.visit_max_seen_ts == latest_of(all.take(i as int)),
                self.visit_state_dirty == start.visit_state_dirty,
                self.config == old(self).config,
                self.geo == old(self).geo,
                self.checkpoint_every_secs == old(self).checkpoint_every_secs,
                self.time_cache == old(self).time_cache,
                self.referer_cache == old(self).referer_cache,
            decreases rows@.len() - i,
        {
            let row = &rows[i];
            if row.last_seen_ts > self.visit_max_seen_ts {
                self.visit_max_seen_ts = row.last_seen_ts;
            }
            let key = (row.key.ip_kind, row.key.ip_hi, row.key.ip_lo, row.key.ip_text.clone());
            visits_put(&mut self.visit_last_seen, &key, row.last_seen_ts);
            proof {
                assert(all.take(i + 1).drop_last() =~= all.take(i as int));
                assert(all.take(i + 1).last() == all[i as int]);
            }
            i += 1;
        }
        assert(all.take(i as int) =~= all);
        assert(self.visits().dirty =~= Map::<(u8, u64, u64, Seq<char>), i64>::empty());
    }

    /// Forgets the visitors whose next request starts a visit anyway, and gives out the times that
    /// are not stored yet, with the cutoff before which stored times are of no use.
    pub fn collect_visit_state_flush(&mut self) -> (r: (Vec<VisitStateUpdate>, Option<i64>))
        ensures
            r.1 == visit_cutoff(old(self).visit_max_seen_ts),
            is_listing(visit_rows(r.0@), fresh(old(self).visits().dirty, r.1)),
            final(self).visits() == (VisitView {
                last_seen: fresh(old(self).visits().last_seen, r.1),
                dirty: Map::empty(),
                max_seen: old(self).visits().max_seen,
            }),
            final(self).config == old(self).config,
            final(self).geo == old(self).geo,
            final(self).checkpoint_every_secs == old(self).checkpoint_every_secs,
            final(self).time_cache == old(self).time_cache,
            final(self).referer_cache == old(self).referer_cache,
    {
        let prune_before: Option<i64> = if self.visit_max_seen_ts > 0 {
            Some(self.visit_max_seen_ts - VISIT_TIMEOUT_SECONDS)
        } else {
            None
        };
        if let Some(cutoff) = prune_before {
            retain_fresh(&mut self.visit_last_seen, cutoff);
            retain_fresh(&mut self.visit_state_dirty, cutoff);
        }
        let ghost dirty = visits(self.visit_state_dirty);
        let list = visits_list(&self.visit_state_dirty);
        let mut updates: Vec<VisitStateUpdate> = Vec::new();
        let mut i: usize = 0;
        while i < list.len()
            invariant
                0 <= i <= list@.len(),
                updates@.len() == i,
                forall|j: int|
                    0 <= j < i ==> (#[trigger] updates@[j]).key@ == visitor(list@[j].0)
                        && updates@[j].last_seen_ts == list@[j].1,
            decreases list@.len() - i,
        {
            let entry = &list[i];
            updates.push(
                VisitStateUpdate {
                    key: VisitStateKey {
                        ip_kind: entry.0.0,
                        ip_hi: entry.0.1,
                        ip_lo: entry.0.2,
                        ip_text: entry.0.3.clone(),
                    },
                    last_seen_ts: entry.1,
                },
            );
            i += 1;
        }
        self.visit_state_dirty = visits_new();
        proof {
            assert(visit_rows(updates@) =~= visitor_entries(list@));
            assert(self.visits().dirty =~= Map::<(u8, u64, u64, Seq<char>), i64>::empty());
        }
        (updates, prune_before)
    }
}

/// Times of visitors with more of them: of two the later.
pub open spec fn with_later(
    times: Map<(u8, u64, u64, Seq<char>), i64>,
    more: Map<(u8, u64, u64, Seq<char>), i64>,
) -> Map<(u8, u64, u64, Seq<char>), i64> {
    Map::new(
        |k: (u8, u64, u64, Seq<char>)| times.dom().contains(k) || more.dom().contains(k),
        |k: (u8, u64, u64, Seq<char>)|
            if more.dom().contains(k) {
                later_of(entry(times, k), more[k])
            } else {
                times[k]
            },
    )
}

/// The stored times of visitors after a flush: the later of each stored and each new time, without
/// those before the cutoff.
pub open spec fn stored_after(
    stored: Map<(u8, u64, u64, Seq<char>), i64>,
    updates: Map<(u8, u64, u64, Seq<char>), i64>,
    cutoff: Option<i64>,
) -> Map<(u8, u64, u64, Seq<char>), i64> {
    fresh(with_later(stored, updates), cutoff)
}

/// What workers that read files side by side saw of the visitors.
pub struct SharedVisitState {
    pub last_seen: VisitMap,
    pub max_seen_ts: i64,
    pub dirty: VisitMap,
}

/// Merges times of visitors that are listed once each.
fn merge_all(
    map: &mut VisitMap,
    list: &Vec<((u8, u64, u64, String), i64)>,
    more: Ghost<Map<(u8, u64, u64, Seq<char>), i64>>,
)
    requires
        is_listing(visitor_entries(list@), more@),
    ensures
        visits(*final(map)) == with_later(visits(*old(map)), more@),
{
    let ghost before = visits(*map);
    let ghost l = visitor_entries(list@);
    let mut i: usize = 0;
    while i < list.len()
        invariant
            0 <= i <= list@.len(),
            l == visitor_entries(list@),
            is_listing(l, more@),
            forall|k: (u8, u64, u64, Seq<char>)| #[trigger]
                before.dom().contains(k) ==> visits(*map).dom().contains(k),
            forall|k: (u8, u64, u64, Seq<char>)| #[trigger]
                visits(*map).dom().contains(k) ==> before.dom().contains(k)
                    || more@.dom().contains(k),
            forall|k: (u8, u64, u64, Seq<char>)| #[trigger]
                visits(*map).dom().contains(k) && !more@.dom().contains(k) ==> visits(*map)[k]
                    == before[k],
            forall|p: int|
                0 <= p < i ==> visits(*map).dom().contains((#[trigger] l[p]).0)
                    && visits(*map)[l[p].0] == later_of(entry(before, l[p].0), l[p].1),
            forall|p: int|
                i <= p < l.len() ==> entry(visits(*map), (#[trigger] l[p]).0) == entry(
                    before,
                    l[p].0,
                ),
        decreases list@.len() - i,
    {
        let ghost now = visits(*map);
        merge_max(map, &list[i].0, list[i].1);
        proof {
            let at = l[i as int];
            assert(at.0 == visitor(list@[i as int].0));
            assert forall|p: int| 0 <= p < l.len() && p != i implies entry(
                visits(*map),
                (#[trigger] l[p]).0,
            ) == entry(now, l[p].0) by {
                assert(l[p].0 != at.0);
            }
            assert forall|p: int| 0 <= p < i + 1 implies visits(*map).dom().contains(
                (#[trigger] l[p]).0,
            ) && visits(*map)[l[p].0] == later_of(entry(before, l[p].0), l[p].1) by {
                if p < i {
                    assert(entry(visits(*map), l[p].0) == entry(now, l[p].0));
                }
            }
        }
        i += 1;
    }
    proof {
        let after = visits(*map);
        let want = with_later(before, more@);
        assert forall|k: (u8, u64, u64, Seq<char>)| after.dom().contains(k) <==> #[trigger]
            want.dom().contains(k) by {
            if more@.dom().contains(k) {
                let p = choose|p: int| 0 <= p < l.len() && (#[trigger] l[p]).0 == k;
                assert(after.dom().contains(l[p].0));
            }
        }
        assert forall|k: (u8, u64, u64, Seq<char>)| #[trigger]
            want.dom().contains(k) implies after[k] == want[k] by {
            if more@.dom().contains(k) {
                let p = choose|p: int| 0 <= p < l.len() && (#[trigger] l[p]).0 == k;
                assert(after[l[p].0] == later_of(entry(before, l[p].0), l[p].1));
            }
        }
        assert(after =~= want);
    }
}

/// `latest` is the latest of a time and of those in a map.
pub open spec fn is_latest(
    known: i64,
    more: Map<(u8, u64, u64, Seq<char>), i64>,
    latest: i64,
) -> bool {
    &&& latest >= known
    &&& forall|k: (u8, u64, u64, Seq<char>)| #[trigger]
        more.dom().contains(k) ==> latest >= more[k]
    &&& latest == known || exists|k: (u8, u64, u64, Seq<char>)| #[trigger]
        more.dom().contains(k) && more[k] == latest
}

/// The latest of a time and of those that are listed.
fn latest_listed(
    known: i64,
    list: &Vec<((u8, u64, u64, String), i64)>,
    more: Ghost<Map<(u8, u64, u64, Seq<char>), i64>>,
) -> (r: i64)
    requires
        is_listing(visitor_entries(list@), more@),
    ensures
        is_latest(known, more@, r),
{
    let ghost l = visitor_entries(list@);
    let mut r: i64 = known;
    let mut i: usize = 0;
    while i < list.len()
        invariant
            0 <= i <= list@.len(),
            l == visitor_entries(list@),
            is_listing(l, more@),
            r >= known,
            forall|p: int| 0 <= p < i ==> r >= (#[trigger] l[p]).1,
            r == known || exists|k: (u8, u64, u64, Seq<char>)| #[trigger]
                more@.dom().contains(k) && more@[k] == r,
        decreases list@.len() - i,
    {
        if list[i].1 > r {
            r = list[i].1;
            proof {
                assert(l[i as int].1 == r);
                assert(more@.dom().contains(l[i as int].0));
            }
        }
        i += 1;
    }
    proof {
        assert forall|k: (u8, u64, u64, Seq<char>)| #[trigger] more@.dom().contains(k) implies r
            >= more@[k] by {
            let p = choose|p: int| 0 <= p < l.len() && (#[trigger] l[p]).0 == k;
            assert(l[p].1 == more@[k]);
        }
    }
    r
}

impl SharedVisitState {
    /// The visitors by what is known of them.
    pub open spec fn view(&self) -> VisitView {
        VisitView {
            last_seen: visits(self.last_seen),
            dirty: visits(self.dirty),
            max_seen: self.max_seen_ts,
        }
    }

    /// What workers start from: all that a processor knows, with no news.
    pub fn of(processor: &Processor) -> (r: SharedVisitState)
        ensures
            r@ == (VisitView { dirty: Map::empty(), ..processor.visits() }),
    {
        let r = SharedVisitState {
            last_seen: visits_clone(&processor.visit_last_seen),
            max_seen_ts: processor.visit_max_seen_ts,
            dirty: visits_new(),
        };
        assert(r@.dirty =~= Map::<(u8, u64, u64, Seq<char>), i64>::empty());
        r
    }

    /// Takes over what a worker saw of the visitors in a file.
    pub fn collect(&mut self, worker: &mut Processor)
        ensures
            ({
                let news = old(worker).visits().dirty;
                &&& final(self)@.last_seen == with_later(old(self)@.last_seen, news)
                &&& final(self)@.dirty == with_later(old(self)@.dirty, news)
                &&& is_latest(old(self)@.max_seen, news, final(self)@.max_seen)
            }),
            final(worker).visits() == (VisitView { dirty: Map::empty(), ..old(worker).visits() }),
            final(worker).config == old(worker).config,
            final(worker).geo == old(worker).geo,
            final(worker).checkpoint_every_secs == old(worker).checkpoint_every_secs,
            final(worker).time_cache == old(worker).time_cache,
            final(worker).referer_cache == old(worker).referer_cache,
    {
        let ghost news = visits(worker.visit_state_dirty);
        let list = visits_list(&worker.visit_state_dirty);
        merge_all(&mut self.last_seen, &list, Ghost(news));
        merge_all(&mut self.dirty, &list, Ghost(news));
        self.max_seen_ts = latest_listed(self.max_seen_ts, &list, Ghost(news));
        worker.visit_state_dirty = visits_new();
        assert(worker.visits().dirty =~= Map::<(u8, u64, u64, Seq<char>), i64>::empty());
    }

    /// Forgets the visitors whose next request starts a visit anyway, as the processor does when
    /// it stores what it knows.
    pub fn prune(&mut self, processor: &Processor)
        ensures
            final(self)@ == (VisitView {
                last_seen: fresh(
                    old(self)@.last_seen,
                    visit_cutoff(processor.visit_max_seen_ts),
                ),
                ..old(self)@
            }),
    {
        if processor.visit_max_seen_ts > 0 {
            retain_fresh(
                &mut self.last_seen,
                processor.visit_max_seen_ts - VISIT_TIMEOUT_SECONDS,
            );
        } else {
            assert(fresh(visits(self.last_seen), None) =~= visits(self.last_seen));
        }
    }
}

impl Processor {
    /// A worker starts a file from what all workers know of the visitors.
    pub fn start_from_shared(&mut self, shared: &SharedVisitState)
        ensures
            final(self).visits() == (VisitView { dirty: Map::empty(), ..shared@ }),
            final(self).config == old(self).config,
            final(self).geo == old(self).geo,
            final(self).checkpoint_every_secs == old(self).checkpoint_every_secs,
            final(self).time_cache == old(self).time_cache,
            final(self).referer_cache == old(self).referer_cache,
    {
        self.visit_last_seen = visits_clone(&shared.last_seen);
        self.visit_max_seen_ts = shared.max_seen_ts;
        self.visit_state_dirty = visits_new();
        assert(self.visits().dirty =~= Map::<(u8, u64, u64, Seq<char>), i64>::empty());
    }
}

impl Processor {
    /// Takes over what workers saw of the visitors; they go on with what they know.
    pub fn absorb_shared_visit(&mut self, shared: &mut SharedVisitState)
        ensures
            ({
                let news = visits(old(shared).dirty);
                final(self).visits() == (VisitView {
                    last_seen: with_later(old(self).visits().last_seen, news),
                    dirty: with_later(old(self).visits().dirty, news),
                    max_seen: later_of(
                        Some(old(self).visits().max_seen),
                        old(shared).max_seen_ts,
                    ),
                })
            }),
            visits(final(shared).dirty) == Map::<(u8, u64, u64, Seq<char>), i64>::empty(),
            final(shared).last_seen == old(shared).last_seen,
            final(shared).max_seen_ts == old(shared).max_seen_ts,
            final(self).config == old(self).config,
            final(self).geo == old(self).geo,
            final(self).checkpoint_every_secs == old(self).checkpoint_every_secs,
            final(self).time_cache == old(self).time_cache,
            final(self).referer_cache == old(self).referer_cache,
    {
        if shared.max_seen_ts > self.visit_max_seen_ts {
            self.visit_max_seen_ts = shared.max_seen_ts;
        }
        let ghost news = visits(shared.dirty);
        let list = visits_list(&shared.dirty);
        merge_all(&mut self.visit_last_seen, &list, Ghost(news));
        merge_all(&mut self.visit_state_dirty, &list, Ghost(news));
        shared.dirty = visits_new();
        assert(visits(shared.dirty) =~= Map::<(u8, u64, u64, Seq<char>), i64>::empty());
    }
}

/// It does not matter which worker saw a visitor first, nor how often a time is taken over.
pub proof fn law_visits_merge_in_any_order(
    times: Map<(u8, u64, u64, Seq<char>), i64>,
    a: Map<(u8, u64, u64, Seq<char>), i64>,
    b: Map<(u8, u64, u64, Seq<char>), i64>,
)
    ensures
        with_later(with_later(times, a), b) == with_later(with_later(times, b), a),
        with_later(with_later(times, a), a) == with_later(times, a),
{
    assert(with_later(with_later(times, a), b) =~= with_later(with_later(times, b), a));
    assert(with_later(with_later(times, a), a) =~= with_later(times, a));
}

/// What workers saw, collected and then taken over at once, is what it would be had each of them
/// told the processor itself.
pub proof fn law_collected_visits_are_taken_over(
    times: Map<(u8, u64, u64, Seq<char>), i64>,
    collected: Map<(u8, u64, u64, Seq<char>), i64>,
    news: Map<(u8, u64, u64, Seq<char>), i64>,
)
    ensures
        with_later(times, with_later(collected, news)) == with_later(
            with_later(times, collected),
            news,
        ),
        with_later(times, Map::empty()) == times,
{
    assert(with_later(times, with_later(collected, news)) =~= with_later(
        with_later(times, collected),
        news,
    ));
    assert(with_later(times, Map::empty()) =~= times);
}

/// What is known of the visitors is in step with what is stored of them: a time is stored or waits
/// to be.
pub open spec fn in_step(v: VisitView, stored: Map<(u8, u64, u64, Seq<char>), i64>) -> bool {
    &&& stored.dom().subset_of(v.last_seen.dom())
    &&& v.dirty.dom().subset_of(v.last_seen.dom())
    &&& forall|k: (u8, u64, u64, Seq<char>)| #[trigger]
        v.dirty.dom().contains(k) ==> v.dirty[k] == v.last_seen[k]
    &&& forall|k: (u8, u64, u64, Seq<char>)| #[trigger]
        stored.dom().contains(k) ==> stored[k] <= v.last_seen[k]
    &&& forall|k: (u8, u64, u64, Seq<char>)| #[trigger]
        v.last_seen.dom().contains(k) && !v.dirty.dom().contains(k) ==> stored.dom().contains(k)
            && stored[k] == v.last_seen[k]
}

/// Visitors that were loaded are in step with what is stored, and every request keeps them so.
pub proof fn law_visits_stay_in_step(
    stored: Map<(u8, u64, u64, Seq<char>), i64>,
    max_seen: i64,
    v: VisitView,
    key: (u8, u64, u64, Seq<char>),
    ts: i64,
)
    ensures
        in_step(VisitView { last_seen: stored, dirty: Map::empty(), max_seen }, stored),
        in_step(v, stored) ==> in_step(visits_after(v, key, ts), stored),
{
}

/// Nothing that matters is lost between runs: after a flush, what is stored is exactly what is
/// still known of the visitors.
pub proof fn law_visits_survive(v: VisitView, stored: Map<(u8, u64, u64, Seq<char>), i64>)
    requires
        in_step(v, stored),
    ensures
        ({
            let cutoff = visit_cutoff(v.max_seen);
            stored_after(stored, fresh(v.dirty, cutoff), cutoff) == fresh(v.last_seen, cutoff)
        }),
{
    let cutoff = visit_cutoff(v.max_seen);
    assert(stored_after(stored, fresh(v.dirty, cutoff), cutoff) =~= fresh(v.last_seen, cutoff));
}

/// Forgetting visitors changes no later count of visits: a request that is not older than all
/// seen so far starts a visit after the visitors were pruned if and only if it did before.
pub proof fn law_pruning_keeps_visits(v: VisitView, key: (u8, u64, u64, Seq<char>), ts: i64)
    requires
        ts >= v.max_seen,
    ensures
        ({
            let pruned = VisitView {
                last_seen: fresh(v.last_seen, visit_cutoff(v.max_seen)),
                dirty: Map::empty(),
                max_seen: v.max_seen,
            };
            starts_visit(pruned, key, ts) == starts_visit(v, key, ts)
        }),
{
}

// ── What is stored ──────────────────────────────────────────────────────────

/// The rows that a run adds to the tables of its month.
pub struct FlushRows {
    pub hourly: Vec<((String, u8), HourlyStats)>,
    pub urls: Vec<(String, (u64, u64))>,
    pub hosts: Vec<HostRow>,
    pub refs: Vec<(String, u64)>,
    pub agents: Vec<(String, (u64, u64))>,
    pub countries: Vec<(String, (u64, u64))>,
    pub status_codes: Vec<(u16, u64)>,
    pub methods: Vec<(&'static str, u64)>,
    pub protocols: Vec<(&'static str, u64)>,
    /// Whether the pages of the month are out of date: only where entries were added.
    pub touches_period: bool,
}

/// The rows hold the totals of a run.
pub open spec fn is_flush_of(rows: FlushRows, acc: AccView) -> bool {
    &&& is_listing(hour_entries(rows.hourly@), acc.hourly)
    &&& is_listing(text_entries(rows.urls@), acc.urls)
    &&& is_listing(text_entries(rows.refs@), acc.refs)
    &&& is_listing(text_entries(rows.agents@), acc.agents)
    &&& is_listing(text_entries(rows.countries@), acc.countries)
    &&& is_listing(rows.status_codes@, acc.status_codes)
    &&& named_rows(rows.methods@) == counted_slots(
        acc.method_counts,
        method_labels(),
        acc.method_counts.len() as int,
    )
    &&& named_rows(rows.protocols@) == counted_slots(
        acc.protocol_counts,
        proto_labels(),
        acc.protocol_counts.len() as int,
    )
    &&& rows.touches_period == (acc.current_month.len() > 0 && acc.hourly.dom().len() > 0)
}

/// The rows of hosts stand for the hosts of a run, each once, in some order.
pub open spec fn are_host_rows(
    rows: Seq<HostRow>,
    db: Map<(u8, u64, u64), RecordView>,
    hosts: Map<Seq<char>, (u64, u64)>,
) -> bool {
    exists|l: Seq<(Seq<char>, (u64, u64))>| #[trigger]
        is_listing(l, hosts) && l.len() == rows.len() && forall|i: int|
            0 <= i < rows.len() ==> is_host_row(#[trigger] rows[i], db, l[i].0, l[i].1)
}

/// What a flush stores beside the states of files.
pub struct FlushPlan {
    pub rows: FlushRows,
    pub visit_states: Vec<VisitStateUpdate>,
    pub visit_state_prune_before_ts: Option<i64>,
    /// The time of the last entry seen, where there was one.
    pub last_log_ts: Option<i64>,
}

impl Processor {
    /// What is to be stored of a run; `None` where there is nothing to be stored. `pending` and
    /// `retired` are the numbers of file states that wait to be stored.
    pub fn flush_run(&mut self, run_acc: &RunAccumulators, pending: usize, retired: usize) -> (r:
        Option<FlushPlan>)
        requires
            old(self).wf(),
        ensures
            final(self).wf(),
            ({
                let cutoff = visit_cutoff(old(self).visit_max_seen_ts);
                let waiting = fresh(old(self).visits().dirty, cutoff);
                &&& r is None <==> {
                    &&& run_acc@.hourly.dom() =~= Set::<(Seq<char>, u8)>::empty()
                    &&& pending == 0
                    &&& retired == 0
                    &&& waiting.dom() =~= Set::<(u8, u64, u64, Seq<char>)>::empty()
                }
                &&& final(self).visits() == (VisitView {
                    last_seen: fresh(old(self).visits().last_seen, cutoff),
                    dirty: Map::empty(),
                    max_seen: old(self).visits().max_seen,
                })
                &&& r matches Some(plan) ==> {
                    &&& is_flush_of(plan.rows, run_acc@)
                    &&& are_host_rows(
                        plan.rows.hosts@,
                        old(self).geo.database(),
                        run_acc@.hosts,
                    )
                    &&& is_listing(visit_rows(plan.visit_states@), waiting)
                    &&& plan.visit_state_prune_before_ts == cutoff
                    &&& plan.last_log_ts == if old(self).visit_max_seen_ts > 0 {
                        Some(old(self).visit_max_seen_ts)
                    } else {
                        None
                    }
                }
            }),
            final(self).geo.database() == old(self).geo.database(),
            final(self).config == old(self).config,
            final(self).checkpoint_every_secs == old(self).checkpoint_every_secs,
            final(self).time_cache == old(self).time_cache,
            final(self).referer_cache == old(self).referer_cache,
    {
        let (visit_states, visit_state_prune_before_ts) = self.collect_visit_state_flush();
        let ghost waiting = fresh(
            old(self).visits().dirty,
            visit_cutoff(old(self).visit_max_seen_ts),
        );
        proof {
            let l = visit_rows(visit_states@);
            assert(visit_states@.len() == waiting.dom().len());
            if visit_states@.len() == 0 {
                assert(waiting.dom() =~= Set::<(u8, u64, u64, Seq<char>)>::empty());
            } else if waiting.dom() =~= Set::<(u8, u64, u64, Seq<char>)>::empty() {
                assert(waiting.dom().len() == 0);
            }
        }
        if run_acc.is_empty() && pending == 0 && retired == 0 && visit_states.len() == 0 {
            return None;
        }
        let hosts = pairs_list(&run_acc.hosts);
        let host_rows = host_rows(&mut self.geo, &hosts);
        let hourly = hours_list(&run_acc.hourly);
        let touches_period: bool = run_acc.current_month.as_str().as_bytes().len() > 0 && hourly.len() > 0;
        proof {
            lemma_empty_text(run_acc.current_month@);
        }
        let rows = FlushRows {
            hourly,
            urls: pairs_list(&run_acc.urls),
            hosts: host_rows,
            refs: counts_list(&run_acc.refs),
            agents: pairs_list(&run_acc.agents),
            countries: pairs_list(&run_acc.countries),
            status_codes: codes_list(&run_acc.status_codes),
            methods: method_rows(&run_acc.method_counts),
            protocols: protocol_rows(&run_acc.protocol_counts),
            touches_period,
        };
        let last_log_ts: Option<i64> = if self.visit_max_seen_ts > 0 {
            Some(self.visit_max_seen_ts)
        } else {
            None
        };
        assert(is_flush_of(rows, run_acc@)) by {
            assert(hour_entries(rows.hourly@).len() == run_acc@.hourly.dom().len());
        }
        assert(are_host_rows(rows.hosts@, old(self).geo.database(), run_acc@.hosts)) by {
            assert(is_listing(text_entries(hosts@), run_acc@.hosts));
        }
        Some(FlushPlan { rows, visit_states, visit_state_prune_before_ts, last_log_ts })
    }
}

/// A text has bytes if and only if it has characters.
pub proof fn lemma_empty_text(s: Seq<char>)
    ensures
        encode_utf8(s).len() > 0 <==> s.len() > 0,
{
    reveal_with_fuel(encode_utf8, 2);
}

// ── The end of a month ──────────────────────────────────────────────────────

/// What is to be done when a month is over.
pub struct MonthEnd {
    /// The month to be finalized.
    pub finalize: Option<String>,
    /// The year to be finalized.
    pub finalize_year: Option<String>,
}

/// The year of a period name: its first four bytes.
pub open spec fn year_part(month: Seq<u8>) -> Option<Seq<u8>> {
    if month.len() >= 4 {
        Some(month.take(4))
    } else {
        None
    }
}

/// A name can be cut after its year.
pub open spec fn year_cut_ok(month: Seq<u8>) -> bool {
    month.len() >= 4 ==> is_char_boundary(month, 4)
}

/// What the end of a month asks for: the month to be finalized, unless there was none, and its year
/// where another one begins.
pub open spec fn is_month_end(r: MonthEnd, old_month: Seq<char>, new_month: Seq<char>) -> bool {
    let old_year = year_part(encode_utf8(old_month));
    let new_year = year_part(encode_utf8(new_month));
    &&& match r.finalize {
        Some(m) => m@ == old_month && old_month.len() > 0,
        None => old_month.len() == 0,
    }
    &&& match r.finalize_year {
        Some(y) => old_year == Some(encode_utf8(y@)) && new_year is Some && old_year != new_year,
        None => old_year is None || new_year is None || old_year == new_year,
    }
}

/// Whether a name can be cut after its year.
pub(crate) fn can_cut_year(month: &str) -> (r: bool)
    ensures
        r == year_cut_ok(month.spec_bytes()),
{
    month.as_bytes().len() < 4 || month.is_char_boundary(4)
}

/// Turns to a new month: says which month and which year are over, and clears the totals.
pub fn advance_month(run_acc: &mut RunAccumulators, new_month: String) -> (r: MonthEnd)
    requires
        year_cut_ok(encode_utf8(old(run_acc).current_month@)),
        year_cut_ok(encode_utf8(new_month@)),
    ensures
        final(run_acc).wf(),
        final(run_acc)@ == empty_totals(new_month@),
        is_month_end(r, old(run_acc).current_month@, new_month@),
{
    let old_month = run_acc.current_month.clone();
    let text = old_month.as_str();
    let len: usize = text.as_bytes().len();
    proof {
        lemma_empty_text(old_month@);
    }
    let mut end = MonthEnd { finalize: None, finalize_year: None };
    if len > 0 {
        if len >= 4 && new_month.as_str().as_bytes().len() >= 4 {
            proof {
                encode_utf8_valid_utf8(text@);
                encode_utf8_valid_utf8(new_month@);
                is_char_boundary_start_end_of_seq(text.spec_bytes());
                is_char_boundary_start_end_of_seq(encode_utf8(new_month@));
            }
            let year = slice_str(text, 0, 4);
            let next = slice_str(new_month.as_str(), 0, 4);
            proof {
                assert(text.spec_bytes().subrange(0, 4) =~= text.spec_bytes().take(4));
                let b = encode_utf8(new_month@);
                assert(b.subrange(0, 4) =~= b.take(4));
            }
            if !bytes_eq(year.as_bytes(), next.as_bytes()) {
                end.finalize_year = Some(year.to_owned());
            }
        }
        end.finalize = Some(old_month);
    }
    run_acc.clear_for_new_month(new_month);
    end
}

} // verus!
