//! From parsed lines to batches of entries, with bots and rules applied.

use std::sync::Arc;

use vstd::prelude::*;
use vstd::utf8::encode_utf8;

use super::combined::{entry_of, parse_line};
use super::{EntryView, LogEntry};
use crate::aggregator::messages::{nothing_hidden, HideMask, LoaderMsg, ParsedEntry, ParserMsg};
use crate::loader::lines_view;
use crate::text::{
    before, comes_before, in_order, lemma_before_total, lemma_bytes_determine, lemma_insert_order,
};

verus! {

/// How many entries are handed on at once.
pub const PARSER_BATCH_SIZE: usize = 256;

/// How many lines a rule applied to.
#[derive(Debug, Clone, Copy, PartialEq, Eq, Structural)]
pub struct RuleStats {
    pub ignored: u64,
    pub hidden: u64,
}

/// What a rule says of an entry. A rule that samples says whether the entry is in the sample.
#[derive(Debug)]
pub enum RuleOutcome {
    NoRule,
    Ignore { name: String },
    Hide { name: String, mask: HideMask },
    Sample { name: String, keep: bool },
}

/// An entry with the offset at which its line starts.
pub struct ItemView {
    pub entry: EntryView,
    pub ua_family: Seq<char>,
    pub hidden: HideMask,
    pub offset: u64,
}

/// Entries with offsets, by their values.
pub open spec fn items_view(batch: Seq<(ParsedEntry, u64)>) -> Seq<ItemView> {
    Seq::new(
        batch.len(),
        |i: int|
            ItemView {
                entry: batch[i].0.entry@,
                ua_family: (*batch[i].0.ua_family)@,
                hidden: batch[i].0.hidden,
                offset: batch[i].1,
            },
    )
}

/// All entries are well-formed.
pub open spec fn items_wf(batch: Seq<(ParsedEntry, u64)>) -> bool {
    forall|i: int| 0 <= i < batch.len() ==> (#[trigger] batch[i]).0.entry.wf()
}

/// What becomes of an entry.
pub enum Verdict {
    /// It comes from a bot.
    Bot,
    /// A rule leaves it out.
    Ignored,
    /// It is handed on, hidden from some tables.
    Kept(HideMask),
}

/// What becomes of an entry: bots go first, then the rule decides.
pub open spec fn verdict(bot_filter: bool, is_bot: bool, rule: RuleOutcome) -> Verdict {
    if bot_filter && is_bot {
        Verdict::Bot
    } else {
        match rule {
            RuleOutcome::NoRule => Verdict::Kept(nothing_hidden()),
            RuleOutcome::Ignore { .. } => Verdict::Ignored,
            RuleOutcome::Hide { mask, .. } => Verdict::Kept(mask),
            RuleOutcome::Sample { keep, .. } => if keep {
                Verdict::Kept(nothing_hidden())
            } else {
                Verdict::Ignored
            },
        }
    }
}

/// The names in the rows of rules.
pub open spec fn rule_names(rows: Seq<(String, RuleStats)>) -> Seq<Seq<char>> {
    Seq::new(rows.len(), |i: int| rows[i].0@)
}

/// What each rule did, by name.
pub open spec fn rules_map(rows: Seq<(String, RuleStats)>) -> Map<Seq<char>, RuleStats> {
    Map::new(
        |n: Seq<char>| rule_names(rows).contains(n),
        |n: Seq<char>| rows[rule_names(rows).index_of(n)].1,
    )
}

/// What a rule did so far.
pub open spec fn stats_so_far(m: Map<Seq<char>, RuleStats>, name: Seq<char>) -> RuleStats {
    if m.dom().contains(name) {
        m[name]
    } else {
        RuleStats { ignored: 0, hidden: 0 }
    }
}

/// What the rules did once one applied to an entry.
pub open spec fn rules_after(m: Map<Seq<char>, RuleStats>, rule: RuleOutcome) -> Map<
    Seq<char>,
    RuleStats,
> {
    match rule {
        RuleOutcome::NoRule => m,
        RuleOutcome::Ignore { name } => ignored_once(m, name@),
        RuleOutcome::Hide { name, .. } => {
            let s = stats_so_far(m, name@);
            m.insert(name@, RuleStats { ignored: s.ignored, hidden: (s.hidden + 1) as u64 })
        },
        RuleOutcome::Sample { name, keep } => if keep {
            m
        } else {
            ignored_once(m, name@)
        },
    }
}

/// What the rules did once one left an entry out.
pub open spec fn ignored_once(m: Map<Seq<char>, RuleStats>, name: Seq<char>) -> Map<
    Seq<char>,
    RuleStats,
> {
    let s = stats_so_far(m, name);
    m.insert(name, RuleStats { ignored: (s.ignored + 1) as u64, hidden: s.hidden })
}

proof fn lemma_rules_map(rows: Seq<(String, RuleStats)>, i: int)
    requires
        in_order(rule_names(rows)),
        0 <= i < rows.len(),
    ensures
        rules_map(rows).dom().contains(rows[i].0@),
        rules_map(rows)[rows[i].0@] == rows[i].1,
{
    let names = rule_names(rows);
    assert(names[i] == rows[i].0@);
    let k = names.index_of(rows[i].0@);
    if k < i {
        lemma_before_total(encode_utf8(names[k]), encode_utf8(names[i]));
    } else if i < k {
        lemma_before_total(encode_utf8(names[i]), encode_utf8(names[k]));
    }
}

proof fn lemma_rules_update(rows: Seq<(String, RuleStats)>, i: int, name: String, s: RuleStats)
    requires
        in_order(rule_names(rows)),
        0 <= i < rows.len(),
        name@ == rows[i].0@,
    ensures
        rules_map(rows.update(i, (name, s))) == rules_map(rows).insert(name@, s),
        in_order(rule_names(rows.update(i, (name, s)))),
{
    let after = rows.update(i, (name, s));
    let names = rule_names(rows);
    assert(rule_names(after) =~= names);
    lemma_rules_map(rows, i);
    lemma_rules_map(after, i);
    assert(rules_map(after) =~= rules_map(rows).insert(name@, s)) by {
        assert forall|n: Seq<char>| names.contains(n) && n != name@ implies rules_map(after)[n]
            == rules_map(rows)[n] by {
            assert(names[names.index_of(n)] == n);
        }
    }
}

proof fn lemma_rules_insert(rows: Seq<(String, RuleStats)>, i: int, name: String, s: RuleStats)
    requires
        in_order(rule_names(rows)),
        0 <= i <= rows.len(),
        forall|j: int|
            0 <= j < i ==> comes_before(
                encode_utf8(#[trigger] rule_names(rows)[j]),
                encode_utf8(name@),
            ),
        i < rows.len() ==> comes_before(encode_utf8(name@), encode_utf8(rule_names(rows)[i])),
    ensures
        !rules_map(rows).dom().contains(name@),
        rules_map(rows.insert(i, (name, s))) == rules_map(rows).insert(name@, s),
        in_order(rule_names(rows.insert(i, (name, s)))),
{
    let names = rule_names(rows);
    let after = rows.insert(i, (name, s));
    let more = rule_names(after);
    assert(more =~= names.insert(i, name@));
    assert forall|a: int, b: int| 0 <= a < b < more.len() implies comes_before(
        encode_utf8(#[trigger] more[a]),
        encode_utf8(#[trigger] more[b]),
    ) by {
        lemma_insert_order(names, name@, i, a, b);
    }
    assert(more[i] == name@);
    assert forall|j: int| 0 <= j < names.len() implies #[trigger] names[j] != name@ by {
        let k = if j < i {
            j
        } else {
            j + 1
        };
        assert(more[k] == names[j]);
        lemma_before_total(encode_utf8(more[k]), encode_utf8(more[i]));
    }
    lemma_rules_map(after, i);
    assert forall|n: Seq<char>| names.contains(n) implies more.contains(n) && rules_map(after)[n]
        == rules_map(rows)[n] by {
        let j = names.index_of(n);
        assert(names[j] == n);
        let k = if j < i {
            j
        } else {
            j + 1
        };
        assert(more[k] == n);
        lemma_rules_map(after, k);
        lemma_rules_map(rows, j);
    }
    assert forall|n: Seq<char>| more.contains(n) implies n == name@ || names.contains(n) by {
        let k = more.index_of(n);
        if k < i {
            assert(names[k] == n);
        } else if k > i {
            assert(names[k - 1] == n);
        }
    }
    assert(rules_map(after) =~= rules_map(rows).insert(name@, s));
}

/// The parser between the reader of files and the aggregator.
pub struct ParserStage {
    pub batch: Vec<(ParsedEntry, u64)>,
    pub current_offset: u64,
    pub bot_filter: bool,
    pub bot_filtered: u64,
    /// What each rule did, in order of their names.
    pub rule_stats: Vec<(String, RuleStats)>,
}

/// What is done with an entry: lines that are done, and a batch to hand on.
pub struct StageStep {
    pub lines_done: u64,
    pub message: Option<ParserMsg>,
}

/// A step hands on these entries, up to an offset.
pub open spec fn step_sends(r: StageStep, items: Seq<ItemView>, offset: u64) -> bool {
    &&& r.lines_done == items.len()
    &&& r.message matches Some(ParserMsg::Entries { batch, current_offset }) && items_view(batch@)
        == items && items_wf(batch@) && current_offset == offset
}

/// The counters can go on.
pub open spec fn counters_fit(bot_filtered: u64, rules: Map<Seq<char>, RuleStats>) -> bool {
    &&& bot_filtered < u64::MAX
    &&& forall|n: Seq<char>| #[trigger]
        rules.dom().contains(n) ==> rules[n].ignored < u64::MAX && rules[n].hidden < u64::MAX
}

impl ParserStage {
    pub open spec fn wf(&self) -> bool {
        &&& items_wf(self.batch@)
        &&& self.batch@.len() < PARSER_BATCH_SIZE
        &&& in_order(rule_names(self.rule_stats@))
    }

    /// A parser that has seen nothing.
    pub fn new(bot_filter: bool) -> (r: ParserStage)
        ensures
            r.wf(),
            items_view(r.batch@) == Seq::<ItemView>::empty(),
            r.current_offset == 0,
            r.bot_filter == bot_filter,
            r.bot_filtered == 0,
            rules_map(r.rule_stats@) == Map::<Seq<char>, RuleStats>::empty(),
    {
        let r = ParserStage {
            batch: Vec::new(),
            current_offset: 0,
            bot_filter,
            bot_filtered: 0,
            rule_stats: Vec::new(),
        };
        assert(items_view(r.batch@) =~= Seq::<ItemView>::empty());
        r
    }

    /// Lines come in that end at this offset.
    pub fn begin_lines(&mut self, offset: u64)
        requires
            old(self).wf(),
        ensures
            final(self).wf(),
            final(self).batch == old(self).batch,
            final(self).current_offset == offset,
            final(self).bot_filter == old(self).bot_filter,
            final(self).bot_filtered == old(self).bot_filtered,
            final(self).rule_stats == old(self).rule_stats,
    {
        self.current_offset = offset;
    }

    fn count_rule(&mut self, name: String, hidden: bool)
        requires
            old(self).wf(),
            counters_fit(0, rules_map(old(self).rule_stats@)),
        ensures
            final(self).wf(),
            final(self).batch == old(self).batch,
            final(self).current_offset == old(self).current_offset,
            final(self).bot_filter == old(self).bot_filter,
            final(self).bot_filtered == old(self).bot_filtered,
            ({
                let m = rules_map(old(self).rule_stats@);
                let s = stats_so_far(m, name@);
                rules_map(final(self).rule_stats@) == m.insert(
                    name@,
                    if hidden {
                        RuleStats { ignored: s.ignored, hidden: (s.hidden + 1) as u64 }
                    } else {
                        RuleStats { ignored: (s.ignored + 1) as u64, hidden: s.hidden }
                    },
                )
            }),
    {
        let ghost rows = self.rule_stats@;
        let ghost names = rule_names(rows);
        let ghost key = encode_utf8(name@);
        let mut i: usize = 0;
        while i < self.rule_stats.len() && before(self.rule_stats[i].0.as_str(), name.as_str())
            invariant
                0 <= i <= self.rule_stats@.len(),
                *self == *old(self),
                rows == self.rule_stats@,
                names == rule_names(rows),
                key == encode_utf8(name@),
                forall|j: int| 0 <= j < i ==> comes_before(encode_utf8(#[trigger] names[j]), key),
            ensures
                0 <= i <= self.rule_stats@.len(),
                *self == *old(self),
                forall|j: int| 0 <= j < i ==> comes_before(encode_utf8(#[trigger] names[j]), key),
                i < rows.len() ==> !comes_before(encode_utf8(names[i as int]), key),
            decreases self.rule_stats@.len() - i,
        {
            i += 1;
        }
        if i < self.rule_stats.len() && !before(name.as_str(), self.rule_stats[i].0.as_str()) {
            let s = self.rule_stats[i].1;
            proof {
                lemma_before_total(encode_utf8(names[i as int]), key);
                lemma_bytes_determine(names[i as int], name@);
                lemma_rules_map(rows, i as int);
            }
            let t = if hidden {
                RuleStats { ignored: s.ignored, hidden: s.hidden + 1 }
            } else {
                RuleStats { ignored: s.ignored + 1, hidden: s.hidden }
            };
            proof {
                lemma_rules_update(rows, i as int, name, t);
            }
            self.rule_stats.set(i, (name, t));
            return ;
        }
        let t = if hidden {
            RuleStats { ignored: 0, hidden: 1 }
        } else {
            RuleStats { ignored: 1, hidden: 0 }
        };
        proof {
            lemma_rules_insert(rows, i as int, name, t);
        }
        self.rule_stats.insert(i, (name, t));
    }

    /// Takes an entry whose line starts at an offset, with what is known of its user agent and
    /// what the rules say of it.
    pub fn take(
        &mut self,
        entry: LogEntry,
        line_start: u64,
        ua_family: Arc<String>,
        is_bot: bool,
        rule: RuleOutcome,
    ) -> (r: StageStep)
        requires
            old(self).wf(),
            entry.wf(),
            counters_fit(old(self).bot_filtered, rules_map(old(self).rule_stats@)),
        ensures
            final(self).wf(),
            final(self).current_offset == old(self).current_offset,
            final(self).bot_filter == old(self).bot_filter,
            ({
                let before = items_view(old(self).batch@);
                let v = verdict(old(self).bot_filter, is_bot, rule);
                &&& final(self).bot_filtered == old(self).bot_filtered + if v is Bot {
                    1int
                } else {
                    0
                }
                &&& rules_map(final(self).rule_stats@) == if v is Bot {
                    rules_map(old(self).rule_stats@)
                } else {
                    rules_after(rules_map(old(self).rule_stats@), rule)
                }
                &&& match v {
                    Verdict::Kept(hidden) => {
                        let all = before.push(
                            ItemView {
                                entry: entry@,
                                ua_family: (*ua_family)@,
                                hidden,
                                offset: line_start,
                            },
                        );
                        if all.len() >= PARSER_BATCH_SIZE {
                            step_sends(r, all, old(self).current_offset) && items_view(
                                final(self).batch@,
                            ) == Seq::<ItemView>::empty()
                        } else {
                            r.lines_done == 0 && r.message is None && items_view(
                                final(self).batch@,
                            ) == all
                        }
                    },
                    _ => r.lines_done == 1 && r.message is None && items_view(final(self).batch@)
                        == before,
                }
            }),
    {
        if self.bot_filter && is_bot {
            self.bot_filtered = self.bot_filtered + 1;
            return StageStep { lines_done: 1, message: None };
        }
        let hidden = match rule {
            RuleOutcome::NoRule => HideMask::none(),
            RuleOutcome::Ignore { name } => {
                self.count_rule(name, false);
                return StageStep { lines_done: 1, message: None };
            },
            RuleOutcome::Hide { name, mask } => {
                self.count_rule(name, true);
                mask
            },
            RuleOutcome::Sample { name, keep } => {
                if !keep {
                    self.count_rule(name, false);
                    return StageStep { lines_done: 1, message: None };
                }
                HideMask::none()
            },
        };
        let ghost before = self.batch@;
        self.batch.push((ParsedEntry { entry, ua_family, hidden }, line_start));
        proof {
            assert(items_view(self.batch@) =~= items_view(before).push(
                ItemView {
                    entry: entry@,
                    ua_family: (*ua_family)@,
                    hidden,
                    offset: line_start,
                },
            ));
            assert forall|i: int| 0 <= i < self.batch@.len() implies (
            #[trigger] self.batch@[i]).0.entry.wf() by {
                if i < before.len() {
                    assert(before[i].0.entry.wf());
                }
            }
        }
        if self.batch.len() >= PARSER_BATCH_SIZE {
            return self.send();
        }
        StageStep { lines_done: 0, message: None }
    }

    /// Hands on all entries that wait.
    fn send(&mut self) -> (r: StageStep)
        requires
            items_wf(old(self).batch@),
            in_order(rule_names(old(self).rule_stats@)),
        ensures
            final(self).wf(),
            items_view(final(self).batch@) == Seq::<ItemView>::empty(),
            final(self).current_offset == old(self).current_offset,
            final(self).bot_filter == old(self).bot_filter,
            final(self).bot_filtered == old(self).bot_filtered,
            final(self).rule_stats == old(self).rule_stats,
            step_sends(r, items_view(old(self).batch@), old(self).current_offset),
    {
        let mut batch: Vec<(ParsedEntry, u64)> = Vec::new();
        std::mem::swap(&mut batch, &mut self.batch);
        assert(items_view(self.batch@) =~= Seq::<ItemView>::empty());
        StageStep {
            lines_done: batch.len() as u64,
            message: Some(
                ParserMsg::Entries { batch, current_offset: self.current_offset },
            ),
        }
    }

    /// Ends a file or the run: hands on the entries that wait, if there are any.
    pub fn end(&mut self) -> (r: StageStep)
        requires
            old(self).wf(),
        ensures
            final(self).wf(),
            items_view(final(self).batch@) == Seq::<ItemView>::empty(),
            final(self).current_offset == old(self).current_offset,
            final(self).bot_filter == old(self).bot_filter,
            final(self).bot_filtered == old(self).bot_filtered,
            final(self).rule_stats == old(self).rule_stats,
            old(self).batch@.len() == 0 ==> r.lines_done == 0 && r.message is None,
            old(self).batch@.len() > 0 ==> step_sends(
                r,
                items_view(old(self).batch@),
                old(self).current_offset,
            ),
    {
        if self.batch.len() == 0 {
            assert(items_view(self.batch@) =~= Seq::<ItemView>::empty());
            return StageStep { lines_done: 0, message: None };
        }
        self.send()
    }
}

// ── Whole messages ──────────────────────────────────────────────────────────

/// Entries with the offsets at which their lines start, by their values.
pub open spec fn entries_view(l: Seq<(LogEntry, u64)>) -> Seq<(EntryView, u64)> {
    Seq::new(l.len(), |i: int| (l[i].0@, l[i].1))
}

/// The entries of lines, in order; lines that are none are left out.
pub open spec fn parsed_of(lines: Seq<(Seq<char>, u64)>) -> Seq<(EntryView, u64)>
    decreases lines.len(),
{
    if lines.len() == 0 {
        Seq::empty()
    } else {
        let before = parsed_of(lines.drop_last());
        match entry_of(encode_utf8(lines.last().0)) {
            Some(e) => before.push((e, lines.last().1)),
            None => before,
        }
    }
}

/// Parses lines that start at offsets; lines that are no entries are left out.
pub fn parse_lines(lines: &Vec<(String, u64)>) -> (r: Vec<(LogEntry, u64)>)
    ensures
        entries_view(r@) == parsed_of(lines_view(lines@)),
        forall|i: int| 0 <= i < r@.len() ==> (#[trigger] r@[i]).0.wf(),
{
    let mut r: Vec<(LogEntry, u64)> = Vec::new();
    let ghost all = lines_view(lines@);
    assert(entries_view(r@) =~= parsed_of(all.take(0)));
    let mut i: usize = 0;
    while i < lines.len()
        invariant
            0 <= i <= lines@.len(),
            all == lines_view(lines@),
            entries_view(r@) == parsed_of(all.take(i as int)),
            forall|j: int| 0 <= j < r@.len() ==> (#[trigger] r@[j]).0.wf(),
        decreases lines@.len() - i,
    {
        proof {
            assert(all.take(i + 1).drop_last() =~= all.take(i as int));
            assert(all.take(i + 1).last() == all[i as int]);
        }
        if let Some(entry) = parse_line(lines[i].0.as_str()) {
            let ghost before = r@;
            r.push((entry, lines[i].1));
            assert(entries_view(r@) =~= entries_view(before).push((entry@, lines@[i as int].1)));
        }
        i += 1;
    }
    assert(all.take(i as int) =~= all);
    r
}

/// An entry whose line starts at an offset, with what is known of its user agent and what the
/// rules say of it.
pub struct JudgedEntry {
    pub entry: LogEntry,
    pub offset: u64,
    pub ua_family: Arc<String>,
    pub is_bot: bool,
    pub rule: RuleOutcome,
}

/// What is handed on of entries, in order.
pub open spec fn kept_items(bot_filter: bool, l: Seq<JudgedEntry>) -> Seq<ItemView>
    decreases l.len(),
{
    if l.len() == 0 {
        Seq::empty()
    } else {
        let before = kept_items(bot_filter, l.drop_last());
        let e = l.last();
        match verdict(bot_filter, e.is_bot, e.rule) {
            Verdict::Kept(hidden) => before.push(
                ItemView {
                    entry: e.entry@,
                    ua_family: (*e.ua_family)@,
                    hidden,
                    offset: e.offset,
                },
            ),
            _ => before,
        }
    }
}

/// How many entries are left out as those of bots.
pub open spec fn bots_in(bot_filter: bool, l: Seq<JudgedEntry>) -> nat
    decreases l.len(),
{
    if l.len() == 0 {
        0
    } else {
        bots_in(bot_filter, l.drop_last()) + if bot_filter && l.last().is_bot {
            1nat
        } else {
            0nat
        }
    }
}

/// What the rules did once all entries went through.
pub open spec fn rules_after_all(
    m: Map<Seq<char>, RuleStats>,
    bot_filter: bool,
    l: Seq<JudgedEntry>,
) -> Map<Seq<char>, RuleStats>
    decreases l.len(),
{
    if l.len() == 0 {
        m
    } else {
        let before = rules_after_all(m, bot_filter, l.drop_last());
        if bot_filter && l.last().is_bot {
            before
        } else {
            rules_after(before, l.last().rule)
        }
    }
}

/// The entries that messages hand on, in order.
pub open spec fn sent_items(messages: Seq<ParserMsg>) -> Seq<ItemView>
    decreases messages.len(),
{
    if messages.len() == 0 {
        Seq::empty()
    } else {
        sent_items(messages.drop_last()) + match messages.last() {
            ParserMsg::Entries { batch, .. } => items_view(batch@),
            _ => Seq::empty(),
        }
    }
}

/// One more message hands on its entries behind the others.
proof fn lemma_sent(messages: Seq<ParserMsg>, m: ParserMsg)
    ensures
        sent_items(messages.push(m)) == sent_items(messages) + match m {
            ParserMsg::Entries { batch, .. } => items_view(batch@),
            _ => Seq::empty(),
        },
        sent_items(Seq::<ParserMsg>::empty()) == Seq::<ItemView>::empty(),
{
    assert(messages.push(m).drop_last() =~= messages);
}

/// Each message hands on a full batch, up to an offset.
pub open spec fn full_batches(messages: Seq<ParserMsg>, offset: u64) -> bool {
    forall|i: int|
        0 <= i < messages.len() ==> ((#[trigger] messages[i]) matches ParserMsg::Entries {
            batch,
            current_offset,
        } && batch@.len() == PARSER_BATCH_SIZE && items_wf(batch@) && current_offset == offset)
}

/// The counters have room for this many more entries.
pub open spec fn room_for(bot_filtered: u64, rules: Map<Seq<char>, RuleStats>, n: int) -> bool {
    &&& bot_filtered + n <= u64::MAX
    &&& forall|name: Seq<char>| #[trigger]
        rules.dom().contains(name) ==> rules[name].ignored + n <= u64::MAX && rules[name].hidden + n
            <= u64::MAX
}

/// One more entry takes no more than one of each counter.
proof fn lemma_room(m: Map<Seq<char>, RuleStats>, rule: RuleOutcome, bots: u64, n: int)
    requires
        room_for(bots, m, n + 1),
        0 <= n < u64::MAX,
    ensures
        room_for(bots, rules_after(m, rule), n),
{
}

impl ParserStage {
    /// Takes in entries of lines that end at an offset. Gives out how many lines are done with, and
    /// the batches that are full.
    pub fn take_lines(&mut self, entries: Vec<JudgedEntry>, current_offset: u64) -> (r: (
        u64,
        Vec<ParserMsg>,
    ))
        requires
            old(self).wf(),
            forall|i: int| 0 <= i < entries@.len() ==> (#[trigger] entries@[i]).entry.wf(),
            room_for(
                old(self).bot_filtered,
                rules_map(old(self).rule_stats@),
                entries@.len() as int,
            ),
            entries@.len() + PARSER_BATCH_SIZE <= u64::MAX,
        ensures
            final(self).wf(),
            final(self).current_offset == current_offset,
            final(self).bot_filter == old(self).bot_filter,
            full_batches(r.1@, current_offset),
            ({
                let kept = kept_items(old(self).bot_filter, entries@);
                &&& sent_items(r.1@) + items_view(final(self).batch@) == items_view(
                    old(self).batch@,
                ) + kept
                &&& r.0 == entries@.len() - kept.len() + sent_items(r.1@).len()
            }),
            final(self).bot_filtered == old(self).bot_filtered + bots_in(
                old(self).bot_filter,
                entries@,
            ),
            rules_map(final(self).rule_stats@) == rules_after_all(
                rules_map(old(self).rule_stats@),
                old(self).bot_filter,
                entries@,
            ),
    {
        self.begin_lines(current_offset);
        let ghost all = entries@;
        let ghost start = items_view(self.batch@);
        let ghost rules = rules_map(self.rule_stats@);
        let mut messages: Vec<ParserMsg> = Vec::new();
        let mut done: u64 = 0;
        let n: usize = entries.len();
        assert(sent_items(messages@) + start =~= start + kept_items(self.bot_filter, all.take(0)));
        for e in it: entries.into_iter()
            invariant
                it.seq() == all,
                n == all.len(),
                n + PARSER_BATCH_SIZE <= u64::MAX,
                self.wf(),
                self.current_offset == current_offset,
                self.bot_filter == old(self).bot_filter,
                start == items_view(old(self).batch@),
                start.len() < PARSER_BATCH_SIZE,
                rules == rules_map(old(self).rule_stats@),
                forall|i: int| 0 <= i < all.len() ==> (#[trigger] all[i]).entry.wf(),
                full_batches(messages@, current_offset),
                sent_items(messages@) + items_view(self.batch@) == start + kept_items(
                    self.bot_filter,
                    all.take(it.index() as int),
                ),
                kept_items(self.bot_filter, all.take(it.index() as int)).len() <= it.index(),
                done == it.index() - kept_items(
                    self.bot_filter,
                    all.take(it.index() as int),
                ).len() + sent_items(messages@).len(),
                self.bot_filtered == old(self).bot_filtered + bots_in(
                    self.bot_filter,
                    all.take(it.index() as int),
                ),
                rules_map(self.rule_stats@) == rules_after_all(
                    rules,
                    self.bot_filter,
                    all.take(it.index() as int),
                ),
                room_for(self.bot_filtered, rules_map(self.rule_stats@), all.len() - it.index()),
        {
            let ghost i = it.index() as int;
            let ghost so_far = *self;
            let ghost sent = messages@;
            proof {
                assert(all.take(i + 1).drop_last() =~= all.take(i));
                assert(all.take(i + 1).last() == e);
                let kept = kept_items(self.bot_filter, all.take(i));
                assert((sent_items(sent) + items_view(self.batch@)).len() == (start + kept).len());
                lemma_room(rules_map(self.rule_stats@), e.rule, self.bot_filtered, all.len() - i - 1);
            }
            let step = self.take(e.entry, e.offset, e.ua_family, e.is_bot, e.rule);
            done = done + step.lines_done;
            if let Some(m) = step.message {
                messages.push(m);
            }
            proof {
                let kept = kept_items(self.bot_filter, all.take(i));
                let now = kept_items(self.bot_filter, all.take(i + 1));
                if step.message is Some {
                    lemma_sent(sent, step.message->0);
                    assert(sent_items(messages@) == sent_items(sent) + items_view(
                        so_far.batch@,
                    ).push(now.last()));
                }
                if now.len() > kept.len() {
                    assert(start + now =~= (start + kept).push(now.last()));
                }
                assert(sent_items(messages@) + items_view(self.batch@) =~= start + now);
            }
        }
        assert(all.take(n as int) =~= all);
        (done, messages)
    }

    /// Passes on the start or the end of a file, or the end of the run, behind the entries that
    /// wait.
    pub fn pass_on(&mut self, msg: LoaderMsg) -> (r: (u64, Vec<ParserMsg>))
        requires
            old(self).wf(),
            !(msg is Lines),
        ensures
            final(self).wf(),
            final(self).current_offset == old(self).current_offset,
            final(self).bot_filter == old(self).bot_filter,
            final(self).bot_filtered == old(self).bot_filtered,
            final(self).rule_stats == old(self).rule_stats,
            msg is FileStart ==> final(self).batch == old(self).batch,
            !(msg is FileStart) ==> final(self).batch@.len() == 0,
            r.0 == sent_items(r.1@).len(),
            sent_items(r.1@) + items_view(final(self).batch@) == items_view(old(self).batch@),
            r.1@.len() == if msg is FileStart || old(self).batch@.len() == 0 {
                1int
            } else {
                2
            },
            r.1@.len() == 2 ==> (r.1@[0] matches ParserMsg::Entries { current_offset, .. }
                && current_offset == old(self).current_offset),
            match msg {
                LoaderMsg::FileStart { file_idx } => r.1@.last() == (ParserMsg::FileStart {
                    file_idx,
                }),
                LoaderMsg::FileDone { file_idx, final_offset, completed } => r.1@.last() == (
                ParserMsg::FileDone { file_idx, final_offset, completed }),
                _ => r.1@.last() is Done,
            },
    {
        let mut messages: Vec<ParserMsg> = Vec::new();
        if let LoaderMsg::FileStart { file_idx } = msg {
            messages.push(ParserMsg::FileStart { file_idx });
            proof {
                lemma_sent(Seq::empty(), messages@.last());
                assert(messages@ =~= Seq::<ParserMsg>::empty().push(messages@.last()));
                assert(sent_items(messages@) =~= Seq::<ItemView>::empty());
                assert(sent_items(messages@) + items_view(self.batch@) =~= items_view(self.batch@));
            }
            return (0, messages);
        }
        let ghost waiting = items_view(self.batch@);
        let step = self.end();
        if let Some(m) = step.message {
            messages.push(m);
            proof {
                lemma_sent(Seq::empty(), m);
                assert(messages@ =~= Seq::<ParserMsg>::empty().push(m));
            }
        }
        let ghost before = messages@;
        assert(sent_items(before) =~= waiting);
        let last = match msg {
            LoaderMsg::FileDone { file_idx, final_offset, completed } => ParserMsg::FileDone {
                file_idx,
                final_offset,
                completed,
            },
            _ => ParserMsg::Done,
        };
        messages.push(last);
        proof {
            lemma_sent(before, last);
            assert(sent_items(messages@) =~= waiting);
            assert(sent_items(messages@) + items_view(self.batch@) =~= waiting);
        }
        (step.lines_done, messages)
    }
}

/// An entry of a bot reaches no table where bots are filtered, whatever the rules say; where they
/// are not, being a bot makes no difference.
pub proof fn law_bots_go_first(rule: RuleOutcome, is_bot: bool)
    ensures
        verdict(true, true, rule) is Bot,
        verdict(false, is_bot, rule) == verdict(true, false, rule),
{
}

} // verus!
