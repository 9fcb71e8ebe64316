//! What becomes of entries that are judged: how many are left out, by whom, and what is handed on.

use vstd::prelude::*;
use vstd::utf8::encode_utf8;

use super::combined::entry_of;
use super::stage::{
    bots_in, kept_items, parsed_of, rules_after_all, stats_so_far, JudgedEntry, RuleOutcome,
    RuleStats,
};

verus! {

/// How many of some entries something holds of.
pub open spec fn number(l: Seq<JudgedEntry>, what: spec_fn(JudgedEntry) -> bool) -> nat
    decreases l.len(),
{
    if l.len() == 0 {
        0
    } else {
        number(l.drop_last(), what) + if what(l.last()) {
            1nat
        } else {
            0nat
        }
    }
}

/// Entries of bots that are left out.
pub open spec fn of_bots(bot_filter: bool) -> spec_fn(JudgedEntry) -> bool {
    |e: JudgedEntry| bot_filter && e.is_bot
}

/// Entries that a rule leaves out: because it ignores them, or because it does not sample them.
pub open spec fn left_out_by(bot_filter: bool, name: Seq<char>) -> spec_fn(JudgedEntry) -> bool {
    |e: JudgedEntry|
        !(bot_filter && e.is_bot) && match e.rule {
            RuleOutcome::Ignore { name: n } => n@ == name,
            RuleOutcome::Sample { name: n, keep } => n@ == name && !keep,
            _ => false,
        }
}

/// Entries of which a rule hides something.
pub open spec fn hidden_by(bot_filter: bool, name: Seq<char>) -> spec_fn(JudgedEntry) -> bool {
    |e: JudgedEntry|
        !(bot_filter && e.is_bot) && match e.rule {
            RuleOutcome::Hide { name: n, .. } => n@ == name,
            _ => false,
        }
}

/// Entries that are handed on: no bot, and not left out by a rule.
pub open spec fn handed_on(bot_filter: bool) -> spec_fn(JudgedEntry) -> bool {
    |e: JudgedEntry|
        !(bot_filter && e.is_bot) && match e.rule {
            RuleOutcome::NoRule => true,
            RuleOutcome::Ignore { .. } => false,
            RuleOutcome::Hide { .. } => true,
            RuleOutcome::Sample { keep, .. } => keep,
        }
}

/// Entries of bots are counted where they are filtered, and as many entries are handed on as are
/// neither those of bots nor left out by a rule.
pub proof fn law_entries_are_counted(bot_filter: bool, l: Seq<JudgedEntry>)
    ensures
        bots_in(bot_filter, l) == number(l, of_bots(bot_filter)),
        kept_items(bot_filter, l).len() == number(l, handed_on(bot_filter)),
    decreases l.len(),
{
    if l.len() > 0 {
        law_entries_are_counted(bot_filter, l.drop_last());
    }
}

/// An entry is handed on as it was read, behind those before it. What a rule hides of it is hidden,
/// and nothing else.
pub proof fn law_entry_is_handed_on(bot_filter: bool, l: Seq<JudgedEntry>, e: JudgedEntry)
    ensures
        ({
            let before = kept_items(bot_filter, l);
            let after = kept_items(bot_filter, l.push(e));
            if handed_on(bot_filter)(e) {
                &&& after.drop_last() == before
                &&& after.len() == before.len() + 1
                &&& after.last().entry == e.entry@
                &&& after.last().ua_family == (*e.ua_family)@
                &&& after.last().offset == e.offset
                &&& e.rule matches RuleOutcome::Hide { mask, .. } ==> after.last().hidden == mask
                &&& !(e.rule is Hide) ==> {
                    let h = after.last().hidden;
                    !h.urls && !h.hosts && !h.refs && !h.agents && !h.countries
                }
            } else {
                after == before
            }
        }),
{
    assert(l.push(e).drop_last() =~= l);
    assert(kept_items(bot_filter, l).push(
        kept_items(bot_filter, l.push(e)).last(),
    ).drop_last() =~= kept_items(bot_filter, l));
}

/// A rule counts the entries that it leaves out and those of which it hides something: each once,
/// and none that a bot made where bots are filtered.
pub proof fn law_rules_count_their_entries(
    m: Map<Seq<char>, RuleStats>,
    bot_filter: bool,
    l: Seq<JudgedEntry>,
    name: Seq<char>,
)
    requires
        stats_so_far(m, name).ignored + l.len() <= u64::MAX,
        stats_so_far(m, name).hidden + l.len() <= u64::MAX,
    ensures
        ({
            let before = stats_so_far(m, name);
            let after = stats_so_far(rules_after_all(m, bot_filter, l), name);
            &&& after.ignored == before.ignored + number(l, left_out_by(bot_filter, name))
            &&& after.hidden == before.hidden + number(l, hidden_by(bot_filter, name))
            &&& number(l, left_out_by(bot_filter, name)) + number(l, hidden_by(bot_filter, name))
                <= l.len()
        }),
    decreases l.len(),
{
    if l.len() > 0 {
        law_rules_count_their_entries(m, bot_filter, l.drop_last(), name);
    }
}

/// Of lines those are entries that can be read as such: each is handed on once, in order, with the
/// offset at which its line starts.
pub proof fn law_lines_become_entries(lines: Seq<(Seq<char>, u64)>, line: Seq<char>, offset: u64)
    ensures
        ({
            let before = parsed_of(lines);
            let after = parsed_of(lines.push((line, offset)));
            &&& entry_of(encode_utf8(line)) matches Some(e) ==> after == before.push((e, offset))
            &&& entry_of(encode_utf8(line)) is None ==> after == before
        }),
        parsed_of(Seq::empty()).len() == 0,
{
    assert(lines.push((line, offset)).drop_last() =~= lines);
}

} // verus!
