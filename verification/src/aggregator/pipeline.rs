//! The run over all files: what is read, what is stored when, and what a month's end does.

use vstd::prelude::*;
use vstd::string::*;
use vstd::utf8::encode_utf8;

use super::aggregation::{
    code_of, entry_month, entry_month_of, geo_after, periods_of, starts_visit, visitor_of,
    visits_after,
};
use super::flush::{
    advance_month, can_cut_year, is_month_end, is_trimmed, pretrim_for_month_end, year_cut_ok,
    MonthEnd,
};
use super::messages::ParsedEntry;
use super::resolve::{is_decided, is_inode_answer, is_path_answer};
use super::resume::{
    cheap_outcome, clamped, fingerprints_of, opt_view, point_of, step_of, views, FileContext,
    FileRelation, FileResumePlan, Fingerprints, Known, OutcomeView, ResolutionOutcome, ResumePoint,
    StepView,
};
use super::totals::{after, bounded, law_counters_have_room, lemma_bounded_still, Counted};
use super::Processor;
use crate::compression::CompressionType;
use crate::database::parse_state::{
    all_retired, all_stored, law_flush_keeps_pending, path_at, ParseStates,
};
use crate::database::{ParseState, ParseStateUpdate, StateView};
use crate::fingerprint::DecodeError;
use crate::run_accumulators::{empty_totals, RunAccumulators};
use crate::text::str_eq;

verus! {

// ── Which files are read ────────────────────────────────────────────────────

/// Files are in order of time. A file whose first entry is older than the last entry of the
/// earlier runs was begun by them, so that the files before it were finished. This is the position
/// of the last such file; zero where there is none.
pub open spec fn order_boundary(first_times: Seq<Option<i64>>, last_log_ts: i64) -> int
    decreases first_times.len(),
{
    if first_times.len() == 0 {
        0
    } else if first_times.last() is Some && first_times.last()->0 < last_log_ts {
        first_times.len() - 1
    } else {
        order_boundary(first_times.drop_last(), last_log_ts)
    }
}

/// How many files are skipped: those before the boundary, where there are several files and earlier
/// runs saw an entry.
pub open spec fn skipped_files(first_times: Seq<Option<i64>>, last_log_ts: i64) -> int {
    if first_times.len() > 1 && last_log_ts > 0 {
        order_boundary(first_times, last_log_ts)
    } else {
        0
    }
}

/// How many of the files, from the first on, need not be looked at. `first_times` holds the time of
/// each file's first entry.
pub fn order_skip(first_times: &Vec<Option<i64>>, last_log_ts: i64) -> (r: usize)
    ensures
        r == skipped_files(first_times@, last_log_ts),
        r <= first_times@.len(),
{
    if first_times.len() <= 1 || last_log_ts <= 0 {
        return 0;
    }
    let mut i: usize = first_times.len();
    assert(first_times@.take(i as int) =~= first_times@);
    while i > 0
        invariant
            0 <= i <= first_times@.len(),
            first_times@.len() > 1 && last_log_ts > 0,
            order_boundary(first_times@, last_log_ts) == order_boundary(
                first_times@.take(i as int),
                last_log_ts,
            ),
        decreases i,
    {
        let ghost part = first_times@.take(i as int);
        assert(part.last() == first_times@[i - 1]);
        assert(part.drop_last() =~= first_times@.take(i - 1));
        if let Some(t) = first_times[i - 1] {
            if t < last_log_ts {
                return i - 1;
            }
        }
        i -= 1;
    }
    0
}

/// Files that are skipped hold nothing new: if no entry of a file is younger than the first entry
/// of a later file, then all entries of a skipped file are older than the last entry seen.
pub proof fn law_skipped_files_are_old(
    first_times: Seq<Option<i64>>,
    last_times: Seq<i64>,
    last_log_ts: i64,
    file: int,
)
    requires
        last_times.len() == first_times.len(),
        forall|a: int, b: int|
            0 <= a < b < first_times.len() && first_times[b] is Some ==> #[trigger] last_times[a]
                <= (#[trigger] first_times[b])->0,
        0 <= file < order_boundary(first_times, last_log_ts),
    ensures
        last_times[file] < last_log_ts,
    decreases first_times.len(),
{
    let n = first_times.len();
    if first_times.last() is Some && first_times.last()->0 < last_log_ts {
        assert(last_times[file] <= first_times[n - 1]->0);
    } else {
        let f = first_times.drop_last();
        let l = last_times.drop_last();
        assert forall|a: int, b: int| 0 <= a < b < f.len() && f[b] is Some implies #[trigger] l[a]
            <= (#[trigger] f[b])->0 by {
            assert(last_times[a] <= first_times[b]->0);
        }
        lemma_boundary_below(f, last_log_ts);
        law_skipped_files_are_old(f, l, last_log_ts, file);
    }
}

proof fn lemma_boundary_below(first_times: Seq<Option<i64>>, last_log_ts: i64)
    ensures
        0 <= order_boundary(first_times, last_log_ts) <= first_times.len(),
    decreases first_times.len(),
{
    if first_times.len() > 0 {
        lemma_boundary_below(first_times.drop_last(), last_log_ts);
    }
}

/// A state of this path and inode is among states.
pub open spec fn has_file(states: Seq<StateView>, path: Seq<char>, inode: u64) -> bool {
    exists|i: int|
        0 <= i < states.len() && (#[trigger] states[i]).filepath == path && states[i].inode
            == inode
}

/// States with more states, each path and inode once.
pub open spec fn with_retired(states: Seq<StateView>, more: Seq<StateView>) -> Seq<StateView>
    decreases more.len(),
{
    if more.len() == 0 {
        states
    } else {
        let before = with_retired(states, more.drop_last());
        if has_file(before, more.last().filepath, more.last().inode) {
            before
        } else {
            before.push(more.last())
        }
    }
}

/// Whether a state of this path and inode is among states.
pub(crate) fn contains_file(states: &Vec<ParseStateUpdate>, path: &str, inode: u64) -> (r: bool)
    ensures
        r == has_file(views(states@), path@, inode),
{
    let ghost all = views(states@);
    let mut i: usize = 0;
    while i < states.len()
        invariant
            0 <= i <= states@.len(),
            all == views(states@),
            forall|j: int|
                0 <= j < i ==> !((#[trigger] all[j]).filepath == path@ && all[j].inode == inode),
        decreases states@.len() - i,
    {
        assert(all[i as int] == states@[i as int]@);
        if states[i].inode == inode && str_eq(states[i].filepath.as_str(), path) {
            return true;
        }
        i += 1;
    }
    false
}

/// What was decided about all files.
pub struct RunPlan {
    /// States to be stored.
    pub pending: Vec<ParseStateUpdate>,
    /// States to be retired, each path and inode once.
    pub retired: Vec<ParseStateUpdate>,
    /// Files to be read, by their position.
    pub work: Vec<(usize, FileResumePlan)>,
    /// Files that need not be read.
    pub files_done: u64,
}

/// A plan by its values.
pub struct PlanView {
    pub pending: Seq<StateView>,
    pub retired: Seq<StateView>,
    pub work: Seq<(usize, FileResumePlan)>,
    pub files_done: int,
}

/// A plan with what was decided about one more file.
pub open spec fn plan_with(p: PlanView, file_idx: usize, o: OutcomeView) -> PlanView {
    PlanView {
        pending: match o.skipped {
            Some(s) => p.pending.push(s),
            None => p.pending,
        },
        retired: with_retired(p.retired, o.retired),
        work: match o.plan {
            Some(plan) => p.work.push((file_idx, plan)),
            None => p.work,
        },
        files_done: match o.plan {
            Some(_) => p.files_done,
            None => p.files_done + 1,
        },
    }
}

/// What was decided about the files of a run, one after the other.
pub open spec fn planned(outcomes: Seq<OutcomeView>) -> PlanView
    decreases outcomes.len(),
{
    if outcomes.len() == 0 {
        PlanView {
            pending: Seq::empty(),
            retired: Seq::empty(),
            work: Seq::empty(),
            files_done: 0,
        }
    } else {
        plan_with(
            planned(outcomes.drop_last()),
            (outcomes.len() - 1) as usize,
            outcomes.last(),
        )
    }
}

impl RunPlan {
    pub open spec fn view(&self) -> PlanView {
        PlanView {
            pending: views(self.pending@),
            retired: views(self.retired@),
            work: self.work@,
            files_done: self.files_done as int,
        }
    }

    /// Nothing was decided yet.
    pub fn new() -> (r: RunPlan)
        ensures
            views(r.pending@) == Seq::<StateView>::empty(),
            views(r.retired@) == Seq::<StateView>::empty(),
            r.work@ == Seq::<(usize, FileResumePlan)>::empty(),
            r.files_done == 0,
    {
        let r = RunPlan {
            pending: Vec::new(),
            retired: Vec::new(),
            work: Vec::new(),
            files_done: 0,
        };
        assert(views(r.pending@) =~= Seq::<StateView>::empty());
        assert(views(r.retired@) =~= Seq::<StateView>::empty());
        r
    }

    /// Takes in what was decided about the file at a position.
    pub fn add_outcome(&mut self, file_idx: usize, outcome: ResolutionOutcome)
        requires
            old(self).files_done < u64::MAX,
        ensures
            final(self)@ == plan_with(old(self)@, file_idx, outcome@),
    {
        if let Some(state) = outcome.skipped_parse_state {
            let ghost before = self.pending@;
            self.pending.push(state);
            assert(views(self.pending@) =~= views(before).push(state@));
        }
        let ghost start = views(self.retired@);
        let ghost more = views(outcome.retired_parse_states@);
        assert(more.take(0) =~= Seq::<StateView>::empty());
        let mut i: usize = 0;
        while i < outcome.retired_parse_states.len()
            invariant
                0 <= i <= outcome.retired_parse_states@.len(),
                more == views(outcome.retired_parse_states@),
                views(self.retired@) == with_retired(start, more.take(i as int)),
                self.work == old(self).work,
                self.files_done == old(self).files_done,
                views(self.pending@) == match opt_view(outcome.skipped_parse_state) {
                    Some(s) => views(old(self).pending@).push(s),
                    None => views(old(self).pending@),
                },
            decreases outcome.retired_parse_states@.len() - i,
        {
            let state = &outcome.retired_parse_states[i];
            proof {
                assert(more.take(i + 1).drop_last() =~= more.take(i as int));
                assert(more.take(i + 1).last() == state@);
            }
            if !contains_file(&self.retired, state.filepath.as_str(), state.inode) {
                let ghost before = self.retired@;
                let copy = state.clone();
                self.retired.push(copy);
                assert(views(self.retired@) =~= views(before).push(state@));
            }
            i += 1;
        }
        assert(more.take(i as int) =~= more);
        match outcome.plan {
            Some(plan) => {
                self.work.push((file_idx, plan));
            },
            None => {
                self.files_done = self.files_done + 1;
            },
        }
    }

    /// A file was skipped by its place in time.
    pub fn skip_file(&mut self)
        requires
            old(self).files_done < u64::MAX,
        ensures
            final(self).files_done == old(self).files_done + 1,
            final(self).pending == old(self).pending,
            final(self).retired == old(self).retired,
            final(self).work == old(self).work,
    {
        self.files_done = self.files_done + 1;
    }
}

// ── The state of a file that was read ───────────────────────────────────────

/// What is stored of a file that was read up to an offset. The size of compressed contents is what
/// was decoded; the compressed offset is known only at the end.
pub open spec fn file_state_of(
    path: Seq<char>,
    plan: FileResumePlan,
    offset: u64,
    completed: bool,
) -> StateView {
    let is_compressed = plan.compression != CompressionType::Plain;
    StateView {
        filepath: path,
        inode: plan.current_inode,
        compressed_size: if is_compressed {
            plan.stat_size
        } else {
            0
        },
        uncompressed_size: if is_compressed {
            offset
        } else {
            match plan.uncompressed_size {
                Some(n) => n,
                None => plan.stat_size,
            }
        },
        compressed_head_fingerprint: if is_compressed {
            plan.compressed_head_fingerprint
        } else {
            None
        },
        uncompressed_head_fingerprint: plan.uncompressed_head_fingerprint,
        compressed_offset: if is_compressed && completed {
            plan.stat_size
        } else {
            0
        },
        uncompressed_offset: offset,
        mtime_ns: plan.mtime_ns,
        completed,
        earliest_ts: None,
        latest_ts: None,
    }
}

/// What is stored of a file that was read up to an offset.
pub fn make_file_parse_state(
    path: &str,
    plan: &FileResumePlan,
    final_offset: u64,
    completed: bool,
) -> (r: ParseStateUpdate)
    ensures
        r@ == file_state_of(path@, *plan, final_offset, completed),
{
    let is_compressed: bool = plan.compression.is_compressed();
    ParseStateUpdate {
        filepath: path.to_owned(),
        inode: plan.current_inode,
        compressed_size: if is_compressed {
            plan.stat_size
        } else {
            0
        },
        uncompressed_size: if is_compressed {
            final_offset
        } else {
            match plan.uncompressed_size {
                Some(n) => n,
                None => plan.stat_size,
            }
        },
        compressed_head_fingerprint: if is_compressed {
            plan.compressed_head_fingerprint
        } else {
            None
        },
        uncompressed_head_fingerprint: plan.uncompressed_head_fingerprint,
        compressed_offset: if is_compressed && completed {
            plan.stat_size
        } else {
            0
        },
        uncompressed_offset: final_offset,
        mtime_ns: plan.mtime_ns,
        completed,
        earliest_ts: None,
        latest_ts: None,
    }
}

/// A file that is being read.
pub struct ActiveFile {
    pub path: String,
    pub plan: FileResumePlan,
    /// The offset up to which entries came in.
    pub last_offset: u64,
}

impl ActiveFile {
    /// What is stored of the file while it is being read.
    pub fn partial_parse_state(&self) -> (r: ParseStateUpdate)
        ensures
            r@ == file_state_of(self.path@, self.plan, self.last_offset, false),
    {
        make_file_parse_state(self.path.as_str(), &self.plan, self.last_offset, false)
    }
}

// ── The run ─────────────────────────────────────────────────────────────────

/// A run: its totals, and the states of files that wait to be stored with them.
pub struct PipelineRun {
    pub acc: RunAccumulators,
    pub pending: Vec<ParseStateUpdate>,
    pub retired: Vec<ParseStateUpdate>,
    pub active: Option<ActiveFile>,
    /// Entries so far.
    pub total: u64,
    /// Entries that were counted so far, and their bytes.
    pub counted: u64,
    pub bytes: u64,
}

/// What an entry asks for before it is counted.
pub enum EntryStep {
    /// Nothing: it belongs to the current month, or to none.
    Count,
    /// The run has no month yet: it takes on this one.
    FirstMonth { month: String },
    /// The month is over: the totals are stored with these states, and the new month begins.
    NewMonth { states: Vec<ParseStateUpdate>, month: String },
}

/// The states of files that are stored with a finished month: those that wait, and the file that
/// is being read, up to the entry at which the month ended.
pub open spec fn boundary_states(run: PipelineRun, entry_offset: u64) -> Seq<StateView> {
    match run.active {
        Some(file) => views(run.pending@).push(
            StateView {
                uncompressed_offset: entry_offset,
                ..file_state_of(file.path@, file.plan, file.last_offset, false)
            },
        ),
        None => views(run.pending@),
    }
}

impl PipelineRun {
    /// The counters are bounded by what came in.
    pub open spec fn wf(&self) -> bool {
        self.acc.wf() && bounded(self.acc@, self.counted, self.bytes)
    }

    /// A run with what was decided about the files, in a month that may be empty.
    pub fn new(month: String, plan: RunPlan) -> (r: PipelineRun)
        ensures
            r.acc.wf(),
            r.acc@ == empty_totals(month@),
            r.pending == plan.pending,
            r.retired == plan.retired,
            r.active is None,
            r.total == 0,
            r.counted == 0,
            r.bytes == 0,
            r.wf(),
    {
        PipelineRun {
            acc: RunAccumulators::new(month),
            pending: plan.pending,
            retired: plan.retired,
            active: None,
            total: 0,
            counted: 0,
            bytes: 0,
        }
    }

    /// Starts a file: at the offset of its plan, or after the decoded bytes that it skips.
    pub fn file_start(&mut self, path: String, plan: FileResumePlan)
        ensures
            final(self).active matches Some(f) && f.path == path && f.plan == plan && f.last_offset
                == if plan.compression != CompressionType::Plain {
                plan.skip_decoded_prefix_bytes
            } else {
                plan.offset
            },
            final(self).acc == old(self).acc,
            final(self).pending == old(self).pending,
            final(self).retired == old(self).retired,
            final(self).total == old(self).total,
            final(self).counted == old(self).counted,
            final(self).bytes == old(self).bytes,
    {
        let last_offset: u64 = if plan.compression.is_compressed() {
            plan.skip_decoded_prefix_bytes
        } else {
            plan.offset
        };
        self.active = Some(ActiveFile { path, plan, last_offset });
    }

    /// Takes in a batch of entries that end at an offset.
    pub fn begin_batch(&mut self, entries: u64, current_offset: u64)
        requires
            old(self).total + entries <= u64::MAX,
        ensures
            final(self).total == old(self).total + entries,
            final(self).counted == old(self).counted,
            final(self).bytes == old(self).bytes,
            match (old(self).active, final(self).active) {
                (Some(a), Some(b)) => b == (ActiveFile { last_offset: current_offset, ..a }),
                (None, None) => true,
                _ => false,
            },
            final(self).acc == old(self).acc,
            final(self).pending == old(self).pending,
            final(self).retired == old(self).retired,
    {
        self.total = self.total + entries;
        let mut active: Option<ActiveFile> = None;
        std::mem::swap(&mut active, &mut self.active);
        if let Some(file) = active {
            self.active = Some(
                ActiveFile { path: file.path, plan: file.plan, last_offset: current_offset },
            );
        }
    }

    /// What is to be done before an entry is counted whose line starts at an offset.
    pub fn entry_step(&self, time_str: &str, month_num: u8, entry_offset: u64) -> (r: EntryStep)
        requires
            month_num <= 12,
        ensures
            ({
                let current = self.acc@.current_month;
                match entry_month_of(time_str.spec_bytes(), month_num as int) {
                    Some(m) => if current.len() == 0 {
                        r matches EntryStep::FirstMonth { month } && month@ == m
                    } else if m != current {
                        r matches EntryStep::NewMonth { states, month } && month@ == m && views(
                            states@,
                        ) == boundary_states(*self, entry_offset)
                    } else {
                        r is Count
                    },
                    None => r is Count,
                }
            }),
    {
        match entry_month(time_str, month_num) {
            Some(month) => {
                let current = self.acc.current_month.as_str();
                proof {
                    super::flush::lemma_empty_text(self.acc.current_month@);
                }
                if current.as_bytes().len() == 0 {
                    return EntryStep::FirstMonth { month };
                }
                if str_eq(month.as_str(), current) {
                    return EntryStep::Count;
                }
                EntryStep::NewMonth { states: self.states_at(entry_offset), month }
            },
            None => EntryStep::Count,
        }
    }

    fn states_at(&self, entry_offset: u64) -> (r: Vec<ParseStateUpdate>)
        ensures
            views(r@) == boundary_states(*self, entry_offset),
    {
        let mut states: Vec<ParseStateUpdate> = Vec::new();
        let mut i: usize = 0;
        while i < self.pending.len()
            invariant
                0 <= i <= self.pending@.len(),
                states@.len() == i,
                forall|j: int| 0 <= j < i ==> (#[trigger] states@[j])@ == self.pending@[j]@,
            decreases self.pending@.len() - i,
        {
            states.push(self.pending[i].clone());
            i += 1;
        }
        assert(views(states@) =~= views(self.pending@));
        if let Some(file) = &self.active {
            let mut state = file.partial_parse_state();
            state.uncompressed_offset = entry_offset;
            let ghost before = states@;
            states.push(state);
            assert(views(states@) =~= views(before).push(state@));
        }
        states
    }

    /// Takes on the first month.
    pub fn set_month(&mut self, month: String)
        ensures
            final(self).acc@ == (crate::run_accumulators::AccView {
                current_month: month@,
                ..old(self).acc@
            }),
            final(self).wf() == old(self).wf(),
            final(self).pending == old(self).pending,
            final(self).retired == old(self).retired,
            final(self).active == old(self).active,
            final(self).total == old(self).total,
            final(self).counted == old(self).counted,
            final(self).bytes == old(self).bytes,
    {
        self.acc.current_month = month;
    }

    /// The states of files were stored.
    pub fn states_stored(&mut self)
        ensures
            views(final(self).pending@) == Seq::<StateView>::empty(),
            views(final(self).retired@) == Seq::<StateView>::empty(),
            final(self).acc == old(self).acc,
            final(self).active == old(self).active,
            final(self).total == old(self).total,
            final(self).counted == old(self).counted,
            final(self).bytes == old(self).bytes,
    {
        self.pending = Vec::new();
        self.retired = Vec::new();
        assert(views(self.pending@) =~= Seq::<StateView>::empty());
        assert(views(self.retired@) =~= Seq::<StateView>::empty());
    }

    /// Readies the states of files for being stored in between: the file that is being read is
    /// added, up to the offset it got to.
    pub fn checkpoint(&mut self)
        ensures
            views(final(self).pending@) == match old(self).active {
                Some(file) => views(old(self).pending@).push(
                    file_state_of(file.path@, file.plan, file.last_offset, false),
                ),
                None => views(old(self).pending@),
            },
            final(self).retired == old(self).retired,
            final(self).acc == old(self).acc,
            final(self).active == old(self).active,
            final(self).total == old(self).total,
            final(self).counted == old(self).counted,
            final(self).bytes == old(self).bytes,
    {
        if let Some(file) = &self.active {
            let state = file.partial_parse_state();
            let ghost before = self.pending@;
            self.pending.push(state);
            assert(views(self.pending@) =~= views(before).push(state@));
        }
    }

    /// The totals were stored in between: they start again, in the same month.
    pub fn totals_stored(&mut self)
        ensures
            final(self).wf(),
            final(self).acc@ == empty_totals(old(self).acc@.current_month),
            final(self).pending == old(self).pending,
            final(self).retired == old(self).retired,
            final(self).active == old(self).active,
            final(self).total == old(self).total,
            final(self).counted == old(self).counted,
            final(self).bytes == old(self).bytes,
    {
        let month = self.acc.current_month.clone();
        self.acc.clear_for_new_month(month);
    }

    /// Ends a file.
    pub fn file_done(
        &mut self,
        path: &str,
        plan: &FileResumePlan,
        final_offset: u64,
        completed: bool,
    )
        ensures
            views(final(self).pending@) == views(old(self).pending@).push(
                file_state_of(path@, *plan, final_offset, completed),
            ),
            final(self).active is None,
            final(self).retired == old(self).retired,
            final(self).acc == old(self).acc,
            final(self).total == old(self).total,
            final(self).counted == old(self).counted,
            final(self).bytes == old(self).bytes,
    {
        let state = make_file_parse_state(path, plan, final_offset, completed);
        let ghost before = self.pending@;
        self.pending.push(state);
        assert(views(self.pending@) =~= views(before).push(state@));
        self.active = None;
    }

    /// Counts an entry, unless there are more entries or bytes than can be counted: whether it did.
    pub fn count_entry(
        &mut self,
        processor: &mut Processor,
        parsed: &ParsedEntry,
    ) -> (r: bool)
        requires
            old(self).wf(),
            old(processor).wf(),
            parsed.entry.wf(),
            parsed.entry@.month_num <= 12,
        ensures
            final(self).wf(),
            final(processor).wf(),
            r == (old(self).counted < u64::MAX && old(self).bytes + parsed.entry@.bytes
                <= u64::MAX),
            !r ==> *final(self) == *old(self) && *final(processor) == *old(processor),
            r ==> final(self).counted == old(self).counted + 1 && final(self).bytes == old(
                self,
            ).bytes + parsed.entry@.bytes,
            r ==> match periods_of(parsed.entry@.time, parsed.entry@.month_num as int) {
                None => {
                    &&& final(processor).visits() == old(processor).visits()
                    &&& final(processor).geo == old(processor).geo
                    &&& final(self).acc@ == old(self).acc@
                },
                Some(p) => {
                    let e = parsed.entry@;
                    let key = visitor_of(e.ip);
                    &&& final(processor).visits() == visits_after(
                        old(processor).visits(),
                        key,
                        p.ts as i64,
                    )
                    &&& final(processor).geo@ == geo_after(
                        old(processor).geo@,
                        old(processor).geo.database(),
                        e,
                    )
                    &&& final(self).acc@ == after(
                        old(processor).config,
                        old(self).acc@,
                        Counted {
                            entry: e,
                            periods: p,
                            agent: (*parsed.ua_family)@,
                            hidden: parsed.hidden,
                            new_visit: starts_visit(old(processor).visits(), key, p.ts as i64),
                            country: code_of(old(processor).geo.database(), e),
                        },
                    )
                },
            },
            final(processor).geo.database() == old(processor).geo.database(),
            final(processor).config == old(processor).config,
            final(processor).checkpoint_every_secs == old(processor).checkpoint_every_secs,
            final(self).pending == old(self).pending,
            final(self).retired == old(self).retired,
            final(self).active == old(self).active,
            final(self).total == old(self).total,
    {
        proof {
            parsed.entry.lemma_plain_fields();
        }
        let bytes: u64 = parsed.entry.bytes;
        if self.counted == u64::MAX || bytes > u64::MAX - self.bytes {
            return false;
        }
        proof {
            let e = parsed.entry@;
            let periods = periods_of(e.time, e.month_num as int);
            let key = visitor_of(e.ip);
            let any = Counted {
                entry: e,
                periods: periods->0,
                agent: (*parsed.ua_family)@,
                hidden: parsed.hidden,
                new_visit: starts_visit(processor.visits(), key, periods->0.ts as i64),
                country: code_of(processor.geo.database(), e),
            };
            law_counters_have_room(processor.config, self.acc@, any, self.counted, self.bytes);
            lemma_bounded_still(
                self.acc@,
                self.counted,
                self.bytes,
                (self.counted + 1) as u64,
                (self.bytes + bytes) as u64,
            );
        }
        processor.aggregate_entry(parsed, &mut self.acc);
        self.counted = self.counted + 1;
        self.bytes = self.bytes + bytes;
        true
    }

    /// Keeps of the finished month's tables only what can be shown.
    pub fn trim(&mut self, top_n: usize)
        requires
            old(self).wf(),
        ensures
            final(self).wf(),
            is_trimmed(old(self).acc@, final(self).acc@, top_n as nat),
            final(self).pending == old(self).pending,
            final(self).retired == old(self).retired,
            final(self).active == old(self).active,
            final(self).total == old(self).total,
            final(self).counted == old(self).counted,
            final(self).bytes == old(self).bytes,
    {
        pretrim_for_month_end(&mut self.acc, top_n);
    }

    /// Turns to a new month; `None`, with nothing changed, where the name of a month cannot be cut
    /// after its year.
    pub fn next_month(&mut self, new_month: String) -> (r: Option<MonthEnd>)
        requires
            old(self).wf(),
        ensures
            final(self).wf(),
            ({
                let old_month = old(self).acc@.current_month;
                if year_cut_ok(encode_utf8(old_month)) && year_cut_ok(encode_utf8(new_month@)) {
                    &&& r is Some
                    &&& is_month_end(r->0, old_month, new_month@)
                    &&& final(self).acc@ == empty_totals(new_month@)
                } else {
                    &&& r is None
                    &&& *final(self) == *old(self)
                }
            }),
            final(self).pending == old(self).pending,
            final(self).retired == old(self).retired,
            final(self).active == old(self).active,
            final(self).total == old(self).total,
            final(self).counted == old(self).counted,
            final(self).bytes == old(self).bytes,
    {
        if !can_cut_year(self.acc.current_month.as_str()) || !can_cut_year(new_month.as_str()) {
            return None;
        }
        Some(advance_month(&mut self.acc, new_month))
    }
}

/// Nothing is lost at the end of a month: the file that is being read is stored up to the start of
/// the entry of the new month, and a run that resumes from that state reads on at this very entry.
pub proof fn law_month_boundary_resumes_at_entry(
    run: PipelineRun,
    entry_offset: u64,
    stored: ParseState,
    stat_size: u64,
)
    requires
        run.active is Some,
        stored@ == boundary_states(run, entry_offset).last(),
        entry_offset <= stat_size,
    ensures
        !stored.completed,
        point_of(FileRelation::PlainExtended, Some(&stored), stat_size, false)
            == ResumePoint::PlainOffset(entry_offset),
        point_of(FileRelation::CompressedExtended, Some(&stored), stat_size, true)
            == ResumePoint::DecodedOffset(entry_offset),
{
}

/// A file that a run decided to read and read up to an offset.
pub struct FileRead {
    pub ctx: FileContext,
    /// Its bytes when the run decided about it.
    pub raw: Seq<u8>,
    pub fps: Fingerprints,
    pub decision: OutcomeView,
    pub plan: FileResumePlan,
    pub end: u64,
    /// The place of its state among the pending ones.
    pub at: int,
}

impl FileRead {
    /// The file was read to its end and its state is pending; no later one is of its path. A file
    /// that has a size was not empty.
    pub open spec fn was_finished(self, before: ParseStates, pending: Seq<StateView>) -> bool {
        &&& fingerprints_of(self.ctx, self.raw) == Ok::<Fingerprints, DecodeError>(self.fps)
        &&& self.raw.len() == 0 ==> self.ctx.facts.stat_size == 0
        &&& is_decided(self.ctx, before, self.fps, self.decision)
        &&& self.decision.plan == Some(self.plan)
        &&& self.plan.compression == CompressionType::Plain ==> self.end >= self.plan.stat_size
        &&& 0 <= self.at < pending.len()
        &&& pending[self.at] == file_state_of(self.ctx.filepath@, self.plan, self.end, true)
        &&& forall|j: int|
            self.at < j < pending.len() ==> (#[trigger] pending[j]).filepath
                != pending[self.at].filepath
    }

    /// A later run finds the file as it was, with what is stored under its path.
    pub open spec fn is_found_again(self, states: ParseStates, later: FileContext) -> bool {
        &&& later.filepath@ == self.ctx.filepath@
        &&& later.facts == self.ctx.facts
        &&& is_path_answer(states, later.filepath@, later.by_path)
    }
}

/// A file counts once. A file that a run decided to read, read to its end and stored is left alone by
/// the next run, as long as its size, inode and modification time stay as they were.
pub proof fn law_read_file_is_not_read_again(
    f: FileRead,
    before: ParseStates,
    retired: Seq<StateView>,
    pending: Seq<StateView>,
    after: ParseStates,
    later: FileContext,
)
    requires
        f.was_finished(before, pending),
        after@ == all_stored(all_retired(before@, retired), pending),
        f.is_found_again(after, later),
    ensures
        step_of(later, Known::Facts) matches StepView::Done(o) && o.plan is None && o.skipped is None,
{
    law_flush_keeps_pending(before@, retired, pending, f.at);
}

/// A second run over files that stayed as they were has no work: it decides about each of them
/// without reading it, plans none of them, and stores nothing of them.
pub proof fn law_second_run_has_no_work(
    files: Seq<FileRead>,
    before: ParseStates,
    retired: Seq<StateView>,
    pending: Seq<StateView>,
    after: ParseStates,
    later: Seq<FileContext>,
    outcomes: Seq<OutcomeView>,
)
    requires
        later.len() == files.len(),
        outcomes.len() == files.len(),
        forall|i: int|
            0 <= i < files.len() ==> (#[trigger] files[i]).was_finished(before, pending)
                && files[i].is_found_again(after, later[i]),
        after@ == all_stored(all_retired(before@, retired), pending),
        forall|i: int|
            0 <= i < files.len() ==> (cheap_outcome(#[trigger] later[i]) matches Some(o)
                ==> outcomes[i] == o),
    ensures
        forall|i: int|
            0 <= i < files.len() ==> cheap_outcome(#[trigger] later[i]) == Some(outcomes[i]),
        planned(outcomes).work.len() == 0,
        planned(outcomes).pending.len() == 0,
        planned(outcomes).files_done == files.len(),
{
    assert forall|i: int| 0 <= i < files.len() implies cheap_outcome(#[trigger] later[i]) == Some(
        outcomes[i],
    ) && outcomes[i].plan is None && outcomes[i].skipped is None by {
        law_read_file_is_not_read_again(files[i], before, retired, pending, after, later[i]);
    }
    assert forall|i: int| 0 <= i < outcomes.len() implies (#[trigger] outcomes[i]).plan is None
        && outcomes[i].skipped is None by {
        assert(cheap_outcome(later[i]) == Some(outcomes[i]));
    }
    lemma_nothing_planned(outcomes);
}

proof fn lemma_nothing_planned(outcomes: Seq<OutcomeView>)
    requires
        forall|i: int|
            0 <= i < outcomes.len() ==> (#[trigger] outcomes[i]).plan is None
                && outcomes[i].skipped is None,
    ensures
        planned(outcomes).work.len() == 0,
        planned(outcomes).pending.len() == 0,
        planned(outcomes).files_done == outcomes.len(),
    decreases outcomes.len(),
{
    if outcomes.len() > 0 {
        let rest = outcomes.drop_last();
        assert forall|i: int| 0 <= i < rest.len() implies (#[trigger] rest[i]).plan is None
            && rest[i].skipped is None by {
            assert(rest[i] == outcomes[i]);
        }
        lemma_nothing_planned(rest);
        assert(outcomes[outcomes.len() - 1] == outcomes.last());
    }
}

/// No entry is read twice, and none is left out. A file that was read up to an offset and stored, and
/// that has grown since then or was not finished, is read on from that offset by the next run.
pub proof fn law_next_run_reads_on(
    first: FileContext,
    raw: Seq<u8>,
    fps: Fingerprints,
    decision: OutcomeView,
    plan: FileResumePlan,
    end: u64,
    completed: bool,
    before: ParseStates,
    retired: Seq<StateView>,
    pending: Seq<StateView>,
    i: int,
    after: ParseStates,
    later: FileContext,
    later_raw: Seq<u8>,
    later_fps: Fingerprints,
    later_decision: OutcomeView,
)
    requires
        fingerprints_of(first, raw) == Ok::<Fingerprints, DecodeError>(fps),
        raw.len() > 0,
        is_decided(first, before, fps, decision),
        decision.plan == Some(plan),
        plan.stat_size > 0,
        0 <= i < pending.len(),
        pending[i] == file_state_of(first.filepath@, plan, end, completed),
        forall|j: int|
            i < j < pending.len() ==> (#[trigger] pending[j]).filepath != pending[i].filepath,
        after@ == all_stored(all_retired(before@, retired), pending),
        later.filepath@ == first.filepath@,
        later.facts.inode == first.facts.inode,
        later.facts.compression == first.facts.compression,
        ({
            ||| later.facts.stat_size > first.facts.stat_size
            ||| later.facts.stat_size == first.facts.stat_size && !completed && end > 0
        }),
        is_path_answer(after, later.filepath@, later.by_path),
        is_inode_answer(after, later.facts.inode, later.by_inode),
        fingerprints_of(later, later_raw) == Ok::<Fingerprints, DecodeError>(later_fps),
        is_decided(later, after, later_fps, later_decision),
    ensures
        ({
            let p = later_decision.plan->0;
            &&& later_decision.plan is Some
            &&& p.compression == CompressionType::Plain ==> p.offset == clamped(
                end,
                later.facts.stat_size,
            ) && p.skip_decoded_prefix_bytes == 0
            &&& p.compression != CompressionType::Plain ==> p.offset == 0
                && p.skip_decoded_prefix_bytes == end
        }),
{
    law_flush_keeps_pending(before@, retired, pending, i);
    let at = path_at(after@.active, later.filepath@);
    assert(after.active@[at]@ == after@.active[at].state);
    assert(later.by_inode is Some);
}

} // verus!
