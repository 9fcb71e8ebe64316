//! Files that are read by several workers: who waits for whom, and which file is next.

use std::collections::VecDeque;

use vstd::prelude::*;

use super::is_due;
use super::pipeline::{contains_file, has_file};
use super::resume::{opt_view, views, FileResumePlan, ResolutionOutcome};
use crate::database::{ParseStateUpdate, StateView};

verus! {

// ── Waiting for a checkpoint ────────────────────────────────────────────────

/// Where workers wait while the totals are stored.
#[derive(Debug, Clone, Copy, PartialEq, Eq, Structural)]
pub struct CheckpointGate {
    pub requested: bool,
    pub generation: u64,
    pub active_workers: usize,
    pub paused_workers: usize,
}

/// The number after, back to zero after the largest.
pub open spec fn next_generation(g: u64) -> u64 {
    if g == u64::MAX {
        0
    } else {
        (g + 1) as u64
    }
}

/// A gate at which a worker has looked.
pub open spec fn paused_at(gate: CheckpointGate, seen: u64) -> CheckpointGate {
    if gate.requested && seen != gate.generation && gate.paused_workers < usize::MAX {
        CheckpointGate { paused_workers: (gate.paused_workers + 1) as usize, ..gate }
    } else {
        gate
    }
}

impl CheckpointGate {
    /// A gate for workers, open.
    pub fn new(active_workers: usize) -> (r: CheckpointGate)
        ensures
            r == (CheckpointGate {
                requested: false,
                generation: 0,
                active_workers,
                paused_workers: 0,
            }),
    {
        CheckpointGate { requested: false, generation: 0, active_workers, paused_workers: 0 }
    }

    /// Asks all workers to wait.
    pub fn request_checkpoint(&mut self)
        ensures
            *final(self) == (CheckpointGate {
                requested: true,
                generation: next_generation(old(self).generation),
                paused_workers: 0,
                ..*old(self)
            }),
    {
        self.generation = if self.generation == u64::MAX {
            0
        } else {
            self.generation + 1
        };
        self.requested = true;
        self.paused_workers = 0;
    }

    /// A worker comes by: whether it has to wait. It is counted once per request.
    pub fn pause_if_requested(&mut self, seen_generation: &mut u64) -> (r: bool)
        ensures
            r == old(self).requested,
            *final(self) == paused_at(*old(self), *old(seen_generation)),
            *final(seen_generation) == if old(self).requested {
                old(self).generation
            } else {
                *old(seen_generation)
            },
    {
        if !self.requested {
            return false;
        }
        if *seen_generation != self.generation {
            if self.paused_workers < usize::MAX {
                self.paused_workers = self.paused_workers + 1;
            }
            *seen_generation = self.generation;
        }
        true
    }

    /// Whether all workers wait.
    pub fn all_paused(&self) -> (r: bool)
        ensures
            r == (self.paused_workers >= self.active_workers),
    {
        self.paused_workers >= self.active_workers
    }

    /// Lets all workers go on.
    pub fn resume(&mut self)
        ensures
            *final(self) == (CheckpointGate { requested: false, paused_workers: 0, ..*old(self) }),
    {
        self.requested = false;
        self.paused_workers = 0;
    }

    /// A worker is done for good.
    pub fn worker_exiting(&mut self)
        ensures
            *final(self) == (CheckpointGate {
                active_workers: if old(self).active_workers > 0 {
                    (old(self).active_workers - 1) as usize
                } else {
                    0
                },
                ..*old(self)
            }),
    {
        if self.active_workers > 0 {
            self.active_workers = self.active_workers - 1;
        }
    }
}

/// A gate by which workers came that last saw these generations.
pub open spec fn all_at(gate: CheckpointGate, seen: Seq<u64>) -> CheckpointGate
    decreases seen.len(),
{
    if seen.len() == 0 {
        gate
    } else {
        paused_at(all_at(gate, seen.drop_last()), seen.last())
    }
}

/// Once every worker has come by after a request, all of them wait; a worker that comes by
/// again is not counted again.
pub proof fn law_checkpoint_waits_for_all(gate: CheckpointGate, seen: Seq<u64>)
    requires
        gate.requested,
        gate.paused_workers == 0,
        seen.len() == gate.active_workers,
        forall|i: int| 0 <= i < seen.len() ==> #[trigger] seen[i] != gate.generation,
    ensures
        all_at(gate, seen).paused_workers == gate.active_workers,
        paused_at(all_at(gate, seen), gate.generation) == all_at(gate, seen),
{
    lemma_all_at(gate, seen);
}

proof fn lemma_all_at(gate: CheckpointGate, seen: Seq<u64>)
    requires
        gate.requested,
        gate.paused_workers == 0,
        seen.len() <= usize::MAX,
        forall|i: int| 0 <= i < seen.len() ==> #[trigger] seen[i] != gate.generation,
    ensures
        all_at(gate, seen) == (CheckpointGate { paused_workers: seen.len() as usize, ..gate }),
    decreases seen.len(),
{
    if seen.len() > 0 {
        let rest = seen.drop_last();
        assert forall|i: int| 0 <= i < rest.len() implies #[trigger] rest[i] != gate.generation by {
            assert(rest[i] == seen[i]);
        }
        lemma_all_at(gate, rest);
        assert(seen[seen.len() - 1] != gate.generation);
    }
}

// ── Handing out files ───────────────────────────────────────────────────────

/// Files on their way through the workers. Each file is done, waits in the queue, is with a worker,
/// or was put aside by one.
pub struct Dispatch {
    pub plans: Vec<Option<FileResumePlan>>,
    pub queue: VecDeque<usize>,
    /// Files that a worker has put aside.
    pub paused: Vec<usize>,
    /// Files that are with a worker.
    pub running: Vec<usize>,
    pub completed_files: usize,
    /// Entries so far.
    pub total: u64,
    pub pending: Vec<ParseStateUpdate>,
    pub retired: Vec<ParseStateUpdate>,
    /// Every state that was ever retired in this run.
    pub seen_retired: Vec<ParseStateUpdate>,
}

/// The states of `more` that are not among `seen`, in order, each path and inode once.
pub open spec fn unseen(seen: Seq<StateView>, more: Seq<StateView>) -> Seq<StateView>
    decreases more.len(),
{
    if more.len() == 0 {
        Seq::empty()
    } else {
        let before = unseen(seen, more.drop_last());
        let last = more.last();
        if has_file(seen + before, last.filepath, last.inode) {
            before
        } else {
            before.push(last)
        }
    }
}

/// Files with a plan, each once.
pub open spec fn each_planned(l: Seq<usize>, plans: Seq<Option<FileResumePlan>>) -> bool {
    &&& l.no_duplicates()
    &&& forall|i: int| 0 <= i < l.len() ==> #[trigger] l[i] < plans.len() && plans[l[i] as int] is Some
}

/// No file stands in both lists.
pub open spec fn apart(a: Seq<usize>, b: Seq<usize>) -> bool {
    forall|i: int, j: int|
        0 <= i < a.len() && 0 <= j < b.len() ==> #[trigger] a[i] != #[trigger] b[j]
}

/// Taking one file out of a list leaves the others, and it stands there no more.
proof fn lemma_without(l: Seq<usize>, at: int, plans: Seq<Option<FileResumePlan>>)
    requires
        each_planned(l, plans),
        0 <= at < l.len(),
    ensures
        each_planned(l.remove(at), plans),
        forall|i: int| 0 <= i < l.remove(at).len() ==> #[trigger] l.remove(at)[i] != l[at],
        forall|b: Seq<usize>| #[trigger] apart(l, b) ==> apart(l.remove(at), b),
        forall|b: Seq<usize>| #[trigger] apart(b, l) ==> apart(b, l.remove(at)),
        forall|b: Seq<usize>, i: int|
            #![trigger apart(l, b), b[i]]
            apart(l, b) && 0 <= i < b.len() ==> b[i] != l[at],
        forall|b: Seq<usize>, i: int|
            #![trigger apart(b, l), b[i]]
            apart(b, l) && 0 <= i < b.len() ==> b[i] != l[at],
{
    let r = l.remove(at);
    assert forall|i: int| 0 <= i < r.len() implies #[trigger] r[i] == if i < at {
        l[i]
    } else {
        l[i + 1]
    } by {}
}

/// A worker handed a file back, with the lines that it has read and the states to be stored: the
/// file is done, or put aside, and nothing else has changed.
pub open spec fn is_handed_back(
    before: Dispatch,
    file_idx: usize,
    file_completed: bool,
    lines: int,
    states: Seq<StateView>,
    after: Dispatch,
) -> bool {
    &&& after.running@ == before.running@.remove(before.running@.index_of(file_idx))
    &&& after.total == before.total + lines
    &&& views(after.pending@) == views(before.pending@) + states
    &&& if file_completed {
        after.completed_files == before.completed_files + 1 && after.paused == before.paused
    } else {
        after.completed_files == before.completed_files && after.paused@ == before.paused@.push(
            file_idx,
        )
    }
    &&& after.plans == before.plans
    &&& after.queue == before.queue
    &&& after.retired == before.retired
    &&& after.seen_retired == before.seen_retired
}

/// As many workers as asked for, but at least one and no more than files.
pub open spec fn worker_number(workers: int, files: int) -> int {
    let wanted = if workers == 0 {
        1
    } else {
        workers
    };
    if wanted <= files {
        wanted
    } else {
        files
    }
}

impl Dispatch {
    /// No file is lost, and none is in two places: the files that are not done are in the queue,
    /// with a worker or put aside, each in one place and there once.
    pub open spec fn wf(&self) -> bool {
        &&& each_planned(self.queue@, self.plans@)
        &&& each_planned(self.paused@, self.plans@)
        &&& each_planned(self.running@, self.plans@)
        &&& apart(self.queue@, self.paused@)
        &&& apart(self.queue@, self.running@)
        &&& apart(self.paused@, self.running@)
        &&& self.completed_files + self.queue@.len() + self.paused@.len() + self.running@.len()
            == self.plans@.len()
    }

    /// No files yet.
    pub fn new() -> (r: Dispatch)
        ensures
            r.wf(),
            r.plans@.len() == 0,
            r.completed_files == 0,
            r.running@.len() == 0,
            r.total == 0,
            views(r.pending@) == Seq::<StateView>::empty(),
            views(r.retired@) == Seq::<StateView>::empty(),
            views(r.seen_retired@) == Seq::<StateView>::empty(),
    {
        let r = Dispatch {
            plans: Vec::new(),
            queue: VecDeque::new(),
            paused: Vec::new(),
            running: Vec::new(),
            completed_files: 0,
            total: 0,
            pending: Vec::new(),
            retired: Vec::new(),
            seen_retired: Vec::new(),
        };
        assert(views(r.pending@) =~= Seq::<StateView>::empty());
        assert(views(r.retired@) =~= Seq::<StateView>::empty());
        assert(views(r.seen_retired@) =~= Seq::<StateView>::empty());
        r
    }

    /// Takes in states to be retired that were not taken in before.
    fn add_retired(&mut self, more: Vec<ParseStateUpdate>)
        requires
            old(self).wf(),
        ensures
            final(self).wf(),
            views(final(self).retired@) == views(old(self).retired@) + unseen(
                views(old(self).seen_retired@),
                views(more@),
            ),
            views(final(self).seen_retired@) == views(old(self).seen_retired@) + unseen(
                views(old(self).seen_retired@),
                views(more@),
            ),
            final(self).plans == old(self).plans,
            final(self).queue == old(self).queue,
            final(self).paused == old(self).paused,
            final(self).running == old(self).running,
            final(self).completed_files == old(self).completed_files,
            final(self).total == old(self).total,
            final(self).pending == old(self).pending,
    {
        let ghost all = views(more@);
        let ghost seen = views(self.seen_retired@);
        let ghost retired = views(self.retired@);
        assert(all.take(0) =~= Seq::<StateView>::empty());
        assert(seen + unseen(seen, all.take(0)) =~= seen);
        assert(retired + unseen(seen, all.take(0)) =~= retired);
        let mut i: usize = 0;
        while i < more.len()
            invariant
                0 <= i <= more@.len(),
                all == views(more@),
                seen == views(old(self).seen_retired@),
                retired == views(old(self).retired@),
                views(self.seen_retired@) == seen + unseen(seen, all.take(i as int)),
                views(self.retired@) == retired + unseen(seen, all.take(i as int)),
                self.plans == old(self).plans,
                self.queue == old(self).queue,
                self.paused == old(self).paused,
                self.running == old(self).running,
                self.completed_files == old(self).completed_files,
                self.total == old(self).total,
                self.pending == old(self).pending,
            decreases more@.len() - i,
        {
            let state = &more[i];
            let ghost so_far = unseen(seen, all.take(i as int));
            proof {
                assert(all.take(i + 1).drop_last() =~= all.take(i as int));
                assert(all.take(i + 1).last() == state@);
            }
            if !contains_file(&self.seen_retired, state.filepath.as_str(), state.inode) {
                let ghost a = self.seen_retired@;
                let ghost b = self.retired@;
                self.seen_retired.push(state.clone());
                self.retired.push(state.clone());
                proof {
                    assert(views(self.seen_retired@) =~= views(a).push(state@));
                    assert(views(self.retired@) =~= views(b).push(state@));
                    assert(seen + so_far.push(state@) =~= (seen + so_far).push(state@));
                    assert(retired + so_far.push(state@) =~= (retired + so_far).push(state@));
                }
            }
            i += 1;
        }
        assert(all.take(i as int) =~= all);
    }

    /// Takes in the next file with what was decided about it.
    pub fn add_file(&mut self, outcome: ResolutionOutcome)
        requires
            old(self).wf(),
            old(self).plans@.len() < usize::MAX,
        ensures
            final(self).wf(),
            final(self).plans@ == old(self).plans@.push(outcome.plan),
            match outcome.plan {
                Some(_) => final(self).queue@ == old(self).queue@.push(
                    old(self).plans@.len() as usize,
                ) && final(self).completed_files == old(self).completed_files,
                None => final(self).queue@ == old(self).queue@ && final(self).completed_files
                    == old(self).completed_files + 1,
            },
            views(final(self).pending@) == match opt_view(outcome.skipped_parse_state) {
                Some(s) => views(old(self).pending@).push(s),
                None => views(old(self).pending@),
            },
            views(final(self).retired@) == views(old(self).retired@) + unseen(
                views(old(self).seen_retired@),
                views(outcome.retired_parse_states@),
            ),
            views(final(self).seen_retired@) == views(old(self).seen_retired@) + unseen(
                views(old(self).seen_retired@),
                views(outcome.retired_parse_states@),
            ),
            final(self).paused == old(self).paused,
            final(self).running == old(self).running,
            final(self).total == old(self).total,
    {
        let idx: usize = self.plans.len();
        if let Some(state) = outcome.skipped_parse_state {
            let ghost before = self.pending@;
            self.pending.push(state);
            assert(views(self.pending@) =~= views(before).push(state@));
        }
        self.add_retired(outcome.retired_parse_states);
        match outcome.plan {
            Some(plan) => {
                self.plans.push(Some(plan));
                self.queue.push_back(idx);
            },
            None => {
                self.plans.push(None);
                self.completed_files = self.completed_files + 1;
            },
        }
    }

    /// How many workers there are: as many as asked for, but at least one and no more than files.
    pub fn worker_count(&self, workers: usize) -> (r: usize)
        ensures
            r == worker_number(workers as int, self.queue@.len() as int),
    {
        let wanted: usize = if workers == 0 {
            1
        } else {
            workers
        };
        if wanted <= self.queue.len() {
            wanted
        } else {
            self.queue.len()
        }
    }

    /// A worker asks for a file: the first of the queue, with its plan.
    pub fn take_file(&mut self) -> (r: Option<(usize, FileResumePlan)>)
        requires
            old(self).wf(),
        ensures
            final(self).wf(),
            match r {
                Some((idx, plan)) => old(self).queue@.len() > 0 && idx == old(self).queue@[0]
                    && old(self).plans@[idx as int] == Some(plan) && final(self).queue@ == old(
                    self,
                ).queue@.skip(1) && final(self).running@ == old(self).running@.push(idx),
                None => old(self).queue@.len() == 0 && *final(self) == *old(self),
            },
            final(self).plans == old(self).plans,
            final(self).paused == old(self).paused,
            final(self).completed_files == old(self).completed_files,
            final(self).total == old(self).total,
            final(self).pending == old(self).pending,
            final(self).retired == old(self).retired,
            final(self).seen_retired == old(self).seen_retired,
    {
        if self.queue.len() == 0 {
            return None;
        }
        let ghost before = self.queue@;
        let taken = self.queue.pop_front();
        let idx: usize = match taken {
            Some(i) => i,
            None => {
                return None;
            },
        };
        proof {
            assert(self.queue@ =~= before.skip(1));
            assert(idx == before[0]);
            lemma_without(before, 0, self.plans@);
            assert(before.remove(0) =~= self.queue@);
        }
        match self.plans[idx] {
            Some(plan) => {
                self.running.push(idx);
                Some((idx, plan))
            },
            None => None,
        }
    }

    /// A worker hands a file back: done, or put aside for a checkpoint.
    pub fn file_back(
        &mut self,
        file_idx: usize,
        file_completed: bool,
        lines: u64,
        states: Vec<ParseStateUpdate>,
    )
        requires
            old(self).wf(),
            old(self).running@.contains(file_idx),
            old(self).total + lines <= u64::MAX,
        ensures
            final(self).wf(),
            is_handed_back(
                *old(self),
                file_idx,
                file_completed,
                lines as int,
                views(states@),
                *final(self),
            ),
    {
        let at: usize = self.place_of(file_idx);
        let ghost before = self.running@;
        let idx: usize = self.running.remove(at);
        proof {
            assert(self.running@ =~= before.remove(at as int));
            lemma_without(before, at as int, self.plans@);
        }
        self.total = self.total + lines;
        let mut more = states;
        let ghost known = self.pending@;
        let ghost all = more@;
        self.pending.append(&mut more);
        assert(views(self.pending@) =~= views(known) + views(all));
        let n: usize = self.plans.len();
        if file_completed {
            self.completed_files = self.completed_files + 1;
        } else {
            self.paused.push(idx);
        }
    }

    /// Where a file stands among those that are with a worker.
    fn place_of(&self, file_idx: usize) -> (r: usize)
        requires
            self.wf(),
            self.running@.contains(file_idx),
        ensures
            r < self.running@.len(),
            self.running@[r as int] == file_idx,
            r == self.running@.index_of(file_idx),
    {
        let n: usize = self.running.len();
        let mut i: usize = 0;
        while self.running[i] != file_idx
            invariant
                i < n == self.running@.len(),
                self.running@.contains(file_idx),
                forall|j: int| 0 <= j < i ==> self.running@[j] != file_idx,
            decreases self.running@.len() - i,
        {
            proof {
                let k = choose|k: int|
                    0 <= k < self.running@.len() && self.running@[k] == file_idx;
                assert(k > i);
            }
            i += 1;
        }
        i
    }

    /// The states were stored at a checkpoint.
    pub fn states_stored(&mut self)
        requires
            old(self).wf(),
        ensures
            final(self).wf(),
            views(final(self).pending@) == Seq::<StateView>::empty(),
            views(final(self).retired@) == Seq::<StateView>::empty(),
            final(self).plans == old(self).plans,
            final(self).queue == old(self).queue,
            final(self).paused == old(self).paused,
            final(self).running == old(self).running,
            final(self).completed_files == old(self).completed_files,
            final(self).total == old(self).total,
            final(self).seen_retired == old(self).seen_retired,
    {
        self.pending = Vec::new();
        self.retired = Vec::new();
        assert(views(self.pending@) =~= Seq::<StateView>::empty());
        assert(views(self.retired@) =~= Seq::<StateView>::empty());
    }

    /// The file that was put aside first, which is to be decided about again.
    pub fn next_paused(&self) -> (r: Option<usize>)
        ensures
            r == if self.paused@.len() > 0 {
                Some(self.paused@[0])
            } else {
                None
            },
    {
        if self.paused.len() > 0 {
            Some(self.paused[0])
        } else {
            None
        }
    }

    /// Decides again about the file that was put aside first: it is queued again, or done.
    pub fn requeue(&mut self, outcome: ResolutionOutcome)
        requires
            old(self).wf(),
            old(self).paused@.len() > 0,
        ensures
            final(self).wf(),
            final(self).paused@ == old(self).paused@.drop_first(),
            ({
                let idx = old(self).paused@[0] as int;
                let again = match outcome.skipped_parse_state {
                    Some(_) => None,
                    None => outcome.plan,
                };
                &&& final(self).plans@ == old(self).plans@.update(idx, again)
                &&& again is Some ==> final(self).queue@ == old(self).queue@.push(idx as usize)
                    && final(self).completed_files == old(self).completed_files
                &&& again is None ==> final(self).queue@ == old(self).queue@
                    && final(self).completed_files == old(self).completed_files + 1
            }),
            views(final(self).pending@) == match opt_view(outcome.skipped_parse_state) {
                Some(s) => views(old(self).pending@).push(s),
                None => views(old(self).pending@),
            },
            views(final(self).retired@) == views(old(self).retired@) + unseen(
                views(old(self).seen_retired@),
                views(outcome.retired_parse_states@),
            ),
            views(final(self).seen_retired@) == views(old(self).seen_retired@) + unseen(
                views(old(self).seen_retired@),
                views(outcome.retired_parse_states@),
            ),
            final(self).running == old(self).running,
            final(self).total == old(self).total,
    {
        let n: usize = self.plans.len();
        let ghost paused = self.paused@;
        let ghost plans = self.plans@;
        let idx: usize = self.paused.remove(0);
        proof {
            assert(self.paused@ =~= paused.drop_first());
            assert(paused.remove(0) =~= self.paused@);
            assert(idx == paused[0]);
            lemma_without(paused, 0, plans);
        }
        match outcome.skipped_parse_state {
            Some(state) => {
                let ghost before = self.pending@;
                self.pending.push(state);
                assert(views(self.pending@) =~= views(before).push(state@));
                self.plans.set(idx, None);
                self.completed_files = self.completed_files + 1;
            },
            None => match outcome.plan {
                Some(plan) => {
                    self.plans.set(idx, Some(plan));
                    self.queue.push_back(idx);
                },
                None => {
                    self.plans.set(idx, None);
                    self.completed_files = self.completed_files + 1;
                },
            },
        }
        assert(self.wf());
        self.add_retired(outcome.retired_parse_states);
    }

    /// Whether all files are done.
    pub fn is_finished(&self) -> (r: bool)
        ensures
            r == (self.completed_files >= self.plans@.len()),
    {
        self.completed_files >= self.plans.len()
    }
}

// ── The one who waits for the workers ───────────────────────────────────────

/// What comes from the workers.
#[derive(Debug)]
pub enum WorkerEvent {
    /// A file, done or put aside.
    Back { file_idx: usize, file_completed: bool, lines: u64, states: Vec<ParseStateUpdate> },
    /// A worker has failed.
    Failed,
    /// Nothing came while it was waited for.
    Nothing,
    /// All workers have gone.
    Gone,
}

/// What is done next.
#[derive(Debug, Clone, Copy, PartialEq, Eq, Structural)]
pub enum Turn {
    /// Wait for what comes.
    Wait,
    /// Wait until every worker waits, and then for what is still on its way.
    Drain,
    /// Store the totals, decide again about the files that were put aside, and let the workers go
    /// on.
    Store,
    /// Stop the run.
    Abort,
    /// Nothing is left to wait for.
    Finish,
}

/// The run of the workers, as the one who waits for them sees it.
pub struct Coordinator {
    pub dispatch: Dispatch,
    pub gate: CheckpointGate,
    /// Whether the workers were asked to wait for a checkpoint.
    pub checkpointing: bool,
    pub checkpoint_every_secs: Option<u64>,
}

/// An event that can come from the workers: a file comes back from a worker that has it, and its
/// lines can be counted.
pub open spec fn can_come(d: Dispatch, event: WorkerEvent) -> bool {
    event matches WorkerEvent::Back { file_idx, lines, .. } ==> d.running@.contains(file_idx)
        && d.total + lines <= u64::MAX
}

/// The files after an event.
pub open spec fn is_after_event(before: Dispatch, event: WorkerEvent, after: Dispatch) -> bool {
    match event {
        WorkerEvent::Back { file_idx, file_completed, lines, states } => is_handed_back(
            before,
            file_idx,
            file_completed,
            lines as int,
            views(states@),
            after,
        ),
        _ => after == before,
    }
}

/// A gate that was closed and opened again, so that no worker waits.
pub open spec fn reopened(gate: CheckpointGate) -> CheckpointGate {
    CheckpointGate {
        requested: false,
        generation: next_generation(gate.generation),
        paused_workers: 0,
        ..gate
    }
}

impl Coordinator {
    pub open spec fn wf(&self) -> bool {
        self.dispatch.wf()
    }

    /// A run over files, with this many workers at most.
    pub fn new(dispatch: Dispatch, workers: usize, checkpoint_every_secs: Option<u64>) -> (r:
        Coordinator)
        requires
            dispatch.wf(),
        ensures
            r.wf(),
            r.dispatch == dispatch,
            !r.checkpointing,
            r.checkpoint_every_secs == checkpoint_every_secs,
            !r.gate.requested,
            r.gate.generation == 0,
            r.gate.paused_workers == 0,
            r.gate.active_workers == worker_number(workers as int, dispatch.queue@.len() as int),
    {
        let n: usize = dispatch.worker_count(workers);
        Coordinator {
            dispatch,
            gate: CheckpointGate::new(n),
            checkpointing: false,
            checkpoint_every_secs,
        }
    }

    /// Asks the workers to wait, where a checkpoint is due: `elapsed_secs` have gone by since the
    /// last one. Gives whether it did.
    pub fn begin_checkpoint(&mut self, elapsed_secs: u64) -> (r: bool)
        ensures
            r == (!old(self).checkpointing && is_due(
                old(self).checkpoint_every_secs,
                elapsed_secs,
            )),
            final(self).checkpointing == (old(self).checkpointing || r),
            final(self).gate == if r {
                CheckpointGate {
                    requested: true,
                    generation: next_generation(old(self).gate.generation),
                    paused_workers: 0,
                    ..old(self).gate
                }
            } else {
                old(self).gate
            },
            final(self).dispatch == old(self).dispatch,
            final(self).checkpoint_every_secs == old(self).checkpoint_every_secs,
    {
        let due = match self.checkpoint_every_secs {
            Some(n) => elapsed_secs >= n,
            None => false,
        };
        if self.checkpointing || !due {
            return false;
        }
        self.checkpointing = true;
        self.gate.request_checkpoint();
        true
    }

    /// Takes in what comes from the workers. One that has failed ends the run, and the others are
    /// let go.
    pub fn take_event(&mut self, event: WorkerEvent) -> (r: Turn)
        requires
            old(self).wf(),
            can_come(old(self).dispatch, event),
        ensures
            final(self).wf(),
            is_after_event(old(self).dispatch, event, final(self).dispatch),
            r == match event {
                WorkerEvent::Failed => Turn::Abort,
                WorkerEvent::Gone => Turn::Finish,
                _ => if old(self).checkpointing {
                    Turn::Drain
                } else if final(self).dispatch.completed_files
                    >= final(self).dispatch.plans@.len() {
                    Turn::Finish
                } else {
                    Turn::Wait
                },
            },
            final(self).gate == if event is Failed {
                reopened(old(self).gate)
            } else {
                old(self).gate
            },
            final(self).checkpointing == old(self).checkpointing,
            final(self).checkpoint_every_secs == old(self).checkpoint_every_secs,
    {
        match event {
            WorkerEvent::Back { file_idx, file_completed, lines, states } => {
                self.dispatch.file_back(file_idx, file_completed, lines, states);
            },
            WorkerEvent::Failed => {
                self.gate.request_checkpoint();
                self.gate.resume();
                return Turn::Abort;
            },
            WorkerEvent::Nothing => {},
            WorkerEvent::Gone => {
                return Turn::Finish;
            },
        }
        if self.checkpointing {
            Turn::Drain
        } else if self.dispatch.is_finished() {
            Turn::Finish
        } else {
            Turn::Wait
        }
    }

    /// Takes in what was still on its way when all workers came to wait. When nothing more comes,
    /// the totals are stored.
    pub fn drain_event(&mut self, event: WorkerEvent) -> (r: Turn)
        requires
            old(self).wf(),
            can_come(old(self).dispatch, event),
        ensures
            final(self).wf(),
            is_after_event(old(self).dispatch, event, final(self).dispatch),
            r == match event {
                WorkerEvent::Back { .. } => Turn::Drain,
                WorkerEvent::Failed => Turn::Abort,
                _ => Turn::Store,
            },
            final(self).gate == if event is Failed {
                CheckpointGate { requested: false, paused_workers: 0, ..old(self).gate }
            } else {
                old(self).gate
            },
            final(self).checkpointing == old(self).checkpointing,
            final(self).checkpoint_every_secs == old(self).checkpoint_every_secs,
    {
        match event {
            WorkerEvent::Back { file_idx, file_completed, lines, states } => {
                self.dispatch.file_back(file_idx, file_completed, lines, states);
                Turn::Drain
            },
            WorkerEvent::Failed => {
                self.gate.resume();
                Turn::Abort
            },
            _ => Turn::Store,
        }
    }

    /// The totals are stored, and every file that was put aside was decided about again: the
    /// workers go on, unless all files are done.
    pub fn end_checkpoint(&mut self) -> (r: Turn)
        requires
            old(self).wf(),
            old(self).dispatch.paused@.len() == 0,
        ensures
            final(self).wf(),
            r == if old(self).dispatch.completed_files >= old(self).dispatch.plans@.len() {
                Turn::Finish
            } else {
                Turn::Wait
            },
            !final(self).checkpointing,
            final(self).gate == (CheckpointGate {
                requested: false,
                paused_workers: 0,
                ..old(self).gate
            }),
            final(self).dispatch == old(self).dispatch,
            final(self).checkpoint_every_secs == old(self).checkpoint_every_secs,
    {
        self.checkpointing = false;
        self.gate.resume();
        if self.dispatch.is_finished() {
            Turn::Finish
        } else {
            Turn::Wait
        }
    }

    /// Lets all workers go at the end of the run.
    pub fn release(&mut self)
        ensures
            final(self).gate == reopened(old(self).gate),
            final(self).dispatch == old(self).dispatch,
            final(self).checkpointing == old(self).checkpointing,
            final(self).checkpoint_every_secs == old(self).checkpoint_every_secs,
    {
        self.gate.request_checkpoint();
        self.gate.resume();
    }
}

/// While a file is left, someone has it: it waits for a worker, is with one, or was put aside. So
/// the run is never over early and never waits for nothing.
pub proof fn law_unfinished_files_are_somewhere(c: Coordinator)
    requires
        c.wf(),
        c.dispatch.completed_files < c.dispatch.plans@.len(),
    ensures
        c.dispatch.queue@.len() + c.dispatch.running@.len() + c.dispatch.paused@.len() > 0,
{
}

/// When all files are done, none waits, none is with a worker and none was put aside.
pub proof fn law_finished_means_nothing_left(d: Dispatch)
    requires
        d.wf(),
        d.completed_files >= d.plans@.len(),
    ensures
        d.completed_files == d.plans@.len(),
        d.queue@.len() == 0,
        d.paused@.len() == 0,
        d.running@.len() == 0,
{
}

} // verus!
