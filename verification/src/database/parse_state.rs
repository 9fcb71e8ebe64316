//! The stored states of log files: those in use and those that were retired.

use vstd::prelude::*;

use super::{ParseState, ParseStateUpdate, StateView};
use crate::aggregator::resume::views;
use crate::text::str_eq;

verus! {

/// A stored state by its values.
pub struct StoredView {
    pub state: StateView,
    pub skip_before_ts: Option<i64>,
}

/// A stored state by its values.
pub open spec fn stored(s: ParseState) -> StoredView {
    StoredView { state: s@, skip_before_ts: s.skip_before_ts }
}

/// Stored states by their values.
pub open spec fn stored_all(rows: Seq<ParseState>) -> Seq<StoredView> {
    Seq::new(rows.len(), |i: int| stored(rows[i]))
}

/// By what a stored state is looked for.
#[derive(Debug, Clone, Copy, PartialEq, Eq, Structural)]
pub enum StateKey {
    Inode(u64),
    UncompressedHead(u64),
    CompressedHead(u64),
}

impl StateKey {
    /// A state is one that is looked for.
    pub open spec fn matches(self, s: StateView) -> bool {
        match self {
            StateKey::Inode(n) => s.inode == n,
            StateKey::UncompressedHead(h) => s.uncompressed_head_fingerprint == Some(h),
            StateKey::CompressedHead(h) => s.compressed_head_fingerprint == Some(h),
        }
    }

    /// How far a state got, in the terms of the key.
    pub open spec fn offset(self, s: StateView) -> u64 {
        match self {
            StateKey::CompressedHead(_) => s.compressed_offset,
            _ => s.uncompressed_offset,
        }
    }

    /// A completed state comes before one that is not; among these one that got further.
    pub open spec fn at_least(self, a: StateView, b: StateView) -> bool {
        if a.completed == b.completed {
            self.offset(a) >= self.offset(b)
        } else {
            a.completed
        }
    }

    fn test(self, s: &ParseState) -> (r: bool)
        ensures
            r == self.matches(s@),
    {
        match self {
            StateKey::Inode(n) => s.inode == n,
            StateKey::UncompressedHead(h) => match s.uncompressed_head_fingerprint {
                Some(f) => f == h,
                None => false,
            },
            StateKey::CompressedHead(h) => match s.compressed_head_fingerprint {
                Some(f) => f == h,
                None => false,
            },
        }
    }

    fn better(self, a: &ParseState, b: &ParseState) -> (r: bool)
        ensures
            r == !self.at_least(b@, a@),
    {
        if a.completed == b.completed {
            match self {
                StateKey::CompressedHead(_) => a.compressed_offset > b.compressed_offset,
                _ => a.uncompressed_offset > b.uncompressed_offset,
            }
        } else {
            a.completed
        }
    }
}

/// `r` is the best of the states that are looked for; `None` where there is none.
pub open spec fn is_best_match(
    rows: Seq<ParseState>,
    key: StateKey,
    r: Option<&ParseState>,
) -> bool {
    match r {
        Some(s) => {
            &&& exists|i: int| 0 <= i < rows.len() && #[trigger] rows[i] == *s
            &&& key.matches(s@)
            &&& forall|i: int|
                0 <= i < rows.len() && key.matches((#[trigger] rows[i])@) ==> key.at_least(
                    s@,
                    rows[i]@,
                )
        },
        None => forall|i: int| 0 <= i < rows.len() ==> !key.matches((#[trigger] rows[i])@),
    }
}

fn best_in(rows: &Vec<ParseState>, key: StateKey) -> (r: Option<&ParseState>)
    ensures
        is_best_match(rows@, key, r),
{
    let mut best: Option<usize> = None;
    let mut i: usize = 0;
    while i < rows.len()
        invariant
            0 <= i <= rows@.len(),
            match best {
                Some(b) => b < i && key.matches(rows@[b as int]@) && forall|j: int|
                    0 <= j < i && key.matches((#[trigger] rows@[j])@) ==> key.at_least(
                        rows@[b as int]@,
                        rows@[j]@,
                    ),
                None => forall|j: int| 0 <= j < i ==> !key.matches((#[trigger] rows@[j])@),
            },
        decreases rows@.len() - i,
    {
        if key.test(&rows[i]) {
            match best {
                Some(b) => {
                    if key.better(&rows[i], &rows[b]) {
                        best = Some(i);
                    }
                },
                None => {
                    best = Some(i);
                },
            }
        }
        i += 1;
    }
    match best {
        Some(b) => Some(&rows[b]),
        None => None,
    }
}

/// The stored states of all log files.
pub struct ParseStates {
    /// One state per path.
    pub active: Vec<ParseState>,
    /// One state per path and inode.
    pub archive: Vec<ParseState>,
}

/// A completed state of uncompressed contents with this head and size.
pub open spec fn is_completed_contents(s: StateView, head: u64, size: u64) -> bool {
    s.completed && s.uncompressed_head_fingerprint == Some(head) && s.uncompressed_size == size
}

/// A completed state of a compressed file with this head and size.
pub open spec fn is_completed_file(s: StateView, head: u64, size: u64) -> bool {
    s.completed && s.compressed_head_fingerprint == Some(head) && s.compressed_size == size
}

/// What is stored when an update meets an earlier state: the update, but for times that it lacks.
pub open spec fn merged(earlier: Option<StoredView>, u: StateView) -> StoredView {
    StoredView {
        state: match earlier {
            Some(e) => StateView {
                earliest_ts: if u.earliest_ts is Some {
                    u.earliest_ts
                } else {
                    e.state.earliest_ts
                },
                latest_ts: if u.latest_ts is Some {
                    u.latest_ts
                } else {
                    e.state.latest_ts
                },
                ..u
            },
            None => u,
        },
        skip_before_ts: None,
    }
}

/// Stores an update over an earlier state.
pub fn merge_state(earlier: Option<&ParseState>, u: &ParseStateUpdate) -> (r: ParseState)
    ensures
        stored(r) == merged(
            match earlier {
                Some(e) => Some(stored(*e)),
                None => None,
            },
            u@,
        ),
{
    let earliest_ts = match (u.earliest_ts, earlier) {
        (Some(t), _) => Some(t),
        (None, Some(e)) => e.earliest_ts,
        (None, None) => None,
    };
    let latest_ts = match (u.latest_ts, earlier) {
        (Some(t), _) => Some(t),
        (None, Some(e)) => e.latest_ts,
        (None, None) => None,
    };
    ParseState {
        filepath: u.filepath.clone(),
        inode: u.inode,
        compressed_size: u.compressed_size,
        uncompressed_size: u.uncompressed_size,
        compressed_head_fingerprint: u.compressed_head_fingerprint,
        uncompressed_head_fingerprint: u.uncompressed_head_fingerprint,
        compressed_offset: u.compressed_offset,
        uncompressed_offset: u.uncompressed_offset,
        mtime_ns: u.mtime_ns,
        completed: u.completed,
        earliest_ts,
        latest_ts,
        skip_before_ts: None,
    }
}

/// The place of the state of a path; past the end where there is none.
pub open spec fn path_at(rows: Seq<StoredView>, path: Seq<char>) -> int
    decreases rows.len(),
{
    if rows.len() == 0 {
        0
    } else if rows[0].state.filepath == path {
        0
    } else {
        1 + path_at(rows.drop_first(), path)
    }
}

/// The place of the state of a path and inode; past the end where there is none.
pub open spec fn file_at(rows: Seq<StoredView>, path: Seq<char>, inode: u64) -> int
    decreases rows.len(),
{
    if rows.len() == 0 {
        0
    } else if rows[0].state.filepath == path && rows[0].state.inode == inode {
        0
    } else {
        1 + file_at(rows.drop_first(), path, inode)
    }
}

proof fn lemma_path_at(rows: Seq<StoredView>, path: Seq<char>, n: int)
    requires
        0 <= n <= rows.len(),
        forall|i: int| 0 <= i < n ==> (#[trigger] rows[i]).state.filepath != path,
        n < rows.len() ==> rows[n].state.filepath == path,
    ensures
        path_at(rows, path) == n,
    decreases n,
{
    if n > 0 {
        let rest = rows.drop_first();
        assert forall|i: int| 0 <= i < n - 1 implies (#[trigger] rest[i]).state.filepath != path by {
            assert(rest[i] == rows[i + 1]);
        }
        lemma_path_at(rest, path, n - 1);
    }
}

proof fn lemma_file_at(rows: Seq<StoredView>, path: Seq<char>, inode: u64, n: int)
    requires
        0 <= n <= rows.len(),
        forall|i: int|
            0 <= i < n ==> !((#[trigger] rows[i]).state.filepath == path && rows[i].state.inode
                == inode),
        n < rows.len() ==> rows[n].state.filepath == path && rows[n].state.inode == inode,
    ensures
        file_at(rows, path, inode) == n,
    decreases n,
{
    if n > 0 {
        let rest = rows.drop_first();
        assert forall|i: int| 0 <= i < n - 1 implies !((#[trigger] rest[i]).state.filepath == path
            && rest[i].state.inode == inode) by {
            assert(rest[i] == rows[i + 1]);
        }
        lemma_file_at(rest, path, inode, n - 1);
    }
}

fn find_path(rows: &Vec<ParseState>, path: &str) -> (r: usize)
    ensures
        r == path_at(stored_all(rows@), path@),
        r <= rows@.len(),
        r < rows@.len() ==> rows@[r as int].filepath@ == path@,
        r == rows@.len() ==> forall|i: int|
            0 <= i < rows@.len() ==> (#[trigger] rows@[i]).filepath@ != path@,
{
    let ghost view = stored_all(rows@);
    let mut i: usize = 0;
    while i < rows.len()
        invariant
            0 <= i <= rows@.len(),
            view == stored_all(rows@),
            forall|j: int| 0 <= j < i ==> (#[trigger] rows@[j]).filepath@ != path@,
        decreases rows@.len() - i,
    {
        if str_eq(rows[i].filepath.as_str(), path) {
            proof {
                assert forall|j: int| 0 <= j < i implies (#[trigger] view[j]).state.filepath
                    != path@ by {
                    assert(rows@[j].filepath@ != path@);
                }
                lemma_path_at(view, path@, i as int);
            }
            return i;
        }
        i += 1;
    }
    proof {
        assert forall|j: int| 0 <= j < i implies (#[trigger] view[j]).state.filepath != path@ by {
            assert(rows@[j].filepath@ != path@);
        }
        lemma_path_at(view, path@, i as int);
    }
    i
}

fn find_file(rows: &Vec<ParseState>, path: &str, inode: u64) -> (r: usize)
    ensures
        r == file_at(stored_all(rows@), path@, inode),
        r <= rows@.len(),
{
    let ghost view = stored_all(rows@);
    let mut i: usize = 0;
    while i < rows.len()
        invariant
            0 <= i <= rows@.len(),
            view == stored_all(rows@),
            forall|j: int|
                0 <= j < i ==> !((#[trigger] view[j]).state.filepath == path@ && view[j].state.inode
                    == inode),
        decreases rows@.len() - i,
    {
        if rows[i].inode == inode && str_eq(rows[i].filepath.as_str(), path) {
            proof {
                lemma_file_at(view, path@, inode, i as int);
            }
            return i;
        }
        i += 1;
    }
    proof {
        lemma_file_at(view, path@, inode, i as int);
    }
    i
}

/// Rows after an update was stored at place `at`; at the end where `at` is past it.
pub open spec fn put_at(rows: Seq<StoredView>, at: int, u: StateView) -> Seq<StoredView> {
    if at < rows.len() {
        rows.update(at, merged(Some(rows[at]), u))
    } else {
        rows.push(merged(None, u))
    }
}

fn put(rows: &mut Vec<ParseState>, at: usize, u: &ParseStateUpdate)
    requires
        at <= old(rows)@.len(),
    ensures
        stored_all(final(rows)@) == put_at(stored_all(old(rows)@), at as int, u@),
{
    if at < rows.len() {
        let row = merge_state(Some(&rows[at]), u);
        rows.set(at, row);
    } else {
        rows.push(merge_state(None, u));
    }
    assert(stored_all(rows@) =~= put_at(stored_all(old(rows)@), at as int, u@));
}

impl ParseStates {
    /// The state of a path.
    pub fn get_parse_state(&self, filepath: &str) -> (r: Option<&ParseState>)
        ensures
            ({
                let at = path_at(stored_all(self.active@), filepath@);
                match r {
                    Some(s) => 0 <= at < self.active@.len() && *s == self.active@[at],
                    None => at == self.active@.len(),
                }
            }),
            match r {
                Some(s) => s@.filepath == filepath@,
                None => forall|i: int|
                    0 <= i < self.active@.len() ==> (#[trigger] self.active@[i])@.filepath
                        != filepath@,
            },
    {
        let i: usize = find_path(&self.active, filepath);
        if i < self.active.len() {
            Some(&self.active[i])
        } else {
            proof {
                assert forall|j: int| 0 <= j < self.active@.len() implies (
                #[trigger] self.active@[j])@.filepath != filepath@ by {
                    assert(self.active@[j].filepath@ != filepath@);
                }
            }
            None
        }
    }

    /// The state of an inode: one in use, or else the best that was retired.
    pub fn get_parse_state_by_inode(&self, inode: u64) -> (r: Option<&ParseState>)
        ensures
            ({
                let key = StateKey::Inode(inode);
                if exists|i: int|
                    0 <= i < self.active@.len() && (#[trigger] self.active@[i])@.inode == inode {
                    is_best_match(self.active@, key, r)
                } else {
                    is_best_match(self.archive@, key, r)
                }
            }),
    {
        let key = StateKey::Inode(inode);
        match best_in(&self.active, key) {
            Some(s) => {
                proof {
                    let i = choose|i: int|
                        0 <= i < self.active@.len() && #[trigger] self.active@[i] == *s;
                    assert(self.active@[i]@.inode == inode);
                }
                Some(s)
            },
            None => best_in(&self.archive, key),
        }
    }

    /// Whether contents with this head and size were read to their end.
    pub fn find_completed_by_uncompressed_identity(
        &self,
        head_fingerprint: u64,
        uncompressed_size: u64,
    ) -> (r: bool)
        ensures
            r == exists|i: int|
                0 <= i < (self.active@ + self.archive@).len() && is_completed_contents(
                    (#[trigger] (self.active@ + self.archive@)[i])@,
                    head_fingerprint,
                    uncompressed_size,
                ),
    {
        let ghost all = self.active@ + self.archive@;
        let mut i: usize = 0;
        while i < self.active.len()
            invariant
                0 <= i <= self.active@.len(),
                all == self.active@ + self.archive@,
                forall|j: int|
                    0 <= j < i ==> !is_completed_contents(
                        (#[trigger] all[j])@,
                        head_fingerprint,
                        uncompressed_size,
                    ),
            decreases self.active@.len() - i,
        {
            assert(all[i as int] == self.active@[i as int]);
            if is_completed_here(&self.active[i], head_fingerprint, uncompressed_size) {
                return true;
            }
            i += 1;
        }
        let mut k: usize = 0;
        while k < self.archive.len()
            invariant
                0 <= k <= self.archive@.len(),
                all == self.active@ + self.archive@,
                forall|j: int|
                    0 <= j < self.active@.len() + k ==> !is_completed_contents(
                        (#[trigger] all[j])@,
                        head_fingerprint,
                        uncompressed_size,
                    ),
            decreases self.archive@.len() - k,
        {
            assert(all[self.active@.len() + k] == self.archive@[k as int]);
            if is_completed_here(&self.archive[k], head_fingerprint, uncompressed_size) {
                return true;
            }
            k += 1;
        }
        false
    }

    /// The uncompressed size of a compressed file with this head and size that was read to its end.
    pub fn find_completed_by_compressed_identity(
        &self,
        head_fingerprint: u64,
        compressed_size: u64,
    ) -> (r: Option<u64>)
        ensures
            match r {
                Some(n) => exists|i: int|
                    0 <= i < (self.active@ + self.archive@).len() && is_completed_file(
                        (#[trigger] (self.active@ + self.archive@)[i])@,
                        head_fingerprint,
                        compressed_size,
                    ) && (self.active@ + self.archive@)[i]@.uncompressed_size == n,
                None => forall|i: int|
                    0 <= i < (self.active@ + self.archive@).len() ==> !is_completed_file(
                        (#[trigger] (self.active@ + self.archive@)[i])@,
                        head_fingerprint,
                        compressed_size,
                    ),
            },
    {
        let ghost all = self.active@ + self.archive@;
        let mut i: usize = 0;
        while i < self.active.len()
            invariant
                0 <= i <= self.active@.len(),
                all == self.active@ + self.archive@,
                forall|j: int|
                    0 <= j < i ==> !is_completed_file(
                        (#[trigger] all[j])@,
                        head_fingerprint,
                        compressed_size,
                    ),
            decreases self.active@.len() - i,
        {
            assert(all[i as int] == self.active@[i as int]);
            if is_completed_file_here(&self.active[i], head_fingerprint, compressed_size) {
                return Some(self.active[i].uncompressed_size);
            }
            i += 1;
        }
        let mut k: usize = 0;
        while k < self.archive.len()
            invariant
                0 <= k <= self.archive@.len(),
                all == self.active@ + self.archive@,
                forall|j: int|
                    0 <= j < self.active@.len() + k ==> !is_completed_file(
                        (#[trigger] all[j])@,
                        head_fingerprint,
                        compressed_size,
                    ),
            decreases self.archive@.len() - k,
        {
            assert(all[self.active@.len() + k] == self.archive@[k as int]);
            if is_completed_file_here(&self.archive[k], head_fingerprint, compressed_size) {
                return Some(self.archive[k].uncompressed_size);
            }
            k += 1;
        }
        None
    }

    fn best(&self, key: StateKey) -> (r: Option<&ParseState>)
        ensures
            is_best_match(self.active@ + self.archive@, key, r),
    {
        let ghost all = self.active@ + self.archive@;
        let ghost n = self.active@.len() as int;
        let a = best_in(&self.active, key);
        let b = best_in(&self.archive, key);
        proof {
            assert forall|i: int| 0 <= i < self.active@.len() implies all[i] == (
            #[trigger] self.active@[i]) by {}
            assert forall|i: int| 0 <= i < self.archive@.len() implies all[n + i] == (
            #[trigger] self.archive@[i]) by {}
            assert forall|i: int| 0 <= i < all.len() implies (#[trigger] all[i]) == if i < n {
                self.active@[i]
            } else {
                self.archive@[i - n]
            } by {}
        }
        match (a, b) {
            (Some(x), Some(y)) => {
                if key.better(y, x) {
                    Some(y)
                } else {
                    Some(x)
                }
            },
            (Some(x), None) => Some(x),
            (None, y) => y,
        }
    }

    /// The best state whose uncompressed contents start with this head.
    pub fn find_parse_state_by_uncompressed_head_fingerprint(&self, head_fingerprint: u64) -> (r:
        Option<&ParseState>)
        ensures
            is_best_match(
                self.active@ + self.archive@,
                StateKey::UncompressedHead(head_fingerprint),
                r,
            ),
    {
        self.best(StateKey::UncompressedHead(head_fingerprint))
    }

    /// The best state whose compressed bytes start with this head.
    pub fn find_parse_state_by_compressed_head_fingerprint(&self, head_fingerprint: u64) -> (r:
        Option<&ParseState>)
        ensures
            is_best_match(
                self.active@ + self.archive@,
                StateKey::CompressedHead(head_fingerprint),
                r,
            ),
    {
        self.best(StateKey::CompressedHead(head_fingerprint))
    }

    /// No path is twice in use, and no path and inode twice in the archive.
    pub open spec fn wf(&self) -> bool {
        self@.wf()
    }

    /// No states.
    pub fn new() -> (r: ParseStates)
        ensures
            r.wf(),
            r@.active == Seq::<StoredView>::empty(),
            r@.archive == Seq::<StoredView>::empty(),
    {
        let r = ParseStates { active: Vec::new(), archive: Vec::new() };
        assert(r@.active =~= Seq::<StoredView>::empty());
        assert(r@.archive =~= Seq::<StoredView>::empty());
        r
    }

    /// Both tables, by their values.
    pub open spec fn view(&self) -> StatesView {
        StatesView { active: stored_all(self.active@), archive: stored_all(self.archive@) }
    }

    /// Puts a state in the place of that of its path, as it is.
    pub fn set_parse_state(&mut self, state: &ParseState)
        ensures
            final(self)@ == (StatesView {
                active: ({
                    let at = path_at(old(self)@.active, state@.filepath);
                    if at < old(self)@.active.len() {
                        old(self)@.active.update(at, stored(*state))
                    } else {
                        old(self)@.active.push(stored(*state))
                    }
                }),
                archive: old(self)@.archive,
            }),
            old(self).wf() ==> final(self).wf(),
    {
        proof {
            lemma_path_found(self@.active, state@.filepath);
        }
        let at: usize = find_path(&self.active, state.filepath.as_str());
        if at < self.active.len() {
            self.active.set(at, state.clone());
            assert(stored_all(self.active@) =~= stored_all(old(self).active@).update(
                at as int,
                stored(*state),
            ));
        } else {
            self.active.push(state.clone());
            assert(stored_all(self.active@) =~= stored_all(old(self).active@).push(stored(*state)));
        }
    }

    /// Stores what is known of a file now.
    pub fn store(&mut self, u: &ParseStateUpdate)
        ensures
            final(self)@ == stored_in(old(self)@, u@),
            old(self).wf() ==> final(self).wf(),
    {
        proof {
            if self.wf() {
                lemma_stored_wf(self@, u@);
            }
        }
        let at: usize = find_path(&self.active, u.filepath.as_str());
        put(&mut self.active, at, u);
    }

    /// Retires a file: its state goes to the archive, and the state in use under its path is
    /// dropped where it is of the same inode.
    pub fn retire(&mut self, u: &ParseStateUpdate)
        ensures
            final(self)@ == retired_in(old(self)@, u@),
            old(self).wf() ==> final(self).wf(),
    {
        proof {
            if self.wf() {
                lemma_retired_wf(self@, u@);
            }
        }
        let at: usize = find_file(&self.archive, u.filepath.as_str(), u.inode);
        put(&mut self.archive, at, u);
        let gone: usize = find_file(&self.active, u.filepath.as_str(), u.inode);
        if gone < self.active.len() {
            self.active.remove(gone);
            assert(stored_all(self.active@) =~= stored_all(old(self).active@).remove(gone as int));
        }
    }

    /// Retires files, and then stores what is known of files now.
    pub fn flush(&mut self, retired: &Vec<ParseStateUpdate>, pending: &Vec<ParseStateUpdate>)
        ensures
            final(self)@ == all_stored(
                all_retired(old(self)@, views(retired@)),
                views(pending@),
            ),
            old(self).wf() ==> final(self).wf(),
    {
        let ghost start = self@;
        proof {
            if self.wf() {
                lemma_flushed_wf(self@, views(retired@), views(pending@));
            }
        }
        let ghost r = views(retired@);
        let ghost p = views(pending@);
        assert(r.take(0) =~= Seq::<StateView>::empty());
        let mut i: usize = 0;
        while i < retired.len()
            invariant
                0 <= i <= retired@.len(),
                r == views(retired@),
                self@ == all_retired(start, r.take(i as int)),
            decreases retired@.len() - i,
        {
            self.retire(&retired[i]);
            proof {
                assert(r.take(i + 1).drop_last() =~= r.take(i as int));
                assert(r.take(i + 1).last() == retired@[i as int]@);
            }
            i += 1;
        }
        assert(r.take(i as int) =~= r);
        assert(p.take(0) =~= Seq::<StateView>::empty());
        let mut k: usize = 0;
        while k < pending.len()
            invariant
                0 <= k <= pending@.len(),
                p == views(pending@),
                self@ == all_stored(all_retired(start, r), p.take(k as int)),
            decreases pending@.len() - k,
        {
            self.store(&pending[k]);
            proof {
                assert(p.take(k + 1).drop_last() =~= p.take(k as int));
                assert(p.take(k + 1).last() == pending@[k as int]@);
            }
            k += 1;
        }
        assert(p.take(k as int) =~= p);
    }
}

/// The states in use and the archive, by their values.
pub struct StatesView {
    pub active: Seq<StoredView>,
    pub archive: Seq<StoredView>,
}

/// The rows are of different paths.
pub open spec fn paths_differ(rows: Seq<StoredView>) -> bool {
    forall|i: int, j: int|
        0 <= i < j < rows.len() ==> (#[trigger] rows[i]).state.filepath != (
        #[trigger] rows[j]).state.filepath
}

/// The rows are of different paths or inodes.
pub open spec fn files_differ(rows: Seq<StoredView>) -> bool {
    forall|i: int, j: int|
        0 <= i < j < rows.len() ==> (#[trigger] rows[i]).state.filepath != (
        #[trigger] rows[j]).state.filepath || rows[i].state.inode != rows[j].state.inode
}

impl StatesView {
    /// One state in use per path, and one in the archive per path and inode.
    pub open spec fn wf(self) -> bool {
        paths_differ(self.active) && files_differ(self.archive)
    }
}

proof fn lemma_stored_wf(s: StatesView, u: StateView)
    requires
        s.wf(),
    ensures
        stored_in(s, u).wf(),
{
    lemma_path_found(s.active, u.filepath);
}

proof fn lemma_retired_wf(s: StatesView, u: StateView)
    requires
        s.wf(),
    ensures
        retired_in(s, u).wf(),
{
    lemma_file_found(s.archive, u.filepath, u.inode);
    lemma_file_found(s.active, u.filepath, u.inode);
}

proof fn lemma_flushed_wf(s: StatesView, retired: Seq<StateView>, pending: Seq<StateView>)
    requires
        s.wf(),
    ensures
        all_stored(all_retired(s, retired), pending).wf(),
    decreases retired.len() + pending.len(),
{
    if pending.len() > 0 {
        lemma_flushed_wf(s, retired, pending.drop_last());
        lemma_stored_wf(all_stored(all_retired(s, retired), pending.drop_last()), pending.last());
    } else if retired.len() > 0 {
        lemma_flushed_wf(s, retired.drop_last(), pending);
        lemma_retired_wf(all_retired(s, retired.drop_last()), retired.last());
    }
}

/// The states once one was stored: in the place of its path, or as a new one.
pub open spec fn stored_in(s: StatesView, u: StateView) -> StatesView {
    StatesView { active: put_at(s.active, path_at(s.active, u.filepath), u), archive: s.archive }
}

/// The states once one was retired.
pub open spec fn retired_in(s: StatesView, u: StateView) -> StatesView {
    let at = file_at(s.active, u.filepath, u.inode);
    StatesView {
        active: if at < s.active.len() {
            s.active.remove(at)
        } else {
            s.active
        },
        archive: put_at(s.archive, file_at(s.archive, u.filepath, u.inode), u),
    }
}

/// The states once some were stored, in turn.
pub open spec fn all_stored(s: StatesView, us: Seq<StateView>) -> StatesView
    decreases us.len(),
{
    if us.len() == 0 {
        s
    } else {
        stored_in(all_stored(s, us.drop_last()), us.last())
    }
}

/// The states once some were retired, in turn.
pub open spec fn all_retired(s: StatesView, us: Seq<StateView>) -> StatesView
    decreases us.len(),
{
    if us.len() == 0 {
        s
    } else {
        retired_in(all_retired(s, us.drop_last()), us.last())
    }
}

/// What is stored is an update, but for times that the update lacks.
pub open spec fn is_kept(row: StoredView, u: StateView) -> bool {
    &&& row.skip_before_ts is None
    &&& u.earliest_ts is Some ==> row.state.earliest_ts == u.earliest_ts
    &&& u.latest_ts is Some ==> row.state.latest_ts == u.latest_ts
    &&& row.state == StateView {
        earliest_ts: row.state.earliest_ts,
        latest_ts: row.state.latest_ts,
        ..u
    }
}

/// A file that is read on in this run is found where it was left, even if an earlier state of it
/// was retired: after a flush each pending state is found under its path, unless a later one of the
/// same path was stored after it.
pub proof fn law_flush_keeps_pending(
    s: StatesView,
    retired: Seq<StateView>,
    pending: Seq<StateView>,
    i: int,
)
    requires
        0 <= i < pending.len(),
        forall|j: int|
            i < j < pending.len() ==> (#[trigger] pending[j]).filepath != pending[i].filepath,
    ensures
        ({
            let active = all_stored(all_retired(s, retired), pending).active;
            let at = path_at(active, pending[i].filepath);
            &&& at < active.len()
            &&& is_kept(active[at], pending[i])
        }),
    decreases pending.len(),
{
    let rest = pending.drop_last();
    let before = all_stored(all_retired(s, retired), rest).active;
    if i == pending.len() - 1 {
        law_stored_is_found(before, pending[i], pending[i].filepath);
    } else {
        assert forall|j: int| i < j < rest.len() implies (#[trigger] rest[j]).filepath
            != rest[i].filepath by {
            assert(pending[j].filepath != pending[i].filepath);
        }
        law_flush_keeps_pending(s, retired, rest, i);
        assert(pending[pending.len() - 1].filepath != pending[i].filepath);
        law_stored_is_found(before, pending.last(), pending[i].filepath);
    }
}

fn is_completed_here(s: &ParseState, head: u64, size: u64) -> (r: bool)
    ensures
        r == is_completed_contents(s@, head, size),
{
    s.completed && StateKey::UncompressedHead(head).test(s) && s.uncompressed_size == size
}

fn is_completed_file_here(s: &ParseState, head: u64, size: u64) -> (r: bool)
    ensures
        r == is_completed_file(s@, head, size),
{
    s.completed && StateKey::CompressedHead(head).test(s) && s.compressed_size == size
}

/// What was stored of a file is what is found under its path, and storing leaves the states of
/// other paths as they were.
pub proof fn law_stored_is_found(rows: Seq<StoredView>, u: StateView, other: Seq<char>)
    ensures
        ({
            let after = put_at(rows, path_at(rows, u.filepath), u);
            let at = path_at(after, u.filepath);
            &&& at < after.len()
            &&& is_kept(after[at], u)
            &&& other != u.filepath && path_at(rows, other) < rows.len() ==> path_at(after, other)
                < after.len() && after[path_at(after, other)] == rows[path_at(rows, other)]
        }),
{
    lemma_path_found(rows, u.filepath);
    let n = path_at(rows, u.filepath);
    let after = put_at(rows, n, u);
    assert forall|i: int| 0 <= i < n implies (#[trigger] after[i]).state.filepath != u.filepath by {
        assert(rows[i].state.filepath != u.filepath);
    }
    lemma_path_at(after, u.filepath, n);
    if other != u.filepath && path_at(rows, other) < rows.len() {
        lemma_path_found(rows, other);
        let m = path_at(rows, other);
        assert forall|i: int| 0 <= i < m implies (#[trigger] after[i]).state.filepath != other by {
            assert(rows[i].state.filepath != other);
        }
        lemma_path_at(after, other, m);
    }
}

proof fn lemma_path_found(rows: Seq<StoredView>, path: Seq<char>)
    ensures
        0 <= path_at(rows, path) <= rows.len(),
        path_at(rows, path) < rows.len() ==> rows[path_at(rows, path)].state.filepath == path,
        forall|i: int| 0 <= i < path_at(rows, path) ==> (#[trigger] rows[i]).state.filepath != path,
    decreases rows.len(),
{
    if rows.len() > 0 && rows[0].state.filepath != path {
        let rest = rows.drop_first();
        lemma_path_found(rest, path);
        assert forall|i: int| 0 <= i < path_at(rows, path) implies (
        #[trigger] rows[i]).state.filepath != path by {
            if i > 0 {
                assert(rest[i - 1] == rows[i]);
            }
        }
    }
}

proof fn lemma_file_found(rows: Seq<StoredView>, path: Seq<char>, inode: u64)
    ensures
        0 <= file_at(rows, path, inode) <= rows.len(),
        file_at(rows, path, inode) < rows.len() ==> ({
            let found = rows[file_at(rows, path, inode)].state;
            found.filepath == path && found.inode == inode
        }),
        forall|i: int|
            0 <= i < file_at(rows, path, inode) ==> (#[trigger] rows[i]).state.filepath != path
                || rows[i].state.inode != inode,
    decreases rows.len(),
{
    if rows.len() > 0 && !(rows[0].state.filepath == path && rows[0].state.inode == inode) {
        let rest = rows.drop_first();
        lemma_file_found(rest, path, inode);
        assert forall|i: int| 0 <= i < file_at(rows, path, inode) implies (
        #[trigger] rows[i]).state.filepath != path || rows[i].state.inode != inode by {
            if i > 0 {
                assert(rest[i - 1] == rows[i]);
            }
        }
    }
}

} // verus!
