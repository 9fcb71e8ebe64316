//! What is stored of files, what is found of it again, and what is planned for a run.

use vstd::prelude::*;

use super::discovery::{seeded, SeedFile};
use super::pipeline::{file_state_of, has_file, order_boundary, planned, with_retired};
use super::resolve::{is_duplicate_answer, is_inode_answer};
use super::resume::{found_head, DuplicateQuery, FileResumePlan, HeadQuery, OutcomeView};
use crate::compression::CompressionType;
use crate::database::parse_state::{
    file_at, is_best_match, is_completed_contents, is_completed_file, merged, retired_in, stored,
    ParseStates, StateKey, StatesView, StoredView,
};
use crate::database::{ParseState, StateView};

verus! {

/// Of the stored states of an inode, one that was completed is found before one that was not, and
/// among those the one that got furthest into the contents. None is found only where there is none.
pub proof fn law_furthest_state_of_an_inode(
    rows: Seq<ParseState>,
    inode: u64,
    r: Option<&ParseState>,
    i: int,
)
    requires
        is_best_match(rows, StateKey::Inode(inode), r),
        0 <= i < rows.len(),
        rows[i].inode == inode,
    ensures
        r matches Some(s) && s.inode == inode && {
            ||| s.completed && !rows[i].completed
            ||| s.completed == rows[i].completed && s.uncompressed_offset
                >= rows[i].uncompressed_offset
        },
{
    assert(StateKey::Inode(inode).matches(rows[i]@));
}

/// The same holds of the states with a head of the contents, and, by how far they got into the
/// compressed file, of those with a head of a compressed file.
pub proof fn law_furthest_state_of_a_head(
    rows: Seq<ParseState>,
    head: u64,
    r: Option<&ParseState>,
    c: Option<&ParseState>,
    i: int,
)
    requires
        is_best_match(rows, StateKey::UncompressedHead(head), r),
        is_best_match(rows, StateKey::CompressedHead(head), c),
        0 <= i < rows.len(),
    ensures
        rows[i].uncompressed_head_fingerprint == Some(head) ==> (r matches Some(s)
            && s.uncompressed_head_fingerprint == Some(head) && {
            ||| s.completed && !rows[i].completed
            ||| s.completed == rows[i].completed && s.uncompressed_offset
                >= rows[i].uncompressed_offset
        }),
        rows[i].compressed_head_fingerprint == Some(head) ==> (c matches Some(s)
            && s.compressed_head_fingerprint == Some(head) && {
            ||| s.completed && !rows[i].completed
            ||| s.completed == rows[i].completed && s.compressed_offset
                >= rows[i].compressed_offset
        }),
        r is Some ==> r->0.uncompressed_head_fingerprint == Some(head),
        c is Some ==> c->0.compressed_head_fingerprint == Some(head),
{
    if rows[i].uncompressed_head_fingerprint == Some(head) {
        assert(StateKey::UncompressedHead(head).matches(rows[i]@));
    }
    if rows[i].compressed_head_fingerprint == Some(head) {
        assert(StateKey::CompressedHead(head).matches(rows[i]@));
    }
}

/// A state with the head of the compressed file is taken before one with the head of the contents,
/// and none is taken by a head that is not known.
pub proof fn law_compressed_head_counts_first<'a>(
    q: HeadQuery,
    c: Option<&'a ParseState>,
    r: Option<&'a ParseState>,
)
    ensures
        q.compressed is Some && c is Some ==> found_head(q, c, r) == c,
        q.compressed is None && q.uncompressed is Some ==> found_head(q, c, r) == r,
        q.compressed is Some && c is None && q.uncompressed is Some ==> found_head(q, c, r) == r,
        q.compressed is None && q.uncompressed is None ==> found_head(q, c, r) is None,
{
}

/// A new state of a file takes the place of the earlier one in every column. Only the times of its
/// entries stay where the new one has none, and a time before which entries are passed over is gone.
pub proof fn law_new_state_replaces_the_old(old_state: StoredView, new: StateView)
    ensures
        ({
            let r = merged(Some(old_state), new);
            &&& r.skip_before_ts is None
            &&& r.state.filepath == new.filepath
            &&& r.state.inode == new.inode
            &&& r.state.compressed_size == new.compressed_size
            &&& r.state.uncompressed_size == new.uncompressed_size
            &&& r.state.compressed_head_fingerprint == new.compressed_head_fingerprint
            &&& r.state.uncompressed_head_fingerprint == new.uncompressed_head_fingerprint
            &&& r.state.compressed_offset == new.compressed_offset
            &&& r.state.uncompressed_offset == new.uncompressed_offset
            &&& r.state.mtime_ns == new.mtime_ns
            &&& r.state.completed == new.completed
            &&& new.earliest_ts is Some ==> r.state.earliest_ts == new.earliest_ts
            &&& new.earliest_ts is None ==> r.state.earliest_ts == old_state.state.earliest_ts
            &&& new.latest_ts is Some ==> r.state.latest_ts == new.latest_ts
            &&& new.latest_ts is None ==> r.state.latest_ts == old_state.state.latest_ts
        }),
        merged(None, new).state == new,
        merged(None, new).skip_before_ts is None,
{
}

proof fn lemma_file_at(rows: Seq<StoredView>, path: Seq<char>, inode: u64)
    ensures
        0 <= file_at(rows, path, inode) <= rows.len(),
        file_at(rows, path, inode) < rows.len() ==> rows[file_at(
            rows,
            path,
            inode,
        )].state.filepath == path && rows[file_at(rows, path, inode)].state.inode == inode,
        forall|i: int|
            0 <= i < file_at(rows, path, inode) ==> (#[trigger] rows[i]).state.filepath != path
                || rows[i].state.inode != inode,
    decreases rows.len(),
{
    if rows.len() > 0 && !(rows[0].state.filepath == path && rows[0].state.inode == inode) {
        let rest = rows.drop_first();
        lemma_file_at(rest, path, inode);
        assert forall|i: int| 0 <= i < file_at(rows, path, inode) implies (
        #[trigger] rows[i]).state.filepath != path || rows[i].state.inode != inode by {
            if i > 0 {
                assert(rest[i - 1] == rows[i]);
            }
        }
    }
}

/// A state that is retired is no longer in use, and stands in the archive. The other states in use
/// stay: as many as there were, less the retired one where it was among them.
pub proof fn law_retired_state_is_archived(s: StatesView, u: StateView)
    requires
        s.wf(),
    ensures
        ({
            let r = retired_in(s, u);
            &&& forall|i: int|
                0 <= i < r.active.len() ==> (#[trigger] r.active[i]).state.filepath != u.filepath
                    || r.active[i].state.inode != u.inode
            &&& exists|i: int|
                0 <= i < r.archive.len() && (#[trigger] r.archive[i]).state.filepath == u.filepath
                    && r.archive[i].state.inode == u.inode
            &&& forall|i: int|
                0 <= i < s.active.len() && ((#[trigger] s.active[i]).state.filepath != u.filepath
                    || s.active[i].state.inode != u.inode) ==> r.active.contains(s.active[i])
        }),
{
    let r = retired_in(s, u);
    let at = file_at(s.active, u.filepath, u.inode);
    lemma_file_at(s.active, u.filepath, u.inode);
    let to = file_at(s.archive, u.filepath, u.inode);
    lemma_file_at(s.archive, u.filepath, u.inode);
    assert(r.archive[to].state.filepath == u.filepath && r.archive[to].state.inode == u.inode);
    assert forall|i: int| 0 <= i < r.active.len() implies (#[trigger] r.active[i]).state.filepath
        != u.filepath || r.active[i].state.inode != u.inode by {
        if at < s.active.len() {
            if i < at {
                assert(r.active[i] == s.active[i]);
            } else {
                assert(r.active[i] == s.active[i + 1]);
                assert(s.active[at].state.filepath != s.active[i + 1].state.filepath);
            }
        }
    }
    assert forall|i: int|
        0 <= i < s.active.len() && ((#[trigger] s.active[i]).state.filepath != u.filepath
            || s.active[i].state.inode != u.inode) implies r.active.contains(s.active[i]) by {
        if at >= s.active.len() || i < at {
            assert(r.active[i] == s.active[i]);
        } else {
            assert(r.active[i - 1] == s.active[i]);
        }
    }
}

/// What is stored of a file that was read up to an offset tells where to go on, what the file is and
/// whether all of it was read. The sizes and heads of a compressed file are those of the plan; its
/// contents are known as far as they were read.
pub proof fn law_state_tells_how_far(
    path: Seq<char>,
    plan: FileResumePlan,
    offset: u64,
    completed: bool,
)
    ensures
        ({
            let s = file_state_of(path, plan, offset, completed);
            &&& s.filepath == path
            &&& s.inode == plan.current_inode
            &&& s.mtime_ns == plan.mtime_ns
            &&& s.completed == completed
            &&& s.uncompressed_offset == offset
            &&& s.uncompressed_head_fingerprint == plan.uncompressed_head_fingerprint
            &&& plan.compression == CompressionType::Plain ==> {
                &&& s.compressed_size == 0
                &&& s.compressed_offset == 0
                &&& s.compressed_head_fingerprint is None
                &&& plan.uncompressed_size matches Some(n) ==> s.uncompressed_size == n
                &&& plan.uncompressed_size is None ==> s.uncompressed_size == plan.stat_size
            }
            &&& plan.compression != CompressionType::Plain ==> {
                &&& s.compressed_size == plan.stat_size
                &&& s.compressed_head_fingerprint == plan.compressed_head_fingerprint
                &&& s.uncompressed_size == offset
                &&& completed ==> s.compressed_offset == plan.stat_size
                &&& !completed ==> s.compressed_offset == 0
            }
        }),
{
}

/// The files before the boundary are skipped: it is the last file whose first entry is older than
/// the last entry of the earlier runs, or the first file where there is none.
pub proof fn law_boundary_is_the_last_begun_file(first_times: Seq<Option<i64>>, last: i64)
    ensures
        ({
            let b = order_boundary(first_times, last);
            &&& b == 0 || (0 < b < first_times.len() && (first_times[b] matches Some(t) && t < last))
            &&& forall|i: int|
                b < i < first_times.len() ==> ((#[trigger] first_times[i]) matches Some(t) ==> t
                    >= last)
        }),
    decreases first_times.len(),
{
    if first_times.len() > 0 && !(first_times.last() matches Some(t) && t < last) {
        let before = first_times.drop_last();
        law_boundary_is_the_last_begun_file(before, last);
        let b = order_boundary(first_times, last);
        assert forall|i: int| b < i < first_times.len() implies ((#[trigger] first_times[i]) matches
            Some(t) ==> t >= last) by {
            if i < before.len() {
                assert(first_times[i] == before[i]);
            }
        }
    }
}

/// Every file that is to be read is planned at its place, and every other one counts as done. What
/// is decided to be stored of a file is stored.
pub proof fn law_every_file_is_planned(outcomes: Seq<OutcomeView>, i: int)
    requires
        outcomes.len() <= usize::MAX,
        0 <= i < outcomes.len(),
    ensures
        ({
            let p = planned(outcomes);
            &&& p.work.len() + p.files_done == outcomes.len()
            &&& outcomes[i].plan matches Some(plan) ==> p.work.contains((i as usize, plan))
            &&& outcomes[i].skipped matches Some(s) ==> p.pending.contains(s)
            &&& forall|j: int|
                0 <= j < p.work.len() ==> (#[trigger] p.work[j]).0 < outcomes.len()
                    && outcomes[p.work[j].0 as int].plan == Some(p.work[j].1)
        }),
    decreases outcomes.len(),
{
    let before = outcomes.drop_last();
    let n = outcomes.len() - 1;
    let p = planned(outcomes);
    let q = planned(before);
    if n > 0 {
        if i < n {
            law_every_file_is_planned(before, i);
            if outcomes[i].plan is Some {
                let j = choose|j: int|
                    0 <= j < q.work.len() && q.work[j] == (i as usize, outcomes[i].plan->0);
                assert(p.work[j] == q.work[j]);
            }
            if outcomes[i].skipped is Some {
                let j = choose|j: int|
                    0 <= j < q.pending.len() && q.pending[j] == outcomes[i].skipped->0;
                assert(p.pending[j] == q.pending[j]);
            }
        } else {
            law_every_file_is_planned(before, 0);
        }
        assert forall|j: int| 0 <= j < p.work.len() implies (#[trigger] p.work[j]).0 < outcomes.len()
            && outcomes[p.work[j].0 as int].plan == Some(p.work[j].1) by {
            if j < q.work.len() {
                assert(p.work[j] == q.work[j]);
                assert(outcomes[q.work[j].0 as int] == before[q.work[j].0 as int]);
            }
        }
    } else {
        assert(q.work.len() == 0 && q.files_done == 0 && q.pending.len() == 0);
    }
    if i == n {
        if outcomes[i].plan is Some {
            assert(p.work[q.work.len() as int] == (i as usize, outcomes[i].plan->0));
        }
        if outcomes[i].skipped is Some {
            assert(p.pending[q.pending.len() as int] == outcomes[i].skipped->0);
        }
    }
}

/// Every state that is to be retired is, and none twice.
pub proof fn law_each_state_is_retired_once(
    states: Seq<StateView>,
    more: Seq<StateView>,
    path: Seq<char>,
    inode: u64,
)
    ensures
        has_file(with_retired(states, more), path, inode) <==> has_file(states, path, inode)
            || has_file(more, path, inode),
        with_retired(states, more).len() <= states.len() + more.len(),
        (forall|i: int, j: int|
            0 <= i < j < states.len() ==> (#[trigger] states[i]).filepath != (
            #[trigger] states[j]).filepath || states[i].inode != states[j].inode) ==> (forall|
            i: int,
            j: int,
        |
            0 <= i < j < with_retired(states, more).len() ==> (#[trigger] with_retired(
                states,
                more,
            )[i]).filepath != (#[trigger] with_retired(states, more)[j]).filepath || with_retired(
                states,
                more,
            )[i].inode != with_retired(states, more)[j].inode),
    decreases more.len(),
{
    if more.len() > 0 {
        let rest = more.drop_last();
        let last = more.last();
        law_each_state_is_retired_once(states, rest, path, inode);
        let before = with_retired(states, rest);
        let after = with_retired(states, more);
        if has_file(rest, path, inode) {
            let i = choose|i: int|
                0 <= i < rest.len() && (#[trigger] rest[i]).filepath == path && rest[i].inode
                    == inode;
            assert(more[i] == rest[i]);
        }
        if last.filepath == path && last.inode == inode {
            assert(more[more.len() - 1] == last);
        }
        if has_file(more, path, inode) {
            let i = choose|i: int|
                0 <= i < more.len() && (#[trigger] more[i]).filepath == path && more[i].inode
                    == inode;
            if i < rest.len() {
                assert(rest[i] == more[i]);
            }
        }
        if !has_file(before, last.filepath, last.inode) {
            assert(after == before.push(last));
            assert(after[before.len() as int] == last);
            if has_file(before, path, inode) {
                let i = choose|i: int|
                    0 <= i < before.len() && (#[trigger] before[i]).filepath == path
                        && before[i].inode == inode;
                assert(after[i] == before[i]);
            }
            if has_file(after, path, inode) {
                let i = choose|i: int|
                    0 <= i < after.len() && (#[trigger] after[i]).filepath == path
                        && after[i].inode == inode;
                if i < before.len() {
                    assert(before[i] == after[i]);
                }
            }
        }
    }
}

/// The bytes of a file that count as done when a run starts.
pub open spec fn done_before(f: SeedFile) -> int {
    match f.state {
        Some(s) => if f.inode == 0 || s.inode != f.inode {
            0
        } else if f.compressed || s.uncompressed_offset <= f.size {
            s.uncompressed_offset as int
        } else {
            f.size as int
        },
        None => 0,
    }
}

/// The compressed bytes of a file that count as done when a run starts: all of them, where the file
/// was completed.
pub open spec fn archived_before(f: SeedFile) -> int {
    if f.compressed && f.inode != 0 && (f.state matches Some(s) && s.inode == f.inode && s.completed
        && s.compressed_offset >= f.size) {
        f.size as int
    } else {
        0
    }
}

/// The contents of compressed files that count as done when a run starts: of those that were
/// completed, what was decompressed.
pub open spec fn decoded_before(f: SeedFile) -> int {
    if f.compressed && f.inode != 0 && (f.state matches Some(s) && s.inode == f.inode && s.completed
        && s.compressed_offset >= f.size) {
        f.state->0.uncompressed_offset as int
    } else {
        0
    }
}

/// The sum of something over files.
pub open spec fn sum_over(files: Seq<SeedFile>, what: spec_fn(SeedFile) -> int) -> int
    decreases files.len(),
{
    if files.len() == 0 {
        0
    } else {
        sum_over(files.drop_last(), what) + what(files.last())
    }
}

proof fn lemma_sum_grows(files: Seq<SeedFile>, what: spec_fn(SeedFile) -> int)
    requires
        forall|f: SeedFile| #[trigger] what(f) >= 0,
    ensures
        sum_over(files, what) >= 0,
    decreases files.len(),
{
    if files.len() > 0 {
        lemma_sum_grows(files.drop_last(), what);
        assert(what(files.last()) >= 0);
    }
}

/// A run starts with the progress that the stored states tell: the bytes of each file that were read
/// before, and the compressed bytes of the files that were completed. A file whose inode is not that
/// of its state counts as not begun.
pub proof fn law_progress_starts_where_it_was(files: Seq<SeedFile>)
    ensures
        ({
            let done = sum_over(files, |f: SeedFile| done_before(f));
            let archived = sum_over(files, |f: SeedFile| archived_before(f));
            let decoded = sum_over(files, |f: SeedFile| decoded_before(f));
            &&& done <= u64::MAX ==> seeded(files).bytes_done == done
            &&& archived <= u64::MAX ==> seeded(files).gz_comp_done == archived
            &&& decoded <= u64::MAX ==> seeded(files).gz_decoded_done == decoded
        }),
    decreases files.len(),
{
    if files.len() > 0 {
        let before = files.drop_last();
        law_progress_starts_where_it_was(before);
        lemma_sum_grows(before, |f: SeedFile| done_before(f));
        lemma_sum_grows(before, |f: SeedFile| archived_before(f));
        lemma_sum_grows(before, |f: SeedFile| decoded_before(f));
    }
}

/// A completed copy is found if and only if a state in use or in the archive is completed and has the
/// head and the size that are looked for: of the compressed file, or of the contents.
pub proof fn law_completed_copies_are_found(
    states: ParseStates,
    head: u64,
    size: u64,
    compressed: Option<u64>,
    contents: Option<u64>,
    i: int,
)
    requires
        is_duplicate_answer(states, DuplicateQuery::Compressed { head, size }, compressed),
        is_duplicate_answer(states, DuplicateQuery::Uncompressed { head, size }, contents),
        0 <= i < states.active@.len() + states.archive@.len(),
    ensures
        ({
            let all = states.active@ + states.archive@;
            &&& all[i].completed && all[i].compressed_head_fingerprint == Some(head)
                && all[i].compressed_size == size ==> compressed is Some
            &&& all[i].completed && all[i].uncompressed_head_fingerprint == Some(head)
                && all[i].uncompressed_size == size ==> contents is Some
            &&& compressed matches Some(n) ==> exists|k: int|
                0 <= k < all.len() && (#[trigger] all[k]).completed
                    && all[k].compressed_head_fingerprint == Some(head) && all[k].compressed_size
                    == size && all[k].uncompressed_size == n
            &&& contents matches Some(n) ==> n == size && exists|k: int|
                0 <= k < all.len() && (#[trigger] all[k]).completed
                    && all[k].uncompressed_head_fingerprint == Some(head)
                    && all[k].uncompressed_size == size
        }),
{
    let all = states.active@ + states.archive@;
    if compressed is None {
        assert(!is_completed_file(all[i]@, head, size));
    } else {
        let k = choose|k: int|
            0 <= k < all.len() && is_completed_file((#[trigger] all[k])@, head, size)
                && all[k]@.uncompressed_size == compressed->0;
        assert(all[k].completed);
    }
    if contents is None {
        assert(!is_completed_contents(all[i]@, head, size));
    } else {
        let k = choose|k: int|
            0 <= k < all.len() && is_completed_contents((#[trigger] all[k])@, head, size);
        assert(all[k].completed);
    }
}

/// Of an inode a state in use is found before one in the archive, and one is found wherever there is
/// one.
pub proof fn law_states_in_use_count_first(
    states: ParseStates,
    inode: u64,
    answer: Option<ParseState>,
)
    requires
        is_inode_answer(states, inode, answer),
    ensures
        answer matches Some(s) ==> s.inode == inode,
        (exists|i: int| 0 <= i < states.active@.len() && (#[trigger] states.active@[i]).inode == inode)
            ==> (answer matches Some(s) && exists|i: int|
            0 <= i < states.active@.len() && (#[trigger] states.active@[i]).inode == inode
                && states.active@[i]@ == s@),
        answer is None ==> forall|i: int|
            0 <= i < states.archive@.len() ==> (#[trigger] states.archive@[i]).inode != inode,
{
    let used = exists|i: int|
        0 <= i < states.active@.len() && (#[trigger] states.active@[i])@.inode == inode;
    let r = choose|r: Option<&ParseState>|
        {
            &&& if used {
                #[trigger] is_best_match(states.active@, StateKey::Inode(inode), r)
            } else {
                is_best_match(states.archive@, StateKey::Inode(inode), r)
            }
            &&& match (answer, r) {
                (Some(s), Some(x)) => stored(s) == stored(*x),
                (None, None) => true,
                _ => false,
            }
        };
    if exists|i: int| 0 <= i < states.active@.len() && (#[trigger] states.active@[i]).inode == inode {
        let i = choose|i: int|
            0 <= i < states.active@.len() && (#[trigger] states.active@[i]).inode == inode;
        assert(states.active@[i]@.inode == inode);
        assert(used);
        assert(StateKey::Inode(inode).matches(states.active@[i]@));
        assert(r is Some);
        let j = choose|j: int| 0 <= j < states.active@.len() && #[trigger] states.active@[j] == *r->0;
        assert(states.active@[j]@ == answer->0@);
    }
    if answer is None {
        assert forall|i: int| 0 <= i < states.archive@.len() implies (
        #[trigger] states.archive@[i]).inode != inode by {
            if used {
                let k = choose|k: int|
                    0 <= k < states.active@.len() && (#[trigger] states.active@[k])@.inode == inode;
                assert(StateKey::Inode(inode).matches(states.active@[k]@));
            } else {
                assert(!StateKey::Inode(inode).matches(states.archive@[i]@));
            }
        }
    }
}

} // verus!
