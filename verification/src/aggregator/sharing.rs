//! How the work on files is shared, and what is said of it.

use vstd::prelude::*;

use super::discovery::action_of;
use super::pipeline::has_file;
use super::ranges::{is_line_start, line_end, part_size};
use super::resume::FileResumePlan;
use super::workers::{paused_at, reopened, unseen, CheckpointGate};
use crate::compression::CompressionType;
use crate::database::StateView;
use crate::text::lemma_until;

verus! {

/// A line goes on up to its newline, which belongs to it, or to the end of the file. What follows it
/// is the start of a line.
pub proof fn law_lines_end_with_their_newlines(b: Seq<u8>, p: int)
    requires
        0 <= p < b.len(),
    ensures
        ({
            let end = line_end(b, p);
            &&& p < end <= b.len()
            &&& end < b.len() ==> b[end - 1] == '\n' as u8 && is_line_start(b, end)
            &&& b[end - 1] == '\n' as u8 || end == b.len()
            &&& forall|k: int| p <= k < end - 1 ==> #[trigger] b[k] != '\n' as u8
        }),
{
    lemma_until(b, p, '\n' as u8);
}

/// The parts of a file are as small as they can be while they cover it: with one byte less for each
/// worker they would not.
pub proof fn law_parts_are_even(bytes: int, workers: usize)
    requires
        bytes >= 0,
        workers > 0,
    ensures
        part_size(bytes, workers) * workers >= bytes,
        (part_size(bytes, workers) - 1) * workers < bytes,
        part_size(bytes, 0) == bytes,
{
    let w = workers as int;
    let s = part_size(bytes, workers);
    vstd::arithmetic::div_mod::lemma_fundamental_div_mod(bytes + w - 1, w);
    vstd::arithmetic::div_mod::lemma_mod_bound(bytes + w - 1, w);
    assert(w * s == s * w && (s - 1) * w == s * w - w) by (nonlinear_arith);
}

/// Of the states of some files, those are new that were not seen before, each of them once.
pub proof fn law_new_states_are_taken_once(
    seen: Seq<StateView>,
    more: Seq<StateView>,
    path: Seq<char>,
    inode: u64,
)
    ensures
        has_file(unseen(seen, more), path, inode) <==> has_file(more, path, inode) && !has_file(
            seen,
            path,
            inode,
        ),
        forall|i: int, j: int|
            0 <= i < j < unseen(seen, more).len() ==> (#[trigger] unseen(seen, more)[i]).filepath != (
            #[trigger] unseen(seen, more)[j]).filepath || unseen(seen, more)[i].inode != unseen(
                seen,
                more,
            )[j].inode,
    decreases more.len(),
{
    if more.len() > 0 {
        let rest = more.drop_last();
        let last = more.last();
        let before = unseen(seen, rest);
        let after = unseen(seen, more);
        law_new_states_are_taken_once(seen, rest, path, inode);
        law_new_states_are_taken_once(seen, rest, last.filepath, last.inode);
        lemma_one_more(rest, last, path, inode);
        assert(rest.push(last) =~= more);
        lemma_both(seen, before, path, inode);
        lemma_both(seen, before, last.filepath, last.inode);
        lemma_one_more(before, last, path, inode);
        assert forall|i: int, j: int| 0 <= i < j < after.len() implies (#[trigger] after[i]).filepath
            != (#[trigger] after[j]).filepath || after[i].inode != after[j].inode by {
            if j < before.len() {
                assert(after[i] == before[i] && after[j] == before[j]);
            } else {
                assert(after[i] == before[i] && after[j] == last);
                if before[i].filepath == last.filepath && before[i].inode == last.inode {
                    assert(has_file(before, last.filepath, last.inode));
                }
            }
        }
    }
}

proof fn lemma_one_more(l: Seq<StateView>, s: StateView, path: Seq<char>, inode: u64)
    ensures
        has_file(l.push(s), path, inode) <==> has_file(l, path, inode) || (s.filepath == path
            && s.inode == inode),
{
    let m = l.push(s);
    if has_file(l, path, inode) {
        let i = choose|i: int|
            0 <= i < l.len() && (#[trigger] l[i]).filepath == path && l[i].inode == inode;
        assert(m[i] == l[i]);
    }
    if s.filepath == path && s.inode == inode {
        assert(m[l.len() as int] == s);
    }
    if has_file(m, path, inode) {
        let i = choose|i: int|
            0 <= i < m.len() && (#[trigger] m[i]).filepath == path && m[i].inode == inode;
        if i < l.len() {
            assert(l[i] == m[i]);
        }
    }
}

proof fn lemma_both(a: Seq<StateView>, b: Seq<StateView>, path: Seq<char>, inode: u64)
    ensures
        has_file(a + b, path, inode) <==> has_file(a, path, inode) || has_file(b, path, inode),
{
    let m = a + b;
    if has_file(a, path, inode) {
        let i = choose|i: int|
            0 <= i < a.len() && (#[trigger] a[i]).filepath == path && a[i].inode == inode;
        assert(m[i] == a[i]);
    }
    if has_file(b, path, inode) {
        let i = choose|i: int|
            0 <= i < b.len() && (#[trigger] b[i]).filepath == path && b[i].inode == inode;
        assert(m[a.len() + i] == b[i]);
    }
    if has_file(m, path, inode) {
        let i = choose|i: int|
            0 <= i < m.len() && (#[trigger] m[i]).filepath == path && m[i].inode == inode;
        if i < a.len() {
            assert(a[i] == m[i]);
        } else {
            assert(b[i - a.len()] == m[i]);
        }
    }
}

/// A worker pauses at most once for a checkpoint, and only while one is asked for. A gate that is
/// opened again lets every worker pass: none is asked to pause, and none counts as paused.
pub proof fn law_gate_of_a_checkpoint(gate: CheckpointGate, seen: u64)
    requires
        gate.paused_workers < usize::MAX,
    ensures
        paused_at(gate, seen).paused_workers == gate.paused_workers + if gate.requested && seen
            != gate.generation {
            1int
        } else {
            0
        },
        paused_at(gate, seen).requested == gate.requested,
        paused_at(gate, seen).generation == gate.generation,
        paused_at(gate, seen).active_workers == gate.active_workers,
        !reopened(gate).requested,
        reopened(gate).paused_workers == 0,
        reopened(gate).generation != gate.generation,
        reopened(gate).active_workers == gate.active_workers,
        paused_at(reopened(gate), seen) == reopened(gate),
{
}

/// What is done with a file is said in a word: whether it is read from its start, read on or left
/// alone. Files that are read on or marked as read are told of first, then those that are read from
/// their start, and those without work last.
pub proof fn law_actions_by_their_names(plan: FileResumePlan)
    ensures
        plan.compression == CompressionType::Plain && plan.offset == 0 ==> action_of(
            Some(plan),
            false,
        ) == ("start_plain_from_zero"@, 2u8),
        plan.compression == CompressionType::Plain && plan.offset > 0 ==> action_of(
            Some(plan),
            false,
        ) == ("resume_plain_from_offset"@, 1u8),
        plan.compression != CompressionType::Plain && plan.skip_decoded_prefix_bytes > 0
            ==> action_of(Some(plan), false) == ("resume_compressed_tail"@, 1u8),
        plan.compression != CompressionType::Plain && plan.skip_decoded_prefix_bytes == 0
            && plan.offset > 0 ==> action_of(Some(plan), false) == (
            "resume_compressed_from_offset"@,
            1u8,
        ),
        plan.compression != CompressionType::Plain && plan.skip_decoded_prefix_bytes == 0
            && plan.offset == 0 ==> action_of(Some(plan), false) == (
            "start_compressed_from_zero"@,
            2u8,
        ),
        action_of(None, true) == ("skip_mark_completed"@, 1u8),
        action_of(None, false) == ("skip_no_work"@, 3u8),
{
}

} // verus!
