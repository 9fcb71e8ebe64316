//! Deciding about a file with the stored states at hand.

use vstd::prelude::*;

use super::resume::{
    compute_fingerprints, facts_of, find_head_match_state, fingerprints_of, found_head, resolve_resume_plan,
    step_of, DuplicateQuery, FileContext, FileFacts, FileStat, Fingerprints, HeadQuery, Known, OutcomeView,
    ResolutionOutcome, Step, StepView,
};
use crate::compression::CompressionType;
use crate::database::parse_state::{
    is_best_match, is_completed_contents, is_completed_file, path_at, stored, ParseStates,
    StateKey,
};
use crate::database::ParseState;
use crate::fingerprint::DecodeError;

verus! {

/// What is stored under a path: a state of it, or none where there is none.
pub open spec fn is_path_answer(
    states: ParseStates,
    path: Seq<char>,
    answer: Option<ParseState>,
) -> bool {
    let at = path_at(states@.active, path);
    match answer {
        Some(s) => 0 <= at < states@.active.len() && stored(s) == states@.active[at],
        None => at == states@.active.len(),
    }
}

/// What is stored of an inode: a state in use, or else one that was retired.
pub open spec fn is_inode_answer(states: ParseStates, inode: u64, answer: Option<ParseState>) -> bool {
    exists|r: Option<&ParseState>|
        {
            &&& if exists|i: int|
                0 <= i < states.active@.len() && (#[trigger] states.active@[i])@.inode == inode {
                #[trigger] is_best_match(states.active@, StateKey::Inode(inode), r)
            } else {
                is_best_match(states.archive@, StateKey::Inode(inode), r)
            }
            &&& match (answer, r) {
                (Some(s), Some(x)) => stored(s) == stored(*x),
                (None, None) => true,
                _ => false,
            }
        }
}

/// What a query for a head finds.
pub open spec fn is_head_answer(
    states: ParseStates,
    q: HeadQuery,
    answer: Option<&ParseState>,
) -> bool {
    let all = states.active@ + states.archive@;
    exists|a: Option<&ParseState>, b: Option<&ParseState>|
        {
            &&& q.compressed matches Some(h) ==> is_best_match(all, StateKey::CompressedHead(h), a)
            &&& q.uncompressed matches Some(h) ==> is_best_match(
                all,
                StateKey::UncompressedHead(h),
                b,
            )
            &&& answer == #[trigger] found_head(q, a, b)
        }
}

/// What a query for a completed duplicate finds: the decompressed size of one, if there is one.
pub open spec fn is_duplicate_answer(
    states: ParseStates,
    q: DuplicateQuery,
    answer: Option<u64>,
) -> bool {
    let all = states.active@ + states.archive@;
    match q {
        DuplicateQuery::Compressed { head, size } => match answer {
            Some(n) => exists|i: int|
                0 <= i < all.len() && is_completed_file((#[trigger] all[i])@, head, size)
                    && all[i]@.uncompressed_size == n,
            None => forall|i: int|
                0 <= i < all.len() ==> !is_completed_file((#[trigger] all[i])@, head, size),
        },
        DuplicateQuery::Uncompressed { head, size } => match answer {
            Some(n) => n == size && exists|i: int|
                0 <= i < all.len() && is_completed_contents((#[trigger] all[i])@, head, size),
            None => forall|i: int|
                0 <= i < all.len() ==> !is_completed_contents((#[trigger] all[i])@, head, size),
        },
    }
}

/// What is decided once it is known whether a completed duplicate is stored.
pub open spec fn decided_by_duplicate(
    ctx: FileContext,
    states: ParseStates,
    fps: Fingerprints,
    head: Option<&ParseState>,
    q: DuplicateQuery,
    o: OutcomeView,
) -> bool {
    exists|d: Option<u64>| #[trigger]
        is_duplicate_answer(states, q, d) && step_of(ctx, Known::Duplicate(fps, head, d))
            == StepView::Done(o)
}

/// What is decided once a state with the file's head was looked for.
pub open spec fn decided_after_head(
    ctx: FileContext,
    states: ParseStates,
    fps: Fingerprints,
    head: Option<&ParseState>,
    o: OutcomeView,
) -> bool {
    match step_of(ctx, Known::Head(fps, head)) {
        StepView::Done(x) => o == x,
        StepView::FindDuplicate(q) => decided_by_duplicate(ctx, states, fps, head, q, o),
        _ => false,
    }
}

/// What is decided about a file with these fingerprints, with the answers that the states give.
pub open spec fn is_decided(
    ctx: FileContext,
    states: ParseStates,
    fps: Fingerprints,
    o: OutcomeView,
) -> bool {
    match step_of(ctx, Known::Fingerprints(fps)) {
        StepView::Done(x) => o == x,
        StepView::FindDuplicate(q) => decided_by_duplicate(ctx, states, fps, None, q, o),
        StepView::FindHead(q) => exists|h: Option<&ParseState>| #[trigger]
            is_head_answer(states, q, h) && decided_after_head(ctx, states, fps, h, o),
        StepView::ReadFile => false,
    }
}

/// A file with what is stored under its path and of its inode.
pub fn file_context(filepath: String, stat: FileStat, states: &ParseStates) -> (r: FileContext)
    ensures
        r.filepath == filepath,
        r.facts == facts_of(filepath@, stat),
        is_path_answer(*states, filepath@, r.by_path),
        is_inode_answer(*states, stat.inode, r.by_inode),
{
    let facts = FileFacts {
        inode: stat.inode,
        stat_size: stat.stat_size,
        mtime_ns: stat.mtime_ns,
        compression: CompressionType::from_path(filepath.as_str()),
    };
    let found = states.get_parse_state(filepath.as_str());
    let by_path = match found {
        Some(s) => Some(s.clone()),
        None => None,
    };
    let same = states.get_parse_state_by_inode(facts.inode);
    let by_inode = match same {
        Some(s) => Some(s.clone()),
        None => None,
    };
    proof {
        let key = StateKey::Inode(facts.inode);
        assert(is_best_match(states.active@, key, same) || is_best_match(
            states.archive@,
            key,
            same,
        ));
    }
    FileContext { filepath, facts, by_path, by_inode }
}

fn find_duplicate(states: &ParseStates, q: &DuplicateQuery) -> (r: Option<u64>)
    ensures
        is_duplicate_answer(*states, *q, r),
{
    match q {
        DuplicateQuery::Compressed { head, size } => states.find_completed_by_compressed_identity(
            *head,
            *size,
        ),
        DuplicateQuery::Uncompressed { head, size } => if states.find_completed_by_uncompressed_identity(
            *head,
            *size,
        ) {
            Some(*size)
        } else {
            None
        },
    }
}

fn find_head<'a>(states: &'a ParseStates, q: &HeadQuery) -> (r: Option<&'a ParseState>)
    ensures
        is_head_answer(*states, *q, r),
{
    let a = match q.compressed {
        Some(h) => states.find_parse_state_by_compressed_head_fingerprint(h),
        None => None,
    };
    let b = match q.uncompressed {
        Some(h) => states.find_parse_state_by_uncompressed_head_fingerprint(h),
        None => None,
    };
    find_head_match_state(q, a, b)
}

fn after_duplicate<'a>(
    ctx: &FileContext,
    states: &ParseStates,
    fps: Fingerprints,
    head: Option<&'a ParseState>,
    q: &DuplicateQuery,
) -> (r: Option<ResolutionOutcome>)
    ensures
        r matches Some(o) && decided_by_duplicate(*ctx, *states, fps, head, *q, o@),
{
    let d = find_duplicate(states, q);
    match resolve_resume_plan(ctx, Known::Duplicate(fps, head, d)) {
        Step::Done(o) => Some(o),
        _ => None,
    }
}

/// Decides about a file whose bytes are read. An error is that its bytes cannot be decoded.
pub fn resolve_contents(ctx: &FileContext, states: &ParseStates, raw: &[u8]) -> (r: Result<
    ResolutionOutcome,
    DecodeError,
>)
    ensures
        match (r, fingerprints_of(*ctx, raw@)) {
            (Ok(o), Ok(fps)) => is_decided(*ctx, *states, fps, o@),
            (Err(e), Err(x)) => e == x,
            _ => false,
        },
{
    let fps = match compute_fingerprints(ctx, raw) {
        Ok(f) => f,
        Err(e) => {
            return Err(e);
        },
    };
    let decided = match resolve_resume_plan(ctx, Known::Fingerprints(fps)) {
        Step::Done(o) => Some(o),
        Step::FindDuplicate(q) => after_duplicate(ctx, states, fps, None, &q),
        Step::FindHead(q) => {
            let head = find_head(states, &q);
            match resolve_resume_plan(ctx, Known::Head(fps, head)) {
                Step::Done(o) => Some(o),
                Step::FindDuplicate(dq) => after_duplicate(ctx, states, fps, head, &dq),
                _ => None,
            }
        },
        Step::ReadFile => None,
    };
    match decided {
        Some(o) => Ok(o),
        None => Err(DecodeError),
    }
}

} // verus!
