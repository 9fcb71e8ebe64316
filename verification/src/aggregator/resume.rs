//! Resume planning: whether a file is skipped, resumed mid-file or processed anew, by its inode,
//! size, modification time and head fingerprints.

use vstd::prelude::*;
use vstd::string::*;
use vstd::utf8::*;

use crate::compression::{compression_of, CompressionType};
use crate::database::{ParseState, ParseStateUpdate, StateView};
use crate::fingerprint::{
    compute_compressed_head_fingerprint, compute_decompressed_head_fingerprint, decode, decoded,
    head_hash, head_of, plain_fingerprint, DecodeError, FINGERPRINT_SAMPLE,
};
use crate::parser::combined::{entry_of, parse_line, parse_unix_timestamp, unix_time};
use crate::parser::LogEntry;
use crate::text::{
    lemma_ascii_boundary, lemma_boundary_ends, lemma_until, scan_until, slice_str, str_eq, until,
    utf8_str, CARRIAGE_RETURN, NEWLINE,
};

verus! {

// ── Types ───────────────────────────────────────────────────────────────────

/// The fingerprints of a file; `None` where one is not known or does not apply.
#[derive(Debug, Clone, Copy, PartialEq, Eq, Structural)]
pub struct Fingerprints {
    pub compressed_head: Option<u64>,
    pub uncompressed_head: Option<u64>,
    /// Zero for a compressed file whose decompressed size is not known yet.
    pub uncompressed_size: u64,
}

/// What happened to a file since its stored record, from the most certain to the least.
#[derive(Debug, PartialEq, Eq, Structural)]
pub enum FileRelation {
    /// Path, inode, size, modification time and head match a completed record.
    Identical,
    /// Another path, but the contents of a completed file.
    AliasPath,
    /// A plain file that has more to read.
    PlainExtended,
    /// A compressed file that has more to read.
    CompressedExtended,
    /// Was a plain file, is now compressed, with the same contents in front.
    RotatedPlainToGz,
    /// No direct match, but a record with the same head: read on from its offset.
    HeadMatch(u64),
    /// No usable record.
    Unrelated,
}

/// Where to read on.
#[derive(Debug, PartialEq, Eq, Structural)]
pub enum ResumePoint {
    /// Nothing is left to read.
    Skip,
    /// Read a plain file from this byte on.
    PlainOffset(u64),
    /// Decompress the file and drop this many decoded bytes.
    DecodedOffset(u64),
    /// Read everything.
    FromZero,
}

/// What the file system says of a file.
#[derive(Debug, Clone, Copy, PartialEq, Eq, Structural)]
pub struct FileStat {
    pub inode: u64,
    pub stat_size: u64,
    pub mtime_ns: i64,
}

/// What is known of a file without reading it: what the file system says, and the compression that
/// its path names.
#[derive(Debug, Clone, Copy, PartialEq, Eq, Structural)]
pub struct FileFacts {
    pub inode: u64,
    pub stat_size: u64,
    pub mtime_ns: i64,
    pub compression: CompressionType,
}

/// What is known of a file at a path without reading it.
pub open spec fn facts_of(path: Seq<char>, stat: FileStat) -> FileFacts {
    FileFacts {
        inode: stat.inode,
        stat_size: stat.stat_size,
        mtime_ns: stat.mtime_ns,
        compression: compression_of(encode_utf8(path)),
    }
}

/// How to read a file that has something new.
#[derive(Debug, Clone, Copy, PartialEq, Eq, Structural)]
pub struct FileResumePlan {
    pub current_inode: u64,
    pub stat_size: u64,
    pub mtime_ns: i64,
    pub compression: CompressionType,
    pub offset: u64,
    pub skip_decoded_prefix_bytes: u64,
    pub uncompressed_size: Option<u64>,
    pub compressed_head_fingerprint: Option<u64>,
    pub uncompressed_head_fingerprint: Option<u64>,
    pub skip_before_ts: Option<i64>,
}

/// What was decided about a file: a plan to read it, or none, with the records to store.
#[derive(Debug)]
pub struct ResolutionOutcome {
    pub plan: Option<FileResumePlan>,
    pub skipped_parse_state: Option<ParseStateUpdate>,
    pub retired_parse_states: Vec<ParseStateUpdate>,
}

/// A decision by its values.
pub struct OutcomeView {
    pub plan: Option<FileResumePlan>,
    pub skipped: Option<StateView>,
    pub retired: Seq<StateView>,
}

/// An update by its values, where there is one.
pub open spec fn opt_view(u: Option<ParseStateUpdate>) -> Option<StateView> {
    match u {
        Some(u) => Some(u@),
        None => None,
    }
}

/// Updates by their values.
pub open spec fn views(s: Seq<ParseStateUpdate>) -> Seq<StateView> {
    Seq::new(s.len(), |i: int| s[i]@)
}

impl ResolutionOutcome {
    pub open spec fn view(&self) -> OutcomeView {
        OutcomeView {
            plan: self.plan,
            skipped: opt_view(self.skipped_parse_state),
            retired: views(self.retired_parse_states@),
        }
    }

    /// Nothing to read.
    pub fn skip(
        skipped_parse_state: Option<ParseStateUpdate>,
        retired_parse_states: Vec<ParseStateUpdate>,
    ) -> (r: ResolutionOutcome)
        ensures
            r@ == (OutcomeView {
                plan: None,
                skipped: opt_view(skipped_parse_state),
                retired: views(retired_parse_states@),
            }),
    {
        ResolutionOutcome { plan: None, skipped_parse_state, retired_parse_states }
    }

    /// Something to read.
    pub fn resume(plan: FileResumePlan, retired_parse_states: Vec<ParseStateUpdate>) -> (r:
        ResolutionOutcome)
        ensures
            r@ == (OutcomeView {
                plan: Some(plan),
                skipped: None,
                retired: views(retired_parse_states@),
            }),
    {
        ResolutionOutcome { plan: Some(plan), skipped_parse_state: None, retired_parse_states }
    }
}

// ── Choosing a record ───────────────────────────────────────────────────────

/// The record that counts: that of the path if its inode is still the file's; else that of the
/// inode; else that of the path.
pub open spec fn primary_of<'a>(
    by_path: Option<&'a ParseState>,
    by_inode: Option<&'a ParseState>,
    inode: u64,
) -> Option<&'a ParseState> {
    if by_path is Some && by_path->0.inode == inode {
        by_path
    } else if by_inode is Some {
        by_inode
    } else {
        by_path
    }
}

/// Chooses the record that counts for a file.
pub fn choose_primary_state<'a>(
    by_path: Option<&'a ParseState>,
    by_inode: Option<&'a ParseState>,
    current_inode: u64,
) -> (r: Option<&'a ParseState>)
    ensures
        r == primary_of(by_path, by_inode, current_inode),
{
    match (by_path, by_inode) {
        (Some(s), _) if s.inode == current_inode => Some(s),
        (_, Some(s)) => Some(s),
        (Some(s), None) => Some(s),
        (None, None) => None,
    }
}

/// The size that a record stores for a file of this kind.
pub open spec fn stored_size(state: ParseState, is_compressed: bool) -> u64 {
    if is_compressed {
        state.compressed_size
    } else {
        state.uncompressed_size
    }
}

/// The offset that a record stores for a file of this kind.
pub open spec fn stored_offset(state: ParseState, is_compressed: bool) -> u64 {
    if is_compressed {
        state.compressed_offset
    } else {
        state.uncompressed_offset
    }
}

/// The record is completed, and inode, modification time and size are the file's.
pub open spec fn unchanged(
    state: ParseState,
    inode: u64,
    stat_size: u64,
    mtime_ns: i64,
    is_compressed: bool,
) -> bool {
    &&& state.completed
    &&& state.inode == inode
    &&& state.mtime_ns == mtime_ns
    &&& stored_size(state, is_compressed) == stat_size
    &&& stored_offset(state, is_compressed) >= stat_size
}

/// Whether the record says that nothing is left to process.
pub fn metadata_exact_match(
    state: &ParseState,
    current_inode: u64,
    stat_size: u64,
    mtime_ns: i64,
    is_compressed: bool,
) -> (r: bool)
    ensures
        r == unchanged(*state, current_inode, stat_size, mtime_ns, is_compressed),
{
    state.completed && state.inode == current_inode && state.mtime_ns == mtime_ns
        && if is_compressed {
        state.compressed_offset >= stat_size && state.compressed_size == stat_size
    } else {
        state.uncompressed_offset >= stat_size && state.uncompressed_size == stat_size
    }
}

/// The records that no longer hold: that of the path if the file was replaced or has shrunk, and
/// that of the inode if it stands under another path.
pub open spec fn retired_of(
    by_path: Option<ParseState>,
    by_inode: Option<ParseState>,
    inode: u64,
    stat_size: u64,
    is_compressed: bool,
    filepath: Seq<char>,
) -> Seq<StateView> {
    let first = if by_path is Some && (by_path->0.inode != inode || stat_size < stored_size(
        by_path->0,
        is_compressed,
    )) {
        seq![by_path->0@]
    } else {
        Seq::empty()
    };
    let second = if by_inode is Some && by_inode->0.filepath@ != filepath {
        seq![by_inode->0@]
    } else {
        Seq::empty()
    };
    first + second
}

/// Collects the records that no longer hold.
pub fn collect_retired_states(
    by_path: &Option<ParseState>,
    by_inode: &Option<ParseState>,
    current_inode: u64,
    stat_size: u64,
    is_compressed: bool,
    filepath: &str,
) -> (r: Vec<ParseStateUpdate>)
    ensures
        views(r@) == retired_of(
            *by_path,
            *by_inode,
            current_inode,
            stat_size,
            is_compressed,
            filepath@,
        ),
{
    let mut retired: Vec<ParseStateUpdate> = Vec::new();
    if let Some(state) = by_path {
        let previous_size: u64 = if is_compressed {
            state.compressed_size
        } else {
            state.uncompressed_size
        };
        if state.inode != current_inode || stat_size < previous_size {
            retired.push(ParseStateUpdate::from_state(state));
        }
    }
    if let Some(state) = by_inode {
        if !str_eq(state.filepath.as_str(), filepath) {
            retired.push(ParseStateUpdate::from_state(state));
        }
    }
    assert(views(retired@) =~= retired_of(
        *by_path,
        *by_inode,
        current_inode,
        stat_size,
        is_compressed,
        filepath@,
    ));
    retired
}

// ── Classifying ─────────────────────────────────────────────────────────────

/// A record with the same head seeds the offset, if it has one.
pub open spec fn seeded_relation(head_match: Option<&ParseState>) -> FileRelation {
    if head_match is Some && head_match->0.uncompressed_offset > 0 {
        FileRelation::HeadMatch(head_match->0.uncompressed_offset)
    } else {
        FileRelation::Unrelated
    }
}

/// The relation that a record found by its head gives.
pub fn head_match_relation(head_match: Option<&ParseState>) -> (r: FileRelation)
    ensures
        r == seeded_relation(head_match),
{
    match head_match {
        Some(s) if s.uncompressed_offset > 0 => FileRelation::HeadMatch(s.uncompressed_offset),
        _ => FileRelation::Unrelated,
    }
}

/// The record is of a completed plain file of the same size and head, not modified since, under
/// another path, or under the same path and inode.
pub open spec fn same_plain_file(
    state: ParseState,
    filepath: Seq<char>,
    inode: u64,
    stat_size: u64,
    mtime_ns: i64,
    is_compressed: bool,
    fps: Fingerprints,
) -> bool {
    &&& state.completed
    &&& !is_compressed
    &&& state.uncompressed_size == stat_size
    &&& state.uncompressed_head_fingerprint == fps.uncompressed_head
    &&& (state.mtime_ns == 0 || state.mtime_ns == mtime_ns)
    &&& (state.filepath@ == filepath ==> state.inode == inode)
}

/// The record is of a plain file with the head that the compressed file decompresses to.
pub open spec fn was_rotated(state: ParseState, is_compressed: bool, fps: Fingerprints) -> bool {
    &&& is_compressed
    &&& state.compressed_size == 0
    &&& fps.uncompressed_head is Some
    &&& fps.uncompressed_head == state.uncompressed_head_fingerprint
    &&& state.uncompressed_offset > 0
}

/// The record is of the same file, which was not read to its end.
pub open spec fn was_interrupted(
    state: ParseState,
    inode: u64,
    stat_size: u64,
    is_compressed: bool,
) -> bool {
    &&& !state.completed
    &&& state.inode == inode
    &&& state.uncompressed_offset > 0
    &&& if is_compressed {
        stat_size >= state.compressed_size
    } else {
        stat_size == state.uncompressed_size
    }
}

/// The file is larger than its record says.
pub open spec fn has_grown(state: ParseState, stat_size: u64, is_compressed: bool) -> bool {
    stat_size > stored_size(state, is_compressed) > 0
}

/// The record's head is known and is the file's.
pub open spec fn same_head(state: ParseState, fps: Fingerprints) -> bool {
    state.uncompressed_head_fingerprint is Some && state.uncompressed_head_fingerprint
        == fps.uncompressed_head
}

/// A grown file continues what its record tells of.
pub open spec fn continues(
    state: ParseState,
    inode: u64,
    is_compressed: bool,
    inode_changed_for_path: bool,
    fps: Fingerprints,
) -> bool {
    if is_compressed {
        state.inode == inode || (same_head(state, fps) && state.uncompressed_offset > 0)
    } else {
        !inode_changed_for_path || same_head(state, fps)
    }
}

/// The relation of a file to its record.
pub open spec fn relation_of(
    primary: Option<&ParseState>,
    head_match: Option<&ParseState>,
    filepath: Seq<char>,
    inode: u64,
    stat_size: u64,
    mtime_ns: i64,
    is_compressed: bool,
    inode_changed_for_path: bool,
    fps: Fingerprints,
) -> FileRelation {
    match primary {
        None => seeded_relation(head_match),
        Some(s) => {
            let extended = if is_compressed {
                FileRelation::CompressedExtended
            } else {
                FileRelation::PlainExtended
            };
            if same_plain_file(*s, filepath, inode, stat_size, mtime_ns, is_compressed, fps) {
                if s.filepath@ == filepath {
                    FileRelation::Identical
                } else {
                    FileRelation::AliasPath
                }
            } else if was_rotated(*s, is_compressed, fps) {
                FileRelation::RotatedPlainToGz
            } else if was_interrupted(*s, inode, stat_size, is_compressed) {
                extended
            } else if has_grown(*s, stat_size, is_compressed) && continues(
                *s,
                inode,
                is_compressed,
                inode_changed_for_path,
                fps,
            ) {
                extended
            } else if stat_size < stored_size(*s, is_compressed) {
                FileRelation::Unrelated
            } else if !is_compressed && s.uncompressed_head_fingerprint is Some
                && s.uncompressed_head_fingerprint != fps.uncompressed_head {
                FileRelation::Unrelated
            } else {
                seeded_relation(head_match)
            }
        },
    }
}

/// Classifies the relation of a file to its record.
pub fn classify_relation(
    primary: Option<&ParseState>,
    head_match: Option<&ParseState>,
    filepath: &str,
    current_inode: u64,
    stat_size: u64,
    mtime_ns: i64,
    is_compressed: bool,
    inode_changed_for_path: bool,
    fps: &Fingerprints,
) -> (r: FileRelation)
    ensures
        r == relation_of(
            primary,
            head_match,
            filepath@,
            current_inode,
            stat_size,
            mtime_ns,
            is_compressed,
            inode_changed_for_path,
            *fps,
        ),
{
    let state = match primary {
        Some(s) => s,
        None => return head_match_relation(head_match),
    };
    let same_inode: bool = state.inode == current_inode;
    if state.completed && !is_compressed && state.uncompressed_size == stat_size
        && state.uncompressed_head_fingerprint == fps.uncompressed_head && (state.mtime_ns == 0
        || state.mtime_ns == mtime_ns) {
        if !str_eq(state.filepath.as_str(), filepath) {
            return FileRelation::AliasPath;
        }
        if same_inode {
            return FileRelation::Identical;
        }
    }
    let prev_size: u64 = if is_compressed {
        state.compressed_size
    } else {
        state.uncompressed_size
    };
    if is_compressed && state.compressed_size == 0 && fps.uncompressed_head.is_some()
        && fps.uncompressed_head == state.uncompressed_head_fingerprint
        && state.uncompressed_offset > 0 {
        return FileRelation::RotatedPlainToGz;
    }
    if is_compressed && !state.completed && same_inode && state.uncompressed_offset > 0 && stat_size
        >= state.compressed_size {
        return FileRelation::CompressedExtended;
    }
    if !is_compressed && !state.completed && same_inode && stat_size == prev_size
        && state.uncompressed_offset > 0 {
        return FileRelation::PlainExtended;
    }
    if stat_size > prev_size && prev_size > 0 {
        if is_compressed {
            if same_inode || (state.uncompressed_head_fingerprint.is_some()
                && state.uncompressed_head_fingerprint == fps.uncompressed_head
                && state.uncompressed_offset > 0) {
                return FileRelation::CompressedExtended;
            }
        } else if !inode_changed_for_path || (state.uncompressed_head_fingerprint.is_some()
            && state.uncompressed_head_fingerprint == fps.uncompressed_head) {
            return FileRelation::PlainExtended;
        }
    }
    if stat_size < prev_size {
        return FileRelation::Unrelated;
    }
    if !is_compressed && state.uncompressed_head_fingerprint.is_some()
        && state.uncompressed_head_fingerprint != fps.uncompressed_head {
        return FileRelation::Unrelated;
    }
    head_match_relation(head_match)
}

/// The offset up to which a record's contents were processed; zero without a record.
pub open spec fn processed_offset(primary: Option<&ParseState>) -> u64 {
    match primary {
        Some(s) => s.uncompressed_offset,
        None => 0,
    }
}

/// An offset that does not pass the end of the file.
pub open spec fn clamped(offset: u64, stat_size: u64) -> u64 {
    if offset <= stat_size {
        offset
    } else {
        stat_size
    }
}

/// Where to read on under a relation.
pub open spec fn point_of(
    relation: FileRelation,
    primary: Option<&ParseState>,
    stat_size: u64,
    is_compressed: bool,
) -> ResumePoint {
    match relation {
        FileRelation::Identical => ResumePoint::Skip,
        FileRelation::AliasPath => ResumePoint::Skip,
        FileRelation::PlainExtended => ResumePoint::PlainOffset(
            clamped(processed_offset(primary), stat_size),
        ),
        FileRelation::CompressedExtended => ResumePoint::DecodedOffset(processed_offset(primary)),
        FileRelation::RotatedPlainToGz => ResumePoint::DecodedOffset(processed_offset(primary)),
        FileRelation::HeadMatch(offset) => if is_compressed {
            ResumePoint::DecodedOffset(offset)
        } else {
            ResumePoint::PlainOffset(clamped(offset, stat_size))
        },
        FileRelation::Unrelated => ResumePoint::FromZero,
    }
}

/// The bytes to skip under a relation.
pub fn derive_resume_point(
    relation: &FileRelation,
    primary: Option<&ParseState>,
    _head_match: Option<&ParseState>,
    stat_size: u64,
    is_compressed: bool,
) -> (r: ResumePoint)
    ensures
        r == point_of(*relation, primary, stat_size, is_compressed),
{
    let processed: u64 = match primary {
        Some(s) => s.uncompressed_offset,
        None => 0,
    };
    match relation {
        FileRelation::Identical => ResumePoint::Skip,
        FileRelation::AliasPath => ResumePoint::Skip,
        FileRelation::PlainExtended => ResumePoint::PlainOffset(min_offset(processed, stat_size)),
        FileRelation::CompressedExtended => ResumePoint::DecodedOffset(processed),
        FileRelation::RotatedPlainToGz => ResumePoint::DecodedOffset(processed),
        FileRelation::HeadMatch(offset) => if is_compressed {
            ResumePoint::DecodedOffset(*offset)
        } else {
            ResumePoint::PlainOffset(min_offset(*offset, stat_size))
        },
        FileRelation::Unrelated => ResumePoint::FromZero,
    }
}

fn min_offset(offset: u64, stat_size: u64) -> (r: u64)
    ensures
        r == clamped(offset, stat_size),
{
    if offset <= stat_size {
        offset
    } else {
        stat_size
    }
}

// ── Records of skipped files ────────────────────────────────────────────────

/// The record under a new path of a file that was processed under another; none if the path is
/// the stored one.
pub open spec fn alias_of(
    state: ParseState,
    filepath: Seq<char>,
    inode: u64,
    mtime_ns: i64,
) -> Option<StateView> {
    if state.filepath@ == filepath {
        None
    } else {
        Some(StateView { filepath, inode, mtime_ns, completed: true, ..state@ })
    }
}

/// The record under a new path of a file that was processed under another.
pub fn alias_update(
    state: &ParseState,
    filepath: &str,
    current_inode: u64,
    mtime_ns: i64,
) -> (r: Option<ParseStateUpdate>)
    ensures
        opt_view(r) == alias_of(*state, filepath@, current_inode, mtime_ns),
{
    if str_eq(state.filepath.as_str(), filepath) {
        return None;
    }
    Some(
        ParseStateUpdate {
            filepath: filepath.to_owned(),
            inode: current_inode,
            compressed_size: state.compressed_size,
            uncompressed_size: state.uncompressed_size,
            compressed_head_fingerprint: state.compressed_head_fingerprint,
            uncompressed_head_fingerprint: state.uncompressed_head_fingerprint,
            compressed_offset: state.compressed_offset,
            uncompressed_offset: state.uncompressed_offset,
            mtime_ns,
            completed: true,
            earliest_ts: state.earliest_ts,
            latest_ts: state.latest_ts,
        },
    )
}

/// A size that only a compressed file has.
pub open spec fn compressed_only(compression: CompressionType, size: u64) -> u64 {
    if compression != CompressionType::Plain {
        size
    } else {
        0
    }
}

/// The record under a new path, with fingerprints that were just computed.
pub open spec fn alias_with_fps_of(
    state: ParseState,
    filepath: Seq<char>,
    facts: FileFacts,
    fps: Fingerprints,
) -> Option<StateView> {
    if state.filepath@ == filepath {
        None
    } else {
        Some(
            StateView {
                filepath,
                inode: facts.inode,
                compressed_size: compressed_only(facts.compression, facts.stat_size),
                compressed_head_fingerprint: fps.compressed_head,
                uncompressed_head_fingerprint: if fps.uncompressed_head is Some {
                    fps.uncompressed_head
                } else {
                    state.uncompressed_head_fingerprint
                },
                compressed_offset: compressed_only(facts.compression, facts.stat_size),
                mtime_ns: facts.mtime_ns,
                completed: true,
                ..state@
            },
        )
    }
}

/// The record under a new path, with fingerprints that were just computed.
pub fn alias_update_with_fps(
    state: &ParseState,
    filepath: &str,
    facts: &FileFacts,
    fps: &Fingerprints,
) -> (r: Option<ParseStateUpdate>)
    ensures
        opt_view(r) == alias_with_fps_of(*state, filepath@, *facts, *fps),
{
    if str_eq(state.filepath.as_str(), filepath) {
        return None;
    }
    let raw_size: u64 = if facts.compression.is_compressed() {
        facts.stat_size
    } else {
        0
    };
    Some(
        ParseStateUpdate {
            filepath: filepath.to_owned(),
            inode: facts.inode,
            compressed_size: raw_size,
            uncompressed_size: state.uncompressed_size,
            compressed_head_fingerprint: fps.compressed_head,
            uncompressed_head_fingerprint: match fps.uncompressed_head {
                Some(h) => Some(h),
                None => state.uncompressed_head_fingerprint,
            },
            compressed_offset: raw_size,
            uncompressed_offset: state.uncompressed_offset,
            mtime_ns: facts.mtime_ns,
            completed: true,
            earliest_ts: state.earliest_ts,
            latest_ts: state.latest_ts,
        },
    )
}

/// The record of a file whose contents are those of a completed one.
pub open spec fn completed_of(
    filepath: Seq<char>,
    facts: FileFacts,
    uncompressed_size: u64,
    fps: Fingerprints,
) -> StateView {
    StateView {
        filepath,
        inode: facts.inode,
        compressed_size: compressed_only(facts.compression, facts.stat_size),
        uncompressed_size,
        compressed_head_fingerprint: if facts.compression != CompressionType::Plain {
            fps.compressed_head
        } else {
            None
        },
        uncompressed_head_fingerprint: fps.uncompressed_head,
        compressed_offset: compressed_only(facts.compression, facts.stat_size),
        uncompressed_offset: uncompressed_size,
        mtime_ns: facts.mtime_ns,
        completed: true,
        earliest_ts: None,
        latest_ts: None,
    }
}

/// The record of a file whose contents are those of a completed one.
pub fn completed_parse_state_update(
    filepath: &str,
    facts: &FileFacts,
    uncompressed_size: u64,
    fps: &Fingerprints,
) -> (r: ParseStateUpdate)
    ensures
        r@ == completed_of(filepath@, *facts, uncompressed_size, *fps),
{
    let is_compressed: bool = facts.compression.is_compressed();
    let raw_size: u64 = if is_compressed {
        facts.stat_size
    } else {
        0
    };
    ParseStateUpdate {
        filepath: filepath.to_owned(),
        inode: facts.inode,
        compressed_size: raw_size,
        uncompressed_size,
        compressed_head_fingerprint: if is_compressed {
            fps.compressed_head
        } else {
            None
        },
        uncompressed_head_fingerprint: fps.uncompressed_head,
        compressed_offset: raw_size,
        uncompressed_offset: uncompressed_size,
        mtime_ns: facts.mtime_ns,
        completed: true,
        earliest_ts: None,
        latest_ts: None,
    }
}

// ── Resolving a file ────────────────────────────────────────────────────────

/// A file, and the stored records under its path and its inode.
#[derive(Debug)]
pub struct FileContext {
    pub filepath: String,
    pub facts: FileFacts,
    pub by_path: Option<ParseState>,
    pub by_inode: Option<ParseState>,
}

/// A record where there is one.
pub open spec fn opt_ref(s: Option<ParseState>) -> Option<&'static ParseState> {
    match s {
        Some(s) => Some(&s),
        None => None,
    }
}

impl FileContext {
    pub open spec fn is_compressed(&self) -> bool {
        self.facts.compression != CompressionType::Plain
    }

    /// The record that counts.
    pub open spec fn primary(&self) -> Option<&ParseState> {
        primary_of(opt_ref(self.by_path), opt_ref(self.by_inode), self.facts.inode)
    }

    /// The path has a record, of another inode.
    pub open spec fn inode_changed(&self) -> bool {
        self.by_path is Some && self.by_path->0.inode != self.facts.inode
    }

    /// The records that no longer hold.
    pub open spec fn retired(&self) -> Seq<StateView> {
        retired_of(
            self.by_path,
            self.by_inode,
            self.facts.inode,
            self.facts.stat_size,
            self.is_compressed(),
            self.filepath@,
        )
    }

    fn primary_ref(&self) -> (r: Option<&ParseState>)
        ensures
            r == self.primary(),
    {
        choose_primary_state(self.by_path.as_ref(), self.by_inode.as_ref(), self.facts.inode)
    }

    fn inode_changed_for_path(&self) -> (r: bool)
        ensures
            r == self.inode_changed(),
    {
        match &self.by_path {
            Some(s) => s.inode != self.facts.inode,
            None => false,
        }
    }

    fn retired_states(&self) -> (r: Vec<ParseStateUpdate>)
        ensures
            views(r@) == self.retired(),
    {
        collect_retired_states(
            &self.by_path,
            &self.by_inode,
            self.facts.inode,
            self.facts.stat_size,
            self.facts.compression.is_compressed(),
            self.filepath.as_str(),
        )
    }
}

/// The decision that the file system's word alone allows: nothing to read, if the record says so.
pub open spec fn cheap_outcome(ctx: FileContext) -> Option<OutcomeView> {
    match ctx.primary() {
        Some(s) => if unchanged(
            *s,
            ctx.facts.inode,
            ctx.facts.stat_size,
            ctx.facts.mtime_ns,
            ctx.is_compressed(),
        ) {
            Some(
                OutcomeView {
                    plan: None,
                    skipped: alias_of(*s, ctx.filepath@, ctx.facts.inode, ctx.facts.mtime_ns),
                    retired: ctx.retired(),
                },
            )
        } else {
            None
        },
        None => None,
    }
}

/// A decision by its values, where there is one.
pub open spec fn opt_outcome(o: Option<ResolutionOutcome>) -> Option<OutcomeView> {
    match o {
        Some(o) => Some(o@),
        None => None,
    }
}

/// Decides a file by its inode, size and modification time, without reading it. `None` where that
/// is not enough.
pub fn resolve_cheap(ctx: &FileContext) -> (r: Option<ResolutionOutcome>)
    ensures
        opt_outcome(r) == cheap_outcome(*ctx),
{
    let state = match ctx.primary_ref() {
        Some(s) => s,
        None => return None,
    };
    if !metadata_exact_match(
        state,
        ctx.facts.inode,
        ctx.facts.stat_size,
        ctx.facts.mtime_ns,
        ctx.facts.compression.is_compressed(),
    ) {
        return None;
    }
    let skipped = alias_update(
        state,
        ctx.filepath.as_str(),
        ctx.facts.inode,
        ctx.facts.mtime_ns,
    );
    Some(ResolutionOutcome::skip(skipped, ctx.retired_states()))
}

/// The record's inode is the file's. Without a record, inode zero counts as the same.
pub open spec fn keeps_inode(ctx: FileContext) -> bool {
    ctx.facts.inode == match ctx.primary() {
        Some(s) => s.inode,
        None => 0,
    }
}

/// The fingerprints of a file. A compressed file whose inode is that of its record keeps the
/// record's decompressed size and head; otherwise only its decompressed head is computed.
pub open spec fn fingerprints_of(ctx: FileContext, raw: Seq<u8>) -> Result<
    Fingerprints,
    DecodeError,
> {
    let size = ctx.facts.stat_size;
    if !ctx.is_compressed() {
        let fp = plain_fingerprint(raw, size);
        Ok(
            Fingerprints {
                compressed_head: None,
                uncompressed_head: match fp {
                    Some(f) => Some(f.head),
                    None => None,
                },
                uncompressed_size: match fp {
                    Some(f) => f.logical_size,
                    None => 0,
                },
            },
        )
    } else if keeps_inode(ctx) {
        Ok(
            Fingerprints {
                compressed_head: head_hash(head_of(raw, size as int)),
                uncompressed_head: match ctx.primary() {
                    Some(s) => s.uncompressed_head_fingerprint,
                    None => None,
                },
                uncompressed_size: match ctx.primary() {
                    Some(s) => s.uncompressed_size,
                    None => 0,
                },
            },
        )
    } else {
        let (contents, ok) = decoded(raw, ctx.facts.compression, FINGERPRINT_SAMPLE as u64);
        if ok {
            Ok(
                Fingerprints {
                    compressed_head: head_hash(head_of(raw, size as int)),
                    uncompressed_head: head_hash(contents),
                    uncompressed_size: 0,
                },
            )
        } else {
            Err(DecodeError)
        }
    }
}

/// Whether the fingerprints of a file need some of its decompressed bytes, and not only its first
/// `FINGERPRINT_SAMPLE` raw ones.
pub fn needs_decompression(ctx: &FileContext) -> (r: bool)
    ensures
        r == (ctx.is_compressed() && !keeps_inode(*ctx)),
{
    ctx.facts.compression.is_compressed() && ctx.facts.inode != match ctx.primary_ref() {
        Some(s) => s.inode,
        None => 0,
    }
}

/// Computes the fingerprints of a file from its bytes.
pub fn compute_fingerprints(ctx: &FileContext, raw: &[u8]) -> (r: Result<Fingerprints, DecodeError>)
    ensures
        r == fingerprints_of(*ctx, raw@),
{
    let size: u64 = ctx.facts.stat_size;
    if !ctx.facts.compression.is_compressed() {
        let head = compute_compressed_head_fingerprint(size, raw);
        return Ok(
            Fingerprints {
                compressed_head: None,
                uncompressed_head: head,
                uncompressed_size: match head {
                    Some(_) => size,
                    None => 0,
                },
            },
        );
    }
    let compressed_head = compute_compressed_head_fingerprint(size, raw);
    if needs_decompression(ctx) {
        match compute_decompressed_head_fingerprint(raw, ctx.facts.compression) {
            Ok(uncompressed_head) => Ok(
                Fingerprints { compressed_head, uncompressed_head, uncompressed_size: 0 },
            ),
            Err(e) => Err(e),
        }
    } else {
        match ctx.primary_ref() {
            Some(s) => Ok(
                Fingerprints {
                    compressed_head,
                    uncompressed_head: s.uncompressed_head_fingerprint,
                    uncompressed_size: s.uncompressed_size,
                },
            ),
            None => Ok(
                Fingerprints { compressed_head, uncompressed_head: None, uncompressed_size: 0 },
            ),
        }
    }
}

/// What is known of a file so far.
pub enum Known<'a> {
    /// What the file system says.
    Facts,
    /// And the fingerprints.
    Fingerprints(Fingerprints),
    /// And the record that has the file's head, if one has.
    Head(Fingerprints, Option<&'a ParseState>),
    /// And the decompressed size of a completed file that has the same identity, if there is one.
    Duplicate(Fingerprints, Option<&'a ParseState>, Option<u64>),
}

/// The record to look up by its head: by the raw head first, then by the decompressed one.
#[derive(Debug, Clone, Copy, PartialEq, Eq, Structural)]
pub struct HeadQuery {
    pub compressed: Option<u64>,
    pub uncompressed: Option<u64>,
}

/// The identity of a completed file to look up.
#[derive(Debug, Clone, Copy, PartialEq, Eq, Structural)]
pub enum DuplicateQuery {
    Compressed { head: u64, size: u64 },
    Uncompressed { head: u64, size: u64 },
}

/// What to do next about a file.
pub enum Step {
    /// The file is decided.
    Done(ResolutionOutcome),
    /// Its fingerprints are needed.
    ReadFile,
    /// A record with its head is needed.
    FindHead(HeadQuery),
    /// A completed file with its identity is needed.
    FindDuplicate(DuplicateQuery),
}

/// A step by its values.
pub enum StepView {
    Done(OutcomeView),
    ReadFile,
    FindHead(HeadQuery),
    FindDuplicate(DuplicateQuery),
}

impl Step {
    pub open spec fn view(&self) -> StepView {
        match self {
            Step::Done(o) => StepView::Done(o@),
            Step::ReadFile => StepView::ReadFile,
            Step::FindHead(q) => StepView::FindHead(*q),
            Step::FindDuplicate(q) => StepView::FindDuplicate(*q),
        }
    }
}

/// The raw head and size are those of the completed record of the same inode.
pub open spec fn same_compressed_file(ctx: FileContext, fps: Fingerprints) -> bool {
    ctx.is_compressed() && match ctx.primary() {
        Some(s) => {
            &&& s.completed
            &&& s.inode == ctx.facts.inode
            &&& (s.mtime_ns == 0 || s.mtime_ns == ctx.facts.mtime_ns)
            &&& s.compressed_size == ctx.facts.stat_size
            &&& s.compressed_head_fingerprint == fps.compressed_head
        },
        None => false,
    }
}

/// A record with the same head is looked for only where there is no record of the path or inode,
/// or where the path's inode has changed: the record of a file's own inode is authoritative.
pub open spec fn wants_head(ctx: FileContext) -> bool {
    (ctx.by_path is None && ctx.by_inode is None) || ctx.inode_changed()
}

/// The heads to look for.
pub open spec fn head_query(ctx: FileContext, fps: Fingerprints) -> HeadQuery {
    HeadQuery {
        compressed: if ctx.is_compressed() {
            fps.compressed_head
        } else {
            None
        },
        uncompressed: fps.uncompressed_head,
    }
}

/// No duplicate is looked for where the path's record is of the same inode and the file has
/// grown, or where a record of the inode exists and the path's inode has not changed.
pub open spec fn trusts_record(ctx: FileContext) -> bool {
    ||| ctx.by_path is Some && ctx.by_path->0.inode == ctx.facts.inode && ctx.facts.stat_size
        > stored_size(ctx.by_path->0, ctx.is_compressed())
    ||| ctx.by_inode is Some && !ctx.inode_changed()
}

/// The identity under which a completed duplicate is looked for.
pub open spec fn duplicate_query(ctx: FileContext, fps: Fingerprints) -> Option<DuplicateQuery> {
    if trusts_record(ctx) {
        None
    } else if ctx.is_compressed() {
        match fps.compressed_head {
            Some(head) => Some(DuplicateQuery::Compressed { head, size: ctx.facts.stat_size }),
            None => None,
        }
    } else {
        match fps.uncompressed_head {
            Some(head) => if fps.uncompressed_size > 0 {
                Some(DuplicateQuery::Uncompressed { head, size: fps.uncompressed_size })
            } else {
                None
            },
            None => None,
        }
    }
}

/// The date before which entries are left out: that of the path's record, else of the inode's.
pub open spec fn skip_before(ctx: FileContext) -> Option<i64> {
    if ctx.by_path is Some && ctx.by_path->0.skip_before_ts is Some {
        ctx.by_path->0.skip_before_ts
    } else if ctx.by_inode is Some {
        ctx.by_inode->0.skip_before_ts
    } else {
        None
    }
}

/// The relation of the file to its record.
pub open spec fn context_relation(
    ctx: FileContext,
    fps: Fingerprints,
    head_match: Option<&ParseState>,
) -> FileRelation {
    relation_of(
        ctx.primary(),
        head_match,
        ctx.filepath@,
        ctx.facts.inode,
        ctx.facts.stat_size,
        ctx.facts.mtime_ns,
        ctx.is_compressed(),
        ctx.inode_changed(),
        fps,
    )
}

/// The plan that reads a file from a resume point on.
pub open spec fn plan_at(ctx: FileContext, fps: Fingerprints, point: ResumePoint) -> FileResumePlan {
    FileResumePlan {
        current_inode: ctx.facts.inode,
        stat_size: ctx.facts.stat_size,
        mtime_ns: ctx.facts.mtime_ns,
        compression: ctx.facts.compression,
        offset: match point {
            ResumePoint::PlainOffset(n) => n,
            _ => 0,
        },
        skip_decoded_prefix_bytes: match point {
            ResumePoint::DecodedOffset(n) => n,
            _ => 0,
        },
        uncompressed_size: Some(fps.uncompressed_size),
        compressed_head_fingerprint: fps.compressed_head,
        uncompressed_head_fingerprint: fps.uncompressed_head,
        skip_before_ts: skip_before(ctx),
    }
}

/// The decision once everything is known.
pub open spec fn final_outcome(
    ctx: FileContext,
    fps: Fingerprints,
    head_match: Option<&ParseState>,
    duplicate: Option<u64>,
) -> OutcomeView {
    let point = point_of(
        context_relation(ctx, fps, head_match),
        ctx.primary(),
        ctx.facts.stat_size,
        ctx.is_compressed(),
    );
    if duplicate is Some {
        OutcomeView {
            plan: None,
            skipped: Some(
                completed_of(
                    ctx.filepath@,
                    ctx.facts,
                    if ctx.is_compressed() {
                        duplicate->0
                    } else {
                        fps.uncompressed_size
                    },
                    fps,
                ),
            ),
            retired: ctx.retired(),
        }
    } else if point == ResumePoint::Skip {
        OutcomeView {
            plan: None,
            skipped: alias_with_fps_of(*ctx.primary()->0, ctx.filepath@, ctx.facts, fps),
            retired: ctx.retired(),
        }
    } else {
        OutcomeView {
            plan: Some(plan_at(ctx, fps, point)),
            skipped: None,
            retired: ctx.retired(),
        }
    }
}

/// The step after the head was looked for.
pub open spec fn step_after_head(
    ctx: FileContext,
    fps: Fingerprints,
    head_match: Option<&ParseState>,
) -> StepView {
    match duplicate_query(ctx, fps) {
        Some(q) => StepView::FindDuplicate(q),
        None => StepView::Done(final_outcome(ctx, fps, head_match, None)),
    }
}

/// The next step about a file.
pub open spec fn step_of(ctx: FileContext, known: Known) -> StepView {
    match known {
        Known::Facts => match cheap_outcome(ctx) {
            Some(o) => StepView::Done(o),
            None => StepView::ReadFile,
        },
        Known::Fingerprints(fps) => if same_compressed_file(ctx, fps) {
            StepView::Done(
                OutcomeView {
                    plan: None,
                    skipped: alias_with_fps_of(*ctx.primary()->0, ctx.filepath@, ctx.facts, fps),
                    retired: ctx.retired(),
                },
            )
        } else if wants_head(ctx) {
            StepView::FindHead(head_query(ctx, fps))
        } else {
            step_after_head(ctx, fps, None)
        },
        Known::Head(fps, head_match) => step_after_head(ctx, fps, head_match),
        Known::Duplicate(fps, head_match, duplicate) => StepView::Done(
            final_outcome(ctx, fps, head_match, duplicate),
        ),
    }
}

fn finish(
    ctx: &FileContext,
    fps: &Fingerprints,
    head_match: Option<&ParseState>,
    duplicate: Option<u64>,
) -> (r: ResolutionOutcome)
    ensures
        r@ == final_outcome(*ctx, *fps, head_match, duplicate),
{
    let is_compressed: bool = ctx.facts.compression.is_compressed();
    let primary = ctx.primary_ref();
    let retired = ctx.retired_states();
    if let Some(size) = duplicate {
        let size: u64 = if is_compressed {
            size
        } else {
            fps.uncompressed_size
        };
        let update = completed_parse_state_update(ctx.filepath.as_str(), &ctx.facts, size, fps);
        return ResolutionOutcome::skip(Some(update), retired);
    }
    let relation = classify_relation(
        primary,
        head_match,
        ctx.filepath.as_str(),
        ctx.facts.inode,
        ctx.facts.stat_size,
        ctx.facts.mtime_ns,
        is_compressed,
        ctx.inode_changed_for_path(),
        fps,
    );
    let point = derive_resume_point(
        &relation,
        primary,
        head_match,
        ctx.facts.stat_size,
        is_compressed,
    );
    let (offset, prefix): (u64, u64) = match point {
        ResumePoint::Skip => {
            let skipped = match primary {
                Some(state) => alias_update_with_fps(
                    state,
                    ctx.filepath.as_str(),
                    &ctx.facts,
                    fps,
                ),
                None => None,
            };
            return ResolutionOutcome::skip(skipped, retired);
        },
        ResumePoint::PlainOffset(n) => (n, 0),
        ResumePoint::DecodedOffset(n) => (0, n),
        ResumePoint::FromZero => (0, 0),
    };
    let by_path_ts = match &ctx.by_path {
        Some(s) => s.skip_before_ts,
        None => None,
    };
    let skip_before_ts = match by_path_ts {
        Some(t) => Some(t),
        None => match &ctx.by_inode {
            Some(s) => s.skip_before_ts,
            None => None,
        },
    };
    ResolutionOutcome::resume(
        FileResumePlan {
            current_inode: ctx.facts.inode,
            stat_size: ctx.facts.stat_size,
            mtime_ns: ctx.facts.mtime_ns,
            compression: ctx.facts.compression,
            offset,
            skip_decoded_prefix_bytes: prefix,
            uncompressed_size: Some(fps.uncompressed_size),
            compressed_head_fingerprint: fps.compressed_head,
            uncompressed_head_fingerprint: fps.uncompressed_head,
            skip_before_ts,
        },
        retired,
    )
}

/// What to look up as a completed duplicate, if anything.
pub fn check_global_dedup(ctx: &FileContext, fps: &Fingerprints) -> (r: Option<DuplicateQuery>)
    ensures
        r == duplicate_query(*ctx, *fps),
{
    let is_compressed: bool = ctx.facts.compression.is_compressed();
    let grown_in_place: bool = match &ctx.by_path {
        Some(s) => {
            let prev: u64 = if is_compressed {
                s.compressed_size
            } else {
                s.uncompressed_size
            };
            s.inode == ctx.facts.inode && ctx.facts.stat_size > prev
        },
        None => false,
    };
    if grown_in_place || (ctx.by_inode.is_some() && !ctx.inode_changed_for_path()) {
        return None;
    }
    if is_compressed {
        match fps.compressed_head {
            Some(head) => Some(DuplicateQuery::Compressed { head, size: ctx.facts.stat_size }),
            None => None,
        }
    } else {
        match fps.uncompressed_head {
            Some(head) if fps.uncompressed_size > 0 => Some(
                DuplicateQuery::Uncompressed { head, size: fps.uncompressed_size },
            ),
            _ => None,
        }
    }
}

fn after_head(ctx: &FileContext, fps: &Fingerprints, head_match: Option<&ParseState>) -> (r: Step)
    ensures
        r@ == step_after_head(*ctx, *fps, head_match),
{
    match check_global_dedup(ctx, fps) {
        Some(q) => Step::FindDuplicate(q),
        None => Step::Done(finish(ctx, fps, head_match, None)),
    }
}

/// Decides about a file from what is known of it, or says what must be known next.
pub fn resolve_resume_plan(ctx: &FileContext, known: Known) -> (r: Step)
    ensures
        r@ == step_of(*ctx, known),
{
    match known {
        Known::Facts => match resolve_cheap(ctx) {
            Some(o) => Step::Done(o),
            None => Step::ReadFile,
        },
        Known::Fingerprints(fps) => {
            let is_compressed: bool = ctx.facts.compression.is_compressed();
            if let Some(state) = ctx.primary_ref() {
                if is_compressed && state.completed && state.inode == ctx.facts.inode && (
                state.mtime_ns == 0 || state.mtime_ns == ctx.facts.mtime_ns)
                    && state.compressed_size == ctx.facts.stat_size
                    && state.compressed_head_fingerprint == fps.compressed_head {
                    let skipped = alias_update_with_fps(
                        state,
                        ctx.filepath.as_str(),
                        &ctx.facts,
                        &fps,
                    );
                    return Step::Done(ResolutionOutcome::skip(skipped, ctx.retired_states()));
                }
            }
            if (ctx.by_path.is_none() && ctx.by_inode.is_none()) || ctx.inode_changed_for_path() {
                Step::FindHead(
                    HeadQuery {
                        compressed: if is_compressed {
                            fps.compressed_head
                        } else {
                            None
                        },
                        uncompressed: fps.uncompressed_head,
                    },
                )
            } else {
                after_head(ctx, &fps, None)
            }
        },
        Known::Head(fps, head_match) => after_head(ctx, &fps, head_match),
        Known::Duplicate(fps, head_match, duplicate) => Step::Done(
            finish(ctx, &fps, head_match, duplicate),
        ),
    }
}

/// The record that a head query finds: by the raw head if one has it, else by the decompressed
/// head.
pub open spec fn found_head<'a>(
    q: HeadQuery,
    by_compressed: Option<&'a ParseState>,
    by_uncompressed: Option<&'a ParseState>,
) -> Option<&'a ParseState> {
    if q.compressed is Some && by_compressed is Some {
        by_compressed
    } else if q.uncompressed is Some {
        by_uncompressed
    } else {
        None
    }
}

/// The record that a head query finds, from what each of its heads finds.
pub fn find_head_match_state<'a>(
    q: &HeadQuery,
    by_compressed: Option<&'a ParseState>,
    by_uncompressed: Option<&'a ParseState>,
) -> (r: Option<&'a ParseState>)
    ensures
        r == found_head(*q, by_compressed, by_uncompressed),
{
    if q.compressed.is_some() && by_compressed.is_some() {
        return by_compressed;
    }
    if q.uncompressed.is_some() {
        return by_uncompressed;
    }
    None
}

// ── The first timestamp of a file ───────────────────────────────────────────

/// How many lines are tried for a first timestamp.
pub const FIRST_LINE_TRIES: usize = 20;

/// How many raw bytes of a file are read for its first timestamp.
pub const FIRST_LINE_SAMPLE: usize = 8_192;

/// A line without the carriage returns at its end.
pub open spec fn without_returns(line: Seq<u8>) -> Seq<u8>
    decreases line.len(),
{
    if line.len() > 0 && line.last() == CARRIAGE_RETURN {
        without_returns(line.drop_last())
    } else {
        line
    }
}

/// The time of the first line, of the next `tries`, that is a log line; `None` where none is, where
/// a line is not valid UTF-8, or where an error cut the text off in the middle of a line.
pub open spec fn first_time(text: Seq<u8>, ended: bool, tries: nat) -> Option<int>
    decreases tries,
{
    let end = until(text, 0, NEWLINE);
    let whole = if end < text.len() {
        text.take(end + 1)
    } else {
        text
    };
    if tries == 0 || text.len() == 0 || (end >= text.len() && !ended) || !valid_utf8(whole) {
        None
    } else {
        match entry_of(without_returns(text.take(end))) {
            Some(e) => unix_time(e.time, e.month_num as int),
            None => first_time(text.skip(whole.len() as int), ended, (tries - 1) as nat),
        }
    }
}

fn trimmed_len(line: &[u8], end: usize) -> (r: usize)
    requires
        end <= line@.len(),
    ensures
        r <= end,
        line@.take(r as int) == without_returns(line@.take(end as int)),
        r < end ==> line@[r as int] == CARRIAGE_RETURN,
{
    let mut n: usize = end;
    while n > 0 && line[n - 1] == CARRIAGE_RETURN
        invariant
            n <= end <= line@.len(),
            without_returns(line@.take(end as int)) == without_returns(line@.take(n as int)),
            n < end ==> line@[n as int] == CARRIAGE_RETURN,
        decreases n,
    {
        assert(line@.take(n as int).drop_last() =~= line@.take(n - 1));
        n -= 1;
    }
    n
}

/// Reads one line, which ends at `end`: not text at all, no log line, or a log line.
fn read_line(whole: &[u8], end: usize) -> (r: Option<Option<LogEntry>>)
    requires
        end <= whole@.len(),
        end < whole@.len() ==> whole@[end as int] == NEWLINE,
    ensures
        r is Some == valid_utf8(whole@),
        r matches Some(None) ==> entry_of(without_returns(whole@.take(end as int))) is None,
        r matches Some(Some(e)) ==> e.wf() && entry_of(without_returns(whole@.take(end as int)))
            == Some(e@),
{
    let line = match utf8_str(whole) {
        Some(s) => s,
        None => return None,
    };
    let n: usize = trimmed_len(whole, end);
    proof {
        encode_utf8_valid_utf8(line@);
        lemma_boundary_ends(line);
        if n < whole@.len() {
            lemma_ascii_boundary(line, n as int);
        }
    }
    let trimmed = slice_str(line, 0, n);
    assert(trimmed.spec_bytes() =~= without_returns(whole@.take(end as int)));
    Some(parse_line(trimmed))
}

/// A time by its value, where there is one.
pub open spec fn opt_time(t: Option<i64>) -> Option<int> {
    match t {
        Some(t) => Some(t as int),
        None => None,
    }
}

/// The time of the first log line in decompressed text.
pub fn first_line_time(text: &[u8], ended: bool) -> (r: Option<i64>)
    ensures
        opt_time(r) == first_time(text@, ended, FIRST_LINE_TRIES as nat),
{
    let len: usize = text.len();
    let mut start: usize = 0;
    let mut tried: usize = 0;
    assert(text@.skip(0) =~= text@);
    while tried < FIRST_LINE_TRIES
        invariant
            len == text@.len(),
            0 <= start <= len,
            0 <= tried <= FIRST_LINE_TRIES,
            first_time(text@, ended, FIRST_LINE_TRIES as nat) == first_time(
                text@.skip(start as int),
                ended,
                (FIRST_LINE_TRIES - tried) as nat,
            ),
        decreases FIRST_LINE_TRIES - tried,
    {
        let ghost t = text@.skip(start as int);
        let rest = vstd::slice::slice_subrange(text, start, len);
        assert(rest@ =~= t);
        if rest.len() == 0 {
            return None;
        }
        let end: usize = scan_until(rest, 0, NEWLINE);
        if end >= rest.len() && !ended {
            return None;
        }
        let whole_len: usize = if end < rest.len() {
            end + 1
        } else {
            end
        };
        let whole = vstd::slice::slice_subrange(rest, 0, whole_len);
        proof {
            assert(whole@ =~= if end < t.len() {
                t.take(end + 1)
            } else {
                t
            });
            assert(whole@.take(end as int) =~= t.take(end as int));
        }
        match read_line(whole, end) {
            None => {
                return None;
            },
            Some(Some(entry)) => {
                proof {
                    entry.lemma_plain_fields();
                }
                return parse_unix_timestamp(entry.time_str(), entry.month_num);
            },
            Some(None) => {},
        }
        start += whole_len;
        tried += 1;
        assert(text@.skip(start as int) =~= t.skip(whole_len as int));
    }
    None
}

/// The time of the first log line of a file, from its path and its first `FIRST_LINE_SAMPLE` raw
/// bytes. `None` where they hold none. Of compressed bytes that end in an error, only the part counts
/// that was decompressed before it.
pub fn read_first_line_ts(filepath: &str, sample: &[u8]) -> (r: Option<i64>)
    ensures
        ({
            let (text, ended) = decoded(
                sample@,
                compression_of(filepath.spec_bytes()),
                u64::MAX,
            );
            opt_time(r) == first_time(text, ended, FIRST_LINE_TRIES as nat)
        }),
{
    let (text, ended) = decode(sample, CompressionType::from_path(filepath), u64::MAX);
    first_line_time(text.as_slice(), ended)
}

/// A text that an error cut off gives no wrong time: where its lines give one, the whole text gives
/// the same.
pub proof fn law_cut_text_gives_no_other_time(
    text: Seq<u8>,
    whole: Seq<u8>,
    ended: bool,
    tries: nat,
)
    requires
        text.is_prefix_of(whole),
        first_time(text, false, tries) is Some,
    ensures
        first_time(whole, ended, tries) == first_time(text, false, tries),
    decreases tries,
{
    let end = until(text, 0, NEWLINE);
    lemma_until(text, 0, NEWLINE);
    lemma_until(whole, 0, NEWLINE);
    assert(text[end] == whole[end]);
    let other = until(whole, 0, NEWLINE);
    assert(other == end) by {
        if other < end {
            assert(text[other] == whole[other]);
        }
    }
    assert(text.take(end + 1) =~= whole.take(end + 1));
    assert(text.take(end) =~= whole.take(end));
    if entry_of(without_returns(text.take(end))) is None {
        let x = text.skip(end + 1);
        let y = whole.skip(end + 1);
        assert(x.is_prefix_of(y)) by {
            assert(x =~= y.subrange(0, x.len() as int));
        }
        law_cut_text_gives_no_other_time(x, y, ended, (tries - 1) as nat);
    }
}

// ── What holds of every decision ────────────────────────────────────────────

/// Finished relations skip the file, and extended ones never start over.
pub proof fn law_relation_fixes_action(
    relation: FileRelation,
    primary: Option<&ParseState>,
    stat_size: u64,
    is_compressed: bool,
)
    ensures
        ({
            let point = point_of(relation, primary, stat_size, is_compressed);
            &&& (relation is Identical || relation is AliasPath) == (point is Skip)
            &&& (relation is Unrelated) == (point is FromZero)
            &&& point matches ResumePoint::PlainOffset(n) ==> n <= stat_size
        }),
{
}

/// A compressed file is never read from a raw offset, and a plain one never has decoded bytes
/// dropped, whatever the records say.
pub proof fn law_offsets_fit_the_file(
    primary: Option<&ParseState>,
    head_match: Option<&ParseState>,
    filepath: Seq<char>,
    inode: u64,
    stat_size: u64,
    mtime_ns: i64,
    is_compressed: bool,
    inode_changed_for_path: bool,
    fps: Fingerprints,
)
    ensures
        ({
            let relation = relation_of(
                primary,
                head_match,
                filepath,
                inode,
                stat_size,
                mtime_ns,
                is_compressed,
                inode_changed_for_path,
                fps,
            );
            let point = point_of(relation, primary, stat_size, is_compressed);
            &&& is_compressed ==> point !is PlainOffset
            &&& !is_compressed ==> point !is DecodedOffset
        }),
{
}

/// A file that has shrunk is read anew: none of its stored offsets is used.
pub proof fn law_shrunk_file_restarts(
    state: &ParseState,
    head_match: Option<&ParseState>,
    filepath: Seq<char>,
    inode: u64,
    stat_size: u64,
    mtime_ns: i64,
    is_compressed: bool,
    inode_changed_for_path: bool,
    fps: Fingerprints,
)
    requires
        stat_size < stored_size(*state, is_compressed),
    ensures
        relation_of(
            Some(state),
            head_match,
            filepath,
            inode,
            stat_size,
            mtime_ns,
            is_compressed,
            inode_changed_for_path,
            fps,
        ) == FileRelation::Unrelated,
        point_of(FileRelation::Unrelated, Some(state), stat_size, is_compressed)
            == ResumePoint::FromZero,
{
}

/// A file is skipped on its contents only where a completed record of the same size and head
/// exists.
pub proof fn law_skip_needs_completed(
    primary: Option<&ParseState>,
    head_match: Option<&ParseState>,
    filepath: Seq<char>,
    inode: u64,
    stat_size: u64,
    mtime_ns: i64,
    is_compressed: bool,
    inode_changed_for_path: bool,
    fps: Fingerprints,
)
    ensures
        ({
            let relation = relation_of(
                primary,
                head_match,
                filepath,
                inode,
                stat_size,
                mtime_ns,
                is_compressed,
                inode_changed_for_path,
                fps,
            );
            point_of(relation, primary, stat_size, is_compressed) is Skip ==> primary is Some
                && same_plain_file(
                *primary->0,
                filepath,
                inode,
                stat_size,
                mtime_ns,
                is_compressed,
                fps,
            )
        }),
{
}

/// A plain file that was processed and is later found compressed, with the same head, resumes
/// behind what was processed: it is neither skipped nor counted twice.
pub proof fn law_rotation_resumes(
    state: &ParseState,
    head_match: Option<&ParseState>,
    filepath: Seq<char>,
    inode: u64,
    stat_size: u64,
    mtime_ns: i64,
    inode_changed_for_path: bool,
    fps: Fingerprints,
)
    requires
        state.compressed_size == 0,
        state.uncompressed_offset > 0,
        fps.uncompressed_head is Some,
        fps.uncompressed_head == state.uncompressed_head_fingerprint,
    ensures
        ({
            let relation = relation_of(
                Some(state),
                head_match,
                filepath,
                inode,
                stat_size,
                mtime_ns,
                true,
                inode_changed_for_path,
                fps,
            );
            point_of(relation, Some(state), stat_size, true) == ResumePoint::DecodedOffset(
                state.uncompressed_offset,
            )
        }),
{
}

/// A decision reads the file or skips it, never both, and a plan stays inside the file: a plain
/// file is read from an offset within its size, a compressed one from its start.
pub proof fn law_plan_is_sound(ctx: FileContext, known: Known)
    ensures
        step_of(ctx, known) matches StepView::Done(o) ==> {
            &&& o.plan is Some ==> o.skipped is None
            &&& o.retired == ctx.retired()
            &&& o.plan matches Some(p) ==> {
                &&& p.current_inode == ctx.facts.inode
                &&& p.stat_size == ctx.facts.stat_size
                &&& p.offset <= p.stat_size
                &&& p.compression == CompressionType::Plain ==> p.skip_decoded_prefix_bytes == 0
                &&& p.compression != CompressionType::Plain ==> p.offset == 0
            }
            &&& o.skipped matches Some(s) ==> s.completed && s.filepath == ctx.filepath@
        },
{
}

/// A file that nothing has touched since it was completed is skipped at once.
pub proof fn law_unchanged_file_skips(ctx: FileContext)
    requires
        ctx.primary() is Some,
        unchanged(
            *ctx.primary()->0,
            ctx.facts.inode,
            ctx.facts.stat_size,
            ctx.facts.mtime_ns,
            ctx.is_compressed(),
        ),
    ensures
        step_of(ctx, Known::Facts) matches StepView::Done(o) && o.plan is None,
{
}

} // verus!
