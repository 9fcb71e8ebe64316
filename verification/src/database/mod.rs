//! Rows of the database, and what is decided about them.

use vstd::prelude::*;

pub mod ips;
pub mod ledger;
pub mod parse_state;
pub mod ranks;
pub mod standing;
pub mod writer;

verus! {

/// What is stored of a log file between runs.
#[derive(Debug)]
pub struct ParseState {
    pub filepath: String,
    pub inode: u64,
    pub compressed_size: u64,
    pub uncompressed_size: u64,
    pub compressed_head_fingerprint: Option<u64>,
    pub uncompressed_head_fingerprint: Option<u64>,
    pub compressed_offset: u64,
    pub uncompressed_offset: u64,
    pub mtime_ns: i64,
    pub completed: bool,
    pub earliest_ts: Option<i64>,
    pub latest_ts: Option<i64>,
    pub skip_before_ts: Option<i64>,
}

/// What is to be stored of a log file.
#[derive(Debug)]
pub struct ParseStateUpdate {
    pub filepath: String,
    pub inode: u64,
    pub compressed_size: u64,
    pub uncompressed_size: u64,
    pub compressed_head_fingerprint: Option<u64>,
    pub uncompressed_head_fingerprint: Option<u64>,
    pub compressed_offset: u64,
    pub uncompressed_offset: u64,
    pub mtime_ns: i64,
    pub completed: bool,
    pub earliest_ts: Option<i64>,
    pub latest_ts: Option<i64>,
}

/// A file's record by its values; the path by its characters.
pub struct StateView {
    pub filepath: Seq<char>,
    pub inode: u64,
    pub compressed_size: u64,
    pub uncompressed_size: u64,
    pub compressed_head_fingerprint: Option<u64>,
    pub uncompressed_head_fingerprint: Option<u64>,
    pub compressed_offset: u64,
    pub uncompressed_offset: u64,
    pub mtime_ns: i64,
    pub completed: bool,
    pub earliest_ts: Option<i64>,
    pub latest_ts: Option<i64>,
}

impl ParseState {
    /// The values that a record shares with an update.
    pub open spec fn view(&self) -> StateView {
        StateView {
            filepath: self.filepath@,
            inode: self.inode,
            compressed_size: self.compressed_size,
            uncompressed_size: self.uncompressed_size,
            compressed_head_fingerprint: self.compressed_head_fingerprint,
            uncompressed_head_fingerprint: self.uncompressed_head_fingerprint,
            compressed_offset: self.compressed_offset,
            uncompressed_offset: self.uncompressed_offset,
            mtime_ns: self.mtime_ns,
            completed: self.completed,
            earliest_ts: self.earliest_ts,
            latest_ts: self.latest_ts,
        }
    }
}

impl Clone for ParseState {
    fn clone(&self) -> (r: ParseState)
        ensures
            r@ == self@,
            r.skip_before_ts == self.skip_before_ts,
    {
        ParseState {
            filepath: self.filepath.clone(),
            inode: self.inode,
            compressed_size: self.compressed_size,
            uncompressed_size: self.uncompressed_size,
            compressed_head_fingerprint: self.compressed_head_fingerprint,
            uncompressed_head_fingerprint: self.uncompressed_head_fingerprint,
            compressed_offset: self.compressed_offset,
            uncompressed_offset: self.uncompressed_offset,
            mtime_ns: self.mtime_ns,
            completed: self.completed,
            earliest_ts: self.earliest_ts,
            latest_ts: self.latest_ts,
            skip_before_ts: self.skip_before_ts,
        }
    }
}

impl ParseStateUpdate {
    pub open spec fn view(&self) -> StateView {
        StateView {
            filepath: self.filepath@,
            inode: self.inode,
            compressed_size: self.compressed_size,
            uncompressed_size: self.uncompressed_size,
            compressed_head_fingerprint: self.compressed_head_fingerprint,
            uncompressed_head_fingerprint: self.uncompressed_head_fingerprint,
            compressed_offset: self.compressed_offset,
            uncompressed_offset: self.uncompressed_offset,
            mtime_ns: self.mtime_ns,
            completed: self.completed,
            earliest_ts: self.earliest_ts,
            latest_ts: self.latest_ts,
        }
    }

    /// The update that stores a record as it stands.
    pub fn from_state(state: &ParseState) -> (r: ParseStateUpdate)
        ensures
            r@ == state@,
    {
        ParseStateUpdate {
            filepath: state.filepath.clone(),
            inode: state.inode,
            compressed_size: state.compressed_size,
            uncompressed_size: state.uncompressed_size,
            compressed_head_fingerprint: state.compressed_head_fingerprint,
            uncompressed_head_fingerprint: state.uncompressed_head_fingerprint,
            compressed_offset: state.compressed_offset,
            uncompressed_offset: state.uncompressed_offset,
            mtime_ns: state.mtime_ns,
            completed: state.completed,
            earliest_ts: state.earliest_ts,
            latest_ts: state.latest_ts,
        }
    }
}

impl Clone for ParseStateUpdate {
    fn clone(&self) -> (r: ParseStateUpdate)
        ensures
            r@ == self@,
    {
        ParseStateUpdate {
            filepath: self.filepath.clone(),
            inode: self.inode,
            compressed_size: self.compressed_size,
            uncompressed_size: self.uncompressed_size,
            compressed_head_fingerprint: self.compressed_head_fingerprint,
            uncompressed_head_fingerprint: self.uncompressed_head_fingerprint,
            compressed_offset: self.compressed_offset,
            uncompressed_offset: self.uncompressed_offset,
            mtime_ns: self.mtime_ns,
            completed: self.completed,
            earliest_ts: self.earliest_ts,
            latest_ts: self.latest_ts,
        }
    }
}

/// A visitor in the columns of a row: the kind and halves of an address, or a text.
#[derive(Debug, Clone)]
pub struct VisitStateKey {
    pub ip_kind: u8,
    pub ip_hi: u64,
    pub ip_lo: u64,
    pub ip_text: String,
}

/// When a visitor was last seen.
#[derive(Debug, Clone)]
pub struct VisitStateUpdate {
    pub key: VisitStateKey,
    pub last_seen_ts: i64,
}

impl VisitStateKey {
    pub open spec fn view(&self) -> (u8, u64, u64, Seq<char>) {
        (self.ip_kind, self.ip_hi, self.ip_lo, self.ip_text@)
    }
}

/// Rows of visitors by their values.
pub open spec fn visit_rows(rows: Seq<VisitStateUpdate>) -> Seq<((u8, u64, u64, Seq<char>), i64)> {
    Seq::new(rows.len(), |i: int| (rows[i].key@, rows[i].last_seen_ts))
}

} // verus!
