//! What the stages of the pipeline hand to each other.

use std::sync::Arc;

use vstd::prelude::*;

use crate::parser::LogEntry;

verus! {

/// The tables that an entry is left out of.
#[derive(Debug, Clone, Copy, PartialEq, Eq, Structural)]
pub struct HideMask {
    pub urls: bool,
    pub hosts: bool,
    pub refs: bool,
    pub agents: bool,
    pub countries: bool,
}

impl HideMask {
    /// Left out of nothing.
    pub fn none() -> (r: HideMask)
        ensures
            r == nothing_hidden(),
    {
        HideMask { urls: false, hosts: false, refs: false, agents: false, countries: false }
    }
}

/// Left out of nothing.
pub open spec fn nothing_hidden() -> HideMask {
    HideMask { urls: false, hosts: false, refs: false, agents: false, countries: false }
}

/// A parsed log entry whose user agent is resolved.
#[derive(Debug)]
pub struct ParsedEntry {
    pub entry: LogEntry,
    pub ua_family: Arc<String>,
    pub hidden: HideMask,
}

/// From the reader of files to the parser.
#[derive(Debug)]
pub enum LoaderMsg {
    FileStart { file_idx: usize },
    /// Lines with the offsets at which they start, and the offset after the last of them.
    Lines { batch: Vec<(String, u64)>, current_offset: u64 },
    FileDone { file_idx: usize, final_offset: u64, completed: bool },
    Done,
}

/// From the parser to the aggregator.
#[derive(Debug)]
pub enum ParserMsg {
    FileStart { file_idx: usize },
    /// Entries with the offsets at which they start, and the offset after the last of them.
    Entries { batch: Vec<(ParsedEntry, u64)>, current_offset: u64 },
    FileDone { file_idx: usize, final_offset: u64, completed: bool },
    Done,
}

} // verus!
