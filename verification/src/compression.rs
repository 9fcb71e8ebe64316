//! The compression of a log file, told by its name.

use vstd::prelude::*;
use vstd::string::*;

use crate::text::{ends_with, occurs_at};

verus! {

/// How a log file is compressed.
#[derive(Debug, Clone, Copy, PartialEq, Eq, Structural)]
pub enum CompressionType {
    Plain,
    Gz,
    Bz2,
    Br,
}

/// `s` ends in `suffix`.
pub open spec fn has_suffix(s: Seq<u8>, suffix: Seq<u8>) -> bool {
    occurs_at(s, suffix, s.len() - suffix.len())
}

/// The compression that a path's extension tells; case matters.
pub open spec fn compression_of(path: Seq<u8>) -> CompressionType {
    if has_suffix(path, ".gz".spec_bytes()) {
        CompressionType::Gz
    } else if has_suffix(path, ".bz2".spec_bytes()) {
        CompressionType::Bz2
    } else if has_suffix(path, ".br".spec_bytes()) {
        CompressionType::Br
    } else {
        CompressionType::Plain
    }
}

impl CompressionType {
    pub fn from_path(path: &str) -> (r: CompressionType)
        ensures
            r == compression_of(path.spec_bytes()),
    {
        let b = path.as_bytes();
        if ends_with(b, ".gz".as_bytes()) {
            CompressionType::Gz
        } else if ends_with(b, ".bz2".as_bytes()) {
            CompressionType::Bz2
        } else if ends_with(b, ".br".as_bytes()) {
            CompressionType::Br
        } else {
            CompressionType::Plain
        }
    }

    pub fn is_compressed(self) -> (r: bool)
        ensures
            r == (self != CompressionType::Plain),
    {
        !matches!(self, CompressionType::Plain)
    }
}

} // verus!
