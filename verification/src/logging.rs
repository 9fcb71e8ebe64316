//! Which messages are logged, and how they look.

use vstd::prelude::*;
use vstd::string::*;

verus! {

/// How much is logged.
#[derive(Debug, Clone, Copy, PartialEq, Eq, Structural)]
pub struct Logging {
    pub verbose: bool,
    pub debug: u8,
}

/// A message as it is logged.
pub open spec fn log_line(timestamp: Seq<char>, msg: Seq<char>) -> Seq<char> {
    timestamp + " "@ + msg
}

/// A line that is logged is one that holds this message.
pub open spec fn logs(r: Option<String>, said: bool, timestamp: Seq<char>, msg: Seq<char>) -> bool {
    match r {
        Some(line) => said && line@ == log_line(timestamp, msg),
        None => !said,
    }
}

fn line(timestamp: &str, msg: &str) -> (r: String)
    ensures
        r@ == log_line(timestamp@, msg@),
{
    let mut s = timestamp.to_owned();
    s.append(" ");
    s.append(msg);
    s
}

impl Logging {
    /// Sets how much is logged.
    pub fn init(verbose: bool, debug: u8) -> (r: Logging)
        ensures
            r == (Logging { verbose, debug }),
    {
        Logging { verbose, debug }
    }

    /// The setting that a number of verbosity flags asks for: the first flag asks for messages, the
    /// second and third for debug messages of the first and second level.
    pub fn from_flags(count: u8) -> (r: Logging)
        ensures
            r.verbose == (count > 0),
            r.debug == if count <= 1 {
                0int
            } else if count == 2 {
                1
            } else {
                2
            },
    {
        Logging {
            verbose: count > 0,
            debug: if count <= 1 {
                0
            } else if count == 2 {
                1
            } else {
                2
            },
        }
    }

    /// Whether messages are logged.
    pub fn verbose(&self) -> (r: bool)
        ensures
            r == self.verbose,
    {
        self.verbose
    }

    /// Up to which level debug messages are logged.
    pub fn debug_level(&self) -> (r: u8)
        ensures
            r == self.debug,
    {
        self.debug
    }

    /// The line of a message, where messages are logged.
    pub fn log(&self, timestamp: &str, msg: &str) -> (r: Option<String>)
        ensures
            logs(r, self.verbose, timestamp@, msg@),
    {
        if self.verbose {
            Some(line(timestamp, msg))
        } else {
            None
        }
    }

    /// The line of a debug message of the first level, where these are logged.
    pub fn log_debug(&self, timestamp: &str, msg: &str) -> (r: Option<String>)
        ensures
            logs(r, self.debug >= 1, timestamp@, msg@),
    {
        self.log_debug_at(1, timestamp, msg)
    }

    /// The line of a debug message of a level, where these are logged.
    pub fn log_debug_at(&self, level: u8, timestamp: &str, msg: &str) -> (r: Option<String>)
        ensures
            logs(r, self.debug >= level, timestamp@, msg@),
    {
        if self.debug >= level {
            Some(line(timestamp, msg))
        } else {
            None
        }
    }
}

} // verus!
