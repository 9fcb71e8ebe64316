//! The progress line.

use vstd::prelude::*;
use vstd::string::*;

use crate::doubles::{ratio_string, ratio_text};
use crate::text::{dec_text, push_dec};

verus! {

/// The time of the last checkpoint where there was none.
pub const CHECKPOINT_NONE: u64 = 18_446_744_073_709_551_615;

/// Lines per second, in words.
pub open spec fn lps_text(lps: nat) -> Seq<char> {
    if lps >= 1_000_000 {
        ratio_text(lps, 1_000_000, 1) + "M l/s"@
    } else if lps >= 1_000 {
        ratio_text(lps, 1_000, 0) + "k l/s"@
    } else {
        dec_text(lps) + " l/s"@
    }
}

/// Lines per second, in words.
pub fn format_lps(lps: u64) -> (r: String)
    ensures
        r@ == lps_text(lps as nat),
{
    if lps >= 1_000_000 {
        ratio_string(lps, 1_000_000, 1).concat("M l/s")
    } else if lps >= 1_000 {
        ratio_string(lps, 1_000, 0).concat("k l/s")
    } else {
        let mut s = String::new();
        push_dec(&mut s, lps);
        s.append(" l/s");
        assert(s@ =~= lps_text(lps as nat));
        s
    }
}

/// A number of lines with three digits and a unit.
pub open spec fn lines_text(n: nat) -> Seq<char> {
    if n < 1_000 {
        dec_text(n)
    } else if n < 10_000 {
        ratio_text(n, 1_000, 2) + "k"@
    } else if n < 100_000 {
        ratio_text(n, 1_000, 1) + "k"@
    } else if n < 1_000_000 {
        ratio_text(n, 1_000, 0) + "k"@
    } else if n < 10_000_000 {
        ratio_text(n, 1_000_000, 2) + "M"@
    } else if n < 100_000_000 {
        ratio_text(n, 1_000_000, 1) + "M"@
    } else {
        ratio_text(n, 1_000_000, 0) + "M"@
    }
}

/// A number of lines with three digits and a unit.
pub fn format_lines(n: u64) -> (r: String)
    ensures
        r@ == lines_text(n as nat),
{
    if n < 1_000 {
        let mut s = String::new();
        push_dec(&mut s, n);
        assert(s@ =~= dec_text(n as nat));
        s
    } else if n < 10_000 {
        ratio_string(n, 1_000, 2).concat("k")
    } else if n < 100_000 {
        ratio_string(n, 1_000, 1).concat("k")
    } else if n < 1_000_000 {
        ratio_string(n, 1_000, 0).concat("k")
    } else if n < 10_000_000 {
        ratio_string(n, 1_000_000, 2).concat("M")
    } else if n < 100_000_000 {
        ratio_string(n, 1_000_000, 1).concat("M")
    } else {
        ratio_string(n, 1_000_000, 0).concat("M")
    }
}

/// A time span: hours and minutes, minutes and seconds, or seconds.
pub open spec fn elapsed_text(secs: nat) -> Seq<char> {
    if secs >= 3600 {
        dec_text(secs / 3600) + "h"@ + dec_text((secs % 3600) / 60) + "m"@
    } else if secs >= 60 {
        dec_text(secs / 60) + "m"@ + dec_text(secs % 60) + "s"@
    } else {
        dec_text(secs) + "s"@
    }
}

/// A time span: hours and minutes, minutes and seconds, or seconds.
pub fn format_elapsed(secs: u64) -> (r: String)
    ensures
        r@ == elapsed_text(secs as nat),
{
    let mut s = String::new();
    if secs >= 3600 {
        push_dec(&mut s, secs / 3600);
        s.append("h");
        push_dec(&mut s, (secs % 3600) / 60);
        s.append("m");
    } else if secs >= 60 {
        push_dec(&mut s, secs / 60);
        s.append("m");
        push_dec(&mut s, secs % 60);
        s.append("s");
    } else {
        push_dec(&mut s, secs);
        s.append("s");
    }
    assert(s@ =~= elapsed_text(secs as nat));
    s
}

/// How long the rest takes. `seconds` is what the rate makes of it; `None` where there is no rate.
pub fn format_eta(bytes_done: u64, bytes_total: u64, seconds: Option<u64>) -> (r: String)
    ensures
        r@ == if bytes_done >= bytes_total {
            "done"@
        } else {
            match seconds {
                Some(s) => elapsed_text(s as nat) + " to go"@,
                None => "--"@,
            }
        },
{
    if bytes_done >= bytes_total {
        return "done".to_owned();
    }
    match seconds {
        Some(s) => format_elapsed(s).concat(" to go"),
        None => "--".to_owned(),
    }
}

/// When the totals were last stored, or are due to be.
pub open spec fn checkpoint_text(elapsed: nat, interval: nat, last: nat) -> Seq<char> {
    if interval == 0 {
        "checkpoint disabled"@
    } else if last == CHECKPOINT_NONE {
        if elapsed >= interval {
            "checkpoint due"@
        } else {
            "no checkpoint yet"@
        }
    } else {
        let since = if elapsed >= last {
            (elapsed - last) as nat
        } else {
            0
        };
        if since >= interval {
            "checkpoint due"@
        } else {
            "checkpoint "@ + elapsed_text(since) + " ago"@
        }
    }
}

/// When the totals were last stored, or are due to be.
pub fn format_checkpoint_status(
    elapsed_secs: u64,
    checkpoint_interval_secs: u64,
    checkpoint_last_elapsed_secs: u64,
) -> (r: String)
    ensures
        r@ == checkpoint_text(
            elapsed_secs as nat,
            checkpoint_interval_secs as nat,
            checkpoint_last_elapsed_secs as nat,
        ),
{
    if checkpoint_interval_secs == 0 {
        return "checkpoint disabled".to_owned();
    }
    if checkpoint_last_elapsed_secs == CHECKPOINT_NONE {
        return if elapsed_secs >= checkpoint_interval_secs {
            "checkpoint due".to_owned()
        } else {
            "no checkpoint yet".to_owned()
        };
    }
    let since: u64 = if elapsed_secs >= checkpoint_last_elapsed_secs {
        elapsed_secs - checkpoint_last_elapsed_secs
    } else {
        0
    };
    if since >= checkpoint_interval_secs {
        return "checkpoint due".to_owned();
    }
    let mut s = "checkpoint ".to_owned();
    let span = format_elapsed(since);
    s.append(span.as_str());
    s.append(" ago");
    s
}

/// The month in the progress line; nothing where there is none.
pub open spec fn month_part(month: Seq<char>) -> Seq<char> {
    if month.len() == 0 {
        Seq::empty()
    } else {
        " ["@ + month + "]"@
    }
}

/// What the progress line says.
pub struct ProgressLine<'a> {
    pub timestamp: &'a str,
    pub month: &'a str,
    pub files_done: usize,
    pub files_total: usize,
    pub lines_done: u64,
    pub percent: u64,
    pub lps: u64,
    pub eta: &'a str,
    pub checkpoint: &'a str,
}

/// The progress line.
pub fn progress_line(p: &ProgressLine<'_>) -> (r: String)
    ensures
        r@ == p.timestamp@ + month_part(p.month@) + " ["@ + dec_text(p.files_done as nat) + "/"@
            + dec_text(p.files_total as nat) + " files] ["@ + lines_text(p.lines_done as nat)
            + " lines] ["@ + dec_text(p.percent as nat) + "%] ["@ + lps_text(p.lps as nat)
            + "] ["@ + p.eta@ + "] ["@ + p.checkpoint@ + "]"@,
{
    let mut s = p.timestamp.to_owned();
    if p.month.unicode_len() > 0 {
        s.append(" [");
        s.append(p.month);
        s.append("]");
    }
    assert(s@ =~= p.timestamp@ + month_part(p.month@));
    s.append(" [");
    push_dec(&mut s, p.files_done as u64);
    s.append("/");
    push_dec(&mut s, p.files_total as u64);
    s.append(" files] [");
    let lines = format_lines(p.lines_done);
    s.append(lines.as_str());
    s.append(" lines] [");
    push_dec(&mut s, p.percent);
    s.append("%] [");
    let lps = format_lps(p.lps);
    s.append(lps.as_str());
    s.append("] [");
    s.append(p.eta);
    s.append("] [");
    s.append(p.checkpoint);
    s.append("]");
    s
}

} // verus!
