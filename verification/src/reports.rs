//! How numbers, codes and colours look in the reports.

use vstd::prelude::*;
use vstd::string::*;

use crate::doubles::{compact_3sf, compact_text, padded, ratio_string, ratio_text};
use crate::text::{dec_string, dec_text, digit_str, push_dec};

verus! {

// ── Numbers ─────────────────────────────────────────────────────────────────

/// A number with a comma before every three digits from the end.
pub open spec fn grouped(n: nat) -> Seq<char>
    decreases n,
{
    if n < 1000 {
        dec_text(n)
    } else {
        grouped(n / 1000) + ","@ + padded(n % 1000, 3)
    }
}

fn push_grouped(s: &mut String, n: u64)
    ensures
        final(s)@ == old(s)@ + grouped(n as nat),
    decreases n,
{
    if n < 1000 {
        push_dec(s, n);
        return ;
    }
    push_grouped(s, n / 1000);
    s.append(",");
    let rest: u64 = n % 1000;
    s.append(digit_str(rest / 100));
    s.append(digit_str((rest / 10) % 10));
    s.append(digit_str(rest % 10));
    proof {
        reveal_with_fuel(padded, 4);
        assert((rest / 10) / 10 == rest / 100);
        assert((rest / 100) % 10 == rest / 100);
    }
    assert(s@ =~= old(s)@ + grouped(n as nat));
}

/// A number with a comma before every three digits from the end.
pub fn number_fmt(n: u64) -> (r: String)
    ensures
        r@ == grouped(n as nat),
{
    let mut s = String::new();
    push_grouped(&mut s, n);
    assert(s@ =~= grouped(n as nat));
    s
}

/// A count: with three digits and a unit, or in full.
pub open spec fn count_text(n: nat, compact: bool) -> Seq<char> {
    if compact {
        compact_text(n)
    } else {
        grouped(n)
    }
}

/// A count: with three digits and a unit, or in full.
pub fn count_fmt(n: u64, compact: bool) -> (r: String)
    ensures
        r@ == count_text(n as nat, compact),
{
    if compact {
        compact_3sf(n)
    } else {
        number_fmt(n)
    }
}

/// A number of bytes in the largest unit that it reaches.
pub open spec fn bytes_text(n: nat) -> Seq<char> {
    if n < 1_024 {
        dec_text(n) + " B"@
    } else if n < 1_048_576 {
        ratio_text(n, 1_024, 1) + " KB"@
    } else if n < 1_073_741_824 {
        ratio_text(n, 1_048_576, 1) + " MB"@
    } else if n < 1_099_511_627_776 {
        ratio_text(n, 1_073_741_824, 2) + " GB"@
    } else if n < 1_125_899_906_842_624 {
        ratio_text(n, 1_099_511_627_776, 2) + " TB"@
    } else {
        ratio_text(n, 1_125_899_906_842_624, 2) + " PB"@
    }
}

/// A number of bytes in the largest unit that it reaches.
pub fn format_bytes(n: u64) -> (r: String)
    ensures
        r@ == bytes_text(n as nat),
{
    if n < 1_024 {
        dec_string(n).concat(" B")
    } else if n < 1_048_576 {
        ratio_string(n, 1_024, 1).concat(" KB")
    } else if n < 1_073_741_824 {
        ratio_string(n, 1_048_576, 1).concat(" MB")
    } else if n < 1_099_511_627_776 {
        ratio_string(n, 1_073_741_824, 2).concat(" GB")
    } else if n < 1_125_899_906_842_624 {
        ratio_string(n, 1_099_511_627_776, 2).concat(" TB")
    } else {
        ratio_string(n, 1_125_899_906_842_624, 2).concat(" PB")
    }
}

/// A response time of whole milliseconds.
pub open spec fn whole_ms_text(ms: nat) -> Seq<char> {
    if ms < 1 {
        "<1ms"@
    } else if ms < 1000 {
        dec_text(ms) + "ms"@
    } else {
        ratio_text(ms, 1000, 2) + "s"@
    }
}

/// A response time of whole milliseconds.
pub fn format_whole_ms(ms: u32) -> (r: String)
    ensures
        r@ == whole_ms_text(ms as nat),
{
    if ms < 1 {
        "<1ms".to_owned()
    } else if ms < 1000 {
        dec_string(ms as u64).concat("ms")
    } else {
        ratio_string(ms as u64, 1000, 2).concat("s")
    }
}

/// The totals of a period, in numbers and in words.
#[derive(Debug)]
pub struct TotalsView {
    pub hits: u64,
    pub visits: u64,
    pub visitors: u64,
    pub bandwidth: u64,
    pub hits_fmt: String,
    pub hits_exact_fmt: String,
    pub visits_fmt: String,
    pub visits_exact_fmt: String,
    pub visitors_fmt: String,
    pub visitors_exact_fmt: String,
    pub bandwidth_fmt: String,
    pub avg_rt_ms: Option<String>,
    pub p95_rt_ms: Option<String>,
}

/// The totals of a period, in numbers and in words.
pub open spec fn is_totals(
    r: TotalsView,
    hits: u64,
    visits: u64,
    visitors: u64,
    bandwidth: u64,
    compact_counts: bool,
) -> bool {
    &&& r.hits == hits && r.visits == visits && r.visitors == visitors && r.bandwidth == bandwidth
    &&& r.hits_fmt@ == count_text(hits as nat, compact_counts)
    &&& r.hits_exact_fmt@ == grouped(hits as nat)
    &&& r.visits_fmt@ == count_text(visits as nat, compact_counts)
    &&& r.visits_exact_fmt@ == grouped(visits as nat)
    &&& r.visitors_fmt@ == count_text(visitors as nat, compact_counts)
    &&& r.visitors_exact_fmt@ == grouped(visitors as nat)
    &&& r.bandwidth_fmt@ == bytes_text(bandwidth as nat)
}

/// The totals of a period without response times, in numbers and in words.
pub fn format_totals(
    hits: u64,
    visits: u64,
    visitors: u64,
    bandwidth: u64,
    compact_counts: bool,
) -> (r: TotalsView)
    ensures
        is_totals(r, hits, visits, visitors, bandwidth, compact_counts),
        r.avg_rt_ms is None,
        r.p95_rt_ms is None,
{
    format_totals_with_rt(hits, visits, visitors, bandwidth, compact_counts, None, None)
}

/// The totals of a period, in numbers and in words, with its response times: the average as it is
/// to be shown, and the time below which most requests stay, in milliseconds.
pub fn format_totals_with_rt(
    hits: u64,
    visits: u64,
    visitors: u64,
    bandwidth: u64,
    compact_counts: bool,
    avg_rt_ms: Option<String>,
    p95_rt: Option<u32>,
) -> (r: TotalsView)
    ensures
        is_totals(r, hits, visits, visitors, bandwidth, compact_counts),
        r.avg_rt_ms == avg_rt_ms,
        match (r.p95_rt_ms, p95_rt) {
            (Some(text), Some(ms)) => text@ == whole_ms_text(ms as nat),
            (None, None) => true,
            _ => false,
        },
{
    TotalsView {
        hits,
        visits,
        visitors,
        bandwidth,
        hits_fmt: count_fmt(hits, compact_counts),
        hits_exact_fmt: number_fmt(hits),
        visits_fmt: count_fmt(visits, compact_counts),
        visits_exact_fmt: number_fmt(visits),
        visitors_fmt: count_fmt(visitors, compact_counts),
        visitors_exact_fmt: number_fmt(visitors),
        bandwidth_fmt: format_bytes(bandwidth),
        avg_rt_ms,
        p95_rt_ms: match p95_rt {
            Some(ms) => Some(format_whole_ms(ms)),
            None => None,
        },
    }
}

// ── Names ───────────────────────────────────────────────────────────────────

/// The name of a month. Month zero goes for the first.
pub open spec fn month_name_text(month: int) -> Seq<char> {
    if month == 1 {
        "January"@
    } else if month == 2 {
        "February"@
    } else if month == 3 {
        "March"@
    } else if month == 4 {
        "April"@
    } else if month == 5 {
        "May"@
    } else if month == 6 {
        "June"@
    } else if month == 7 {
        "July"@
    } else if month == 8 {
        "August"@
    } else if month == 9 {
        "September"@
    } else if month == 10 {
        "October"@
    } else if month == 11 {
        "November"@
    } else if month == 12 {
        "December"@
    } else {
        if month == 0 {
            "January"@
        } else {
            "Unknown"@
        }
    }
}

/// The name of a month.
pub fn month_name(month: u32) -> (r: &'static str)
    ensures
        r@ == month_name_text(month as int),
{
    match month {
        0 => "January",
        1 => "January",
        2 => "February",
        3 => "March",
        4 => "April",
        5 => "May",
        6 => "June",
        7 => "July",
        8 => "August",
        9 => "September",
        10 => "October",
        11 => "November",
        12 => "December",
        _ => "Unknown",
    }
}

/// The meaning of a status code; nothing where it has no name here.
pub open spec fn status_meaning(code: int) -> Seq<char> {
    if code == 0 {
        "Undefined response code"@
    } else if code == 100 {
        "Continue"@
    } else if code == 101 {
        "Switching Protocols"@
    } else if code == 200 {
        "OK"@
    } else if code == 201 {
        "Created"@
    } else if code == 202 {
        "Accepted"@
    } else if code == 204 {
        "No Content"@
    } else if code == 206 {
        "Partial Content"@
    } else if code == 301 {
        "Moved Permanently"@
    } else if code == 302 {
        "Found"@
    } else if code == 303 {
        "See Other"@
    } else if code == 304 {
        "Not Modified"@
    } else if code == 307 {
        "Temporary Redirect"@
    } else if code == 308 {
        "Permanent Redirect"@
    } else if code == 400 {
        "Bad Request"@
    } else if code == 401 {
        "Unauthorized"@
    } else if code == 403 {
        "Forbidden"@
    } else if code == 404 {
        "Not Found"@
    } else if code == 405 {
        "Method Not Allowed"@
    } else if code == 406 {
        "Not Acceptable"@
    } else if code == 410 {
        "Gone"@
    } else if code == 429 {
        "Too Many Requests"@
    } else if code == 500 {
        "Internal Server Error"@
    } else if code == 502 {
        "Bad Gateway"@
    } else if code == 503 {
        "Service Unavailable"@
    } else if code == 504 {
        "Gateway Timeout"@
    } else {
        ""@
    }
}

fn meaning_of(code: u16) -> (r: &'static str)
    ensures
        r@ == status_meaning(code as int),
{
    match code {
        0 => "Undefined response code",
        100 => "Continue",
        101 => "Switching Protocols",
        200 => "OK",
        201 => "Created",
        202 => "Accepted",
        204 => "No Content",
        206 => "Partial Content",
        301 => "Moved Permanently",
        302 => "Found",
        303 => "See Other",
        304 => "Not Modified",
        307 => "Temporary Redirect",
        308 => "Permanent Redirect",
        400 => "Bad Request",
        401 => "Unauthorized",
        403 => "Forbidden",
        404 => "Not Found",
        405 => "Method Not Allowed",
        406 => "Not Acceptable",
        410 => "Gone",
        429 => "Too Many Requests",
        500 => "Internal Server Error",
        502 => "Bad Gateway",
        503 => "Service Unavailable",
        504 => "Gateway Timeout",
        _ => "",
    }
}

/// A status code with its meaning.
pub open spec fn status_text(code: nat) -> Seq<char> {
    if code == 0 {
        status_meaning(0)
    } else if status_meaning(code as int).len() == 0 {
        "Code "@ + dec_text(code)
    } else {
        "Code "@ + dec_text(code) + " - "@ + status_meaning(code as int)
    }
}

/// A status code with its meaning.
pub fn status_label(code: u16) -> (r: String)
    ensures
        r@ == status_text(code as nat),
{
    let label = meaning_of(code);
    if code == 0 {
        return label.to_owned();
    }
    let mut s = "Code ".to_owned();
    push_dec(&mut s, code as u64);
    if label.unicode_len() > 0 {
        s.append(" - ");
        s.append(label);
    }
    s
}

/// A status code with a short meaning; the code alone where it has none here.
pub open spec fn short_status_text(code: nat) -> Seq<char> {
    if code == 0 {
        "Unknown"@
    } else if code == 200 {
        "200 OK"@
    } else if code == 201 {
        "201 Created"@
    } else if code == 202 {
        "202 Accepted"@
    } else if code == 204 {
        "204 No Content"@
    } else if code == 206 {
        "206 Partial"@
    } else if code == 301 {
        "301 Moved"@
    } else if code == 302 {
        "302 Found"@
    } else if code == 304 {
        "304 Not Modified"@
    } else if code == 307 {
        "307 Temp Redirect"@
    } else if code == 308 {
        "308 Perm Redirect"@
    } else if code == 400 {
        "400 Bad Request"@
    } else if code == 401 {
        "401 Unauthorized"@
    } else if code == 403 {
        "403 Forbidden"@
    } else if code == 404 {
        "404 Not Found"@
    } else if code == 405 {
        "405 Not Allowed"@
    } else if code == 406 {
        "406 Not Acceptable"@
    } else if code == 410 {
        "410 Gone"@
    } else if code == 429 {
        "429 Too Many Reqs"@
    } else if code == 500 {
        "500 Server Error"@
    } else if code == 502 {
        "502 Bad Gateway"@
    } else if code == 503 {
        "503 Unavailable"@
    } else if code == 504 {
        "504 Gateway Timeout"@
    } else {
        dec_text(code)
    }
}

/// A status code with a short meaning.
pub fn short_status_label(code: u16) -> (r: String)
    ensures
        r@ == short_status_text(code as nat),
{
    match code {
        0 => "Unknown".to_owned(),
        200 => "200 OK".to_owned(),
        201 => "201 Created".to_owned(),
        202 => "202 Accepted".to_owned(),
        204 => "204 No Content".to_owned(),
        206 => "206 Partial".to_owned(),
        301 => "301 Moved".to_owned(),
        302 => "302 Found".to_owned(),
        304 => "304 Not Modified".to_owned(),
        307 => "307 Temp Redirect".to_owned(),
        308 => "308 Perm Redirect".to_owned(),
        400 => "400 Bad Request".to_owned(),
        401 => "401 Unauthorized".to_owned(),
        403 => "403 Forbidden".to_owned(),
        404 => "404 Not Found".to_owned(),
        405 => "405 Not Allowed".to_owned(),
        406 => "406 Not Acceptable".to_owned(),
        410 => "410 Gone".to_owned(),
        429 => "429 Too Many Reqs".to_owned(),
        500 => "500 Server Error".to_owned(),
        502 => "502 Bad Gateway".to_owned(),
        503 => "503 Unavailable".to_owned(),
        504 => "504 Gateway Timeout".to_owned(),
        _ => dec_string(code as u64),
    }
}

// ── Flags ───────────────────────────────────────────────────────────────────

/// The place of a letter in the alphabet.
pub open spec fn letter_of(b: u8) -> Option<int> {
    if 0x41 <= b <= 0x5a {
        Some(b - 0x41)
    } else if 0x61 <= b <= 0x7a {
        Some(b - 0x61)
    } else {
        None
    }
}

/// The sign that stands for a letter in a flag.
pub open spec fn flag_sign(letter: int) -> char {
    (0x1f1e6 + letter) as char
}

/// The flag of a country code: nothing unless the code is two letters.
pub open spec fn flag_text(code: Seq<u8>) -> Seq<char> {
    if code.len() != 2 {
        Seq::empty()
    } else {
        match (letter_of(code[0]), letter_of(code[1])) {
            (Some(a), Some(b)) => seq![flag_sign(a), flag_sign(b)],
            _ => Seq::empty(),
        }
    }
}

fn letter(b: u8) -> (r: Option<u8>)
    ensures
        match (r, letter_of(b)) {
            (Some(x), Some(y)) => x == y && x < 26,
            (None, None) => true,
            _ => false,
        },
{
    if 0x41 <= b && b <= 0x5a {
        Some(b - 0x41)
    } else if 0x61 <= b && b <= 0x7a {
        Some(b - 0x61)
    } else {
        None
    }
}

fn sign_str(letter: u8) -> (r: &'static str)
    requires
        letter < 26,
    ensures
        r@ == seq![flag_sign(letter as int)],
{
    proof {
        reveal_strlit("\u{1F1E6}");
        reveal_strlit("\u{1F1E7}");
        reveal_strlit("\u{1F1E8}");
        reveal_strlit("\u{1F1E9}");
        reveal_strlit("\u{1F1EA}");
        reveal_strlit("\u{1F1EB}");
        reveal_strlit("\u{1F1EC}");
        reveal_strlit("\u{1F1ED}");
        reveal_strlit("\u{1F1EE}");
        reveal_strlit("\u{1F1EF}");
        reveal_strlit("\u{1F1F0}");
        reveal_strlit("\u{1F1F1}");
        reveal_strlit("\u{1F1F2}");
        reveal_strlit("\u{1F1F3}");
        reveal_strlit("\u{1F1F4}");
        reveal_strlit("\u{1F1F5}");
        reveal_strlit("\u{1F1F6}");
        reveal_strlit("\u{1F1F7}");
        reveal_strlit("\u{1F1F8}");
        reveal_strlit("\u{1F1F9}");
        reveal_strlit("\u{1F1FA}");
        reveal_strlit("\u{1F1FB}");
        reveal_strlit("\u{1F1FC}");
        reveal_strlit("\u{1F1FD}");
        reveal_strlit("\u{1F1FE}");
        reveal_strlit("\u{1F1FF}");
    }
    let r = match letter {
        0 => "\u{1F1E6}",
        1 => "\u{1F1E7}",
        2 => "\u{1F1E8}",
        3 => "\u{1F1E9}",
        4 => "\u{1F1EA}",
        5 => "\u{1F1EB}",
        6 => "\u{1F1EC}",
        7 => "\u{1F1ED}",
        8 => "\u{1F1EE}",
        9 => "\u{1F1EF}",
        10 => "\u{1F1F0}",
        11 => "\u{1F1F1}",
        12 => "\u{1F1F2}",
        13 => "\u{1F1F3}",
        14 => "\u{1F1F4}",
        15 => "\u{1F1F5}",
        16 => "\u{1F1F6}",
        17 => "\u{1F1F7}",
        18 => "\u{1F1F8}",
        19 => "\u{1F1F9}",
        20 => "\u{1F1FA}",
        21 => "\u{1F1FB}",
        22 => "\u{1F1FC}",
        23 => "\u{1F1FD}",
        24 => "\u{1F1FE}",
        _ => "\u{1F1FF}",
    };
    assert(r@ =~= seq![flag_sign(letter as int)]);
    r
}

/// The flag of a country code.
pub fn flag_emoji(code: &str) -> (r: String)
    ensures
        r@ == flag_text(code.spec_bytes()),
{
    let b = code.as_bytes();
    let mut s = String::new();
    if b.len() != 2 {
        assert(s@ =~= flag_text(code.spec_bytes()));
        return s;
    }
    match (letter(b[0]), letter(b[1])) {
        (Some(x), Some(y)) => {
            s.append(sign_str(x));
            s.append(sign_str(y));
        },
        _ => {},
    }
    assert(s@ =~= flag_text(code.spec_bytes()));
    s
}

// ── Colours ─────────────────────────────────────────────────────────────────

/// Colours that replace those of the style sheet.
#[derive(Debug)]
pub struct StyleConfig {
    pub bg: Option<String>,
    pub surface: Option<String>,
    pub surface_alt: Option<String>,
    pub border: Option<String>,
    pub text: Option<String>,
    pub text_muted: Option<String>,
    pub accent: Option<String>,
    pub accent_hover: Option<String>,
    pub metric_hits: Option<String>,
    pub metric_files: Option<String>,
    pub metric_pages: Option<String>,
    pub metric_visits: Option<String>,
    pub metric_sites: Option<String>,
    pub metric_bandwidth: Option<String>,
    pub status_2xx_bg: Option<String>,
    pub status_3xx_bg: Option<String>,
    pub status_4xx_bg: Option<String>,
    pub status_5xx_bg: Option<String>,
    pub status_other_bg: Option<String>,
    pub weekend_bg: Option<String>,
}

/// How many colours there are.
pub const STYLE_COLOURS: usize = 20;

/// A colour.
pub open spec fn style_colour(style: StyleConfig, k: int) -> Option<String> {
    if k == 0 {
        style.bg
    } else if k == 1 {
        style.surface
    } else if k == 2 {
        style.surface_alt
    } else if k == 3 {
        style.border
    } else if k == 4 {
        style.text
    } else if k == 5 {
        style.text_muted
    } else if k == 6 {
        style.accent
    } else if k == 7 {
        style.accent_hover
    } else if k == 8 {
        style.metric_hits
    } else if k == 9 {
        style.metric_files
    } else if k == 10 {
        style.metric_pages
    } else if k == 11 {
        style.metric_visits
    } else if k == 12 {
        style.metric_sites
    } else if k == 13 {
        style.metric_bandwidth
    } else if k == 14 {
        style.status_2xx_bg
    } else if k == 15 {
        style.status_3xx_bg
    } else if k == 16 {
        style.status_4xx_bg
    } else if k == 17 {
        style.status_5xx_bg
    } else if k == 18 {
        style.status_other_bg
    } else {
        style.weekend_bg
    }
}

/// The variable that holds a colour.
pub open spec fn style_variable(k: int) -> Seq<char> {
    if k == 0 {
        "--bg"@
    } else if k == 1 {
        "--surface"@
    } else if k == 2 {
        "--surface-alt"@
    } else if k == 3 {
        "--border"@
    } else if k == 4 {
        "--text"@
    } else if k == 5 {
        "--text-muted"@
    } else if k == 6 {
        "--accent"@
    } else if k == 7 {
        "--accent-h"@
    } else if k == 8 {
        "--metric-hits"@
    } else if k == 9 {
        "--metric-files"@
    } else if k == 10 {
        "--metric-pages"@
    } else if k == 11 {
        "--metric-visits"@
    } else if k == 12 {
        "--metric-sites"@
    } else if k == 13 {
        "--metric-bandwidth"@
    } else if k == 14 {
        "--status-2xx-bg"@
    } else if k == 15 {
        "--status-3xx-bg"@
    } else if k == 16 {
        "--status-4xx-bg"@
    } else if k == 17 {
        "--status-5xx-bg"@
    } else if k == 18 {
        "--status-other-bg"@
    } else {
        "--daily-weekend-bg"@
    }
}

fn colour(style: &StyleConfig, k: usize) -> (r: &Option<String>)
    ensures
        *r == style_colour(*style, k as int),
{
    match k {
        0 => &style.bg,
        1 => &style.surface,
        2 => &style.surface_alt,
        3 => &style.border,
        4 => &style.text,
        5 => &style.text_muted,
        6 => &style.accent,
        7 => &style.accent_hover,
        8 => &style.metric_hits,
        9 => &style.metric_files,
        10 => &style.metric_pages,
        11 => &style.metric_visits,
        12 => &style.metric_sites,
        13 => &style.metric_bandwidth,
        14 => &style.status_2xx_bg,
        15 => &style.status_3xx_bg,
        16 => &style.status_4xx_bg,
        17 => &style.status_5xx_bg,
        18 => &style.status_other_bg,
        _ => &style.weekend_bg,
    }
}

fn variable(k: usize) -> (r: &'static str)
    ensures
        r@ == style_variable(k as int),
{
    match k {
        0 => "--bg",
        1 => "--surface",
        2 => "--surface-alt",
        3 => "--border",
        4 => "--text",
        5 => "--text-muted",
        6 => "--accent",
        7 => "--accent-h",
        8 => "--metric-hits",
        9 => "--metric-files",
        10 => "--metric-pages",
        11 => "--metric-visits",
        12 => "--metric-sites",
        13 => "--metric-bandwidth",
        14 => "--status-2xx-bg",
        15 => "--status-3xx-bg",
        16 => "--status-4xx-bg",
        17 => "--status-5xx-bg",
        18 => "--status-other-bg",
        _ => "--daily-weekend-bg",
    }
}

/// A line that sets a variable.
pub open spec fn css_line(name: Seq<char>, value: Seq<char>) -> Seq<char> {
    "    "@ + name + ": "@ + value + ";"@
}

/// The lines for those of the first `n` colours that are set.
pub open spec fn css_lines(style: StyleConfig, n: int) -> Seq<char>
    decreases n,
{
    if n <= 0 {
        Seq::empty()
    } else {
        let before = css_lines(style, n - 1);
        match style_colour(style, n - 1) {
            Some(value) => {
                let line = css_line(style_variable(n - 1), value@);
                if before.len() == 0 {
                    line
                } else {
                    before + "\n"@ + line
                }
            },
            None => before,
        }
    }
}

/// The style element that sets the colours; nothing where none is set.
pub fn css_overrides(style: &StyleConfig) -> (r: String)
    ensures
        ({
            let lines = css_lines(*style, STYLE_COLOURS as int);
            r@ == if lines.len() == 0 {
                Seq::empty()
            } else {
                "<style>\n:root {\n"@ + lines + "\n}\n</style>"@
            }
        }),
{
    let mut lines = String::new();
    assert(lines@ =~= css_lines(*style, 0));
    let mut k: usize = 0;
    while k < STYLE_COLOURS
        invariant
            0 <= k <= STYLE_COLOURS,
            lines@ == css_lines(*style, k as int),
        decreases STYLE_COLOURS - k,
    {
        let ghost before = lines@;
        if let Some(value) = colour(style, k) {
            if lines.as_str().unicode_len() > 0 {
                lines.append("\n");
            }
            lines.append("    ");
            lines.append(variable(k));
            lines.append(": ");
            lines.append(value.as_str());
            lines.append(";");
            proof {
                let line = css_line(style_variable(k as int), value@);
                if before.len() == 0 {
                    assert(lines@ =~= line);
                } else {
                    assert(lines@ =~= before + "\n"@ + line);
                }
            }
        }
        k += 1;
    }
    if lines.as_str().unicode_len() == 0 {
        return lines;
    }
    let mut s = "<style>\n:root {\n".to_owned();
    s.append(lines.as_str());
    s.append("\n}\n</style>");
    s
}

} // verus!
