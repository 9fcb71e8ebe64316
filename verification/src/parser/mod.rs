//! Parsed log lines and the calendar arithmetic behind their timestamps.

use std::ops::Range;
use vstd::prelude::*;
use vstd::string::*;
use vstd::utf8::*;

use crate::text::slice_str;

pub mod clock;
pub mod combined;
pub mod figures;
pub mod judging;
pub mod stage;
pub mod written;

verus! {

// ── Log entries ─────────────────────────────────────────────────────────────

/// What a log line says, field by field; the text fields as bytes.
#[verifier::ext_equal]
pub struct EntryView {
    pub ip: Seq<u8>,
    pub time: Seq<u8>,
    pub method: Seq<u8>,
    pub path: Seq<u8>,
    pub proto: Seq<u8>,
    pub referer: Seq<u8>,
    pub user_agent: Seq<u8>,
    pub month_num: u8,
    pub status: u16,
    pub bytes: u64,
    pub upstream_response_time_ms: Option<u32>,
}

/// A parsed log line: the line itself and where each field stands in it.
#[derive(Debug)]
pub struct LogEntry {
    pub(crate) raw: String,
    pub(crate) ip: Range<usize>,
    pub(crate) time: Range<usize>,
    pub(crate) method: Range<usize>,
    pub(crate) path: Range<usize>,
    pub(crate) proto: Range<usize>,
    pub(crate) referer: Range<usize>,
    pub(crate) user_agent: Range<usize>,
    pub month_num: u8,
    pub status: u16,
    pub bytes: u64,
    pub upstream_response_time_ms: Option<u32>,
}

/// A byte range of `b` that starts and ends between characters.
pub open spec fn valid_span(b: Seq<u8>, r: Range<usize>) -> bool {
    &&& r.start <= r.end <= b.len()
    &&& is_char_boundary(b, r.start as int)
    &&& is_char_boundary(b, r.end as int)
}

/// The bytes of `b` in a range.
pub open spec fn span_of(b: Seq<u8>, r: Range<usize>) -> Seq<u8> {
    b.subrange(r.start as int, r.end as int)
}

impl LogEntry {
    /// Every field stands inside the line and cuts no character in two.
    pub closed spec fn wf(&self) -> bool {
        let b = encode_utf8(self.raw@);
        &&& valid_span(b, self.ip)
        &&& valid_span(b, self.time)
        &&& valid_span(b, self.method)
        &&& valid_span(b, self.path)
        &&& valid_span(b, self.proto)
        &&& valid_span(b, self.referer)
        &&& valid_span(b, self.user_agent)
    }

    /// The whole line that the entry was read from.
    pub closed spec fn line(&self) -> Seq<char> {
        self.raw@
    }

    pub closed spec fn view(&self) -> EntryView {
        let b = encode_utf8(self.raw@);
        EntryView {
            ip: span_of(b, self.ip),
            time: span_of(b, self.time),
            method: span_of(b, self.method),
            path: span_of(b, self.path),
            proto: span_of(b, self.proto),
            referer: span_of(b, self.referer),
            user_agent: span_of(b, self.user_agent),
            month_num: self.month_num,
            status: self.status,
            bytes: self.bytes,
            upstream_response_time_ms: self.upstream_response_time_ms,
        }
    }

    /// The plain fields of an entry are those of its view.
    pub(crate) proof fn lemma_plain_fields(&self)
        ensures
            self@.month_num == self.month_num,
            self@.status == self.status,
            self@.bytes == self.bytes,
            self@.upstream_response_time_ms == self.upstream_response_time_ms,
    {
    }

    pub(crate) fn new(
        raw: String,
        ip: Range<usize>,
        time: Range<usize>,
        method: Range<usize>,
        path: Range<usize>,
        proto: Range<usize>,
        referer: Range<usize>,
        user_agent: Range<usize>,
        month_num: u8,
        status: u16,
        bytes: u64,
        upstream_response_time_ms: Option<u32>,
    ) -> (r: LogEntry)
        requires
            valid_span(encode_utf8(raw@), ip),
            valid_span(encode_utf8(raw@), time),
            valid_span(encode_utf8(raw@), method),
            valid_span(encode_utf8(raw@), path),
            valid_span(encode_utf8(raw@), proto),
            valid_span(encode_utf8(raw@), referer),
            valid_span(encode_utf8(raw@), user_agent),
        ensures
            r.wf(),
            r.line() == raw@,
            r@ == (EntryView {
                ip: span_of(encode_utf8(raw@), ip),
                time: span_of(encode_utf8(raw@), time),
                method: span_of(encode_utf8(raw@), method),
                path: span_of(encode_utf8(raw@), path),
                proto: span_of(encode_utf8(raw@), proto),
                referer: span_of(encode_utf8(raw@), referer),
                user_agent: span_of(encode_utf8(raw@), user_agent),
                month_num,
                status,
                bytes,
                upstream_response_time_ms,
            }),
    {
        LogEntry {
            raw,
            ip,
            time,
            method,
            path,
            proto,
            referer,
            user_agent,
            month_num,
            status,
            bytes,
            upstream_response_time_ms,
        }
    }

    fn slice(&self, r: &Range<usize>) -> (s: &str)
        requires
            valid_span(encode_utf8(self.raw@), *r),
        ensures
            s.spec_bytes() == span_of(encode_utf8(self.raw@), *r),
    {
        slice_str(self.raw.as_str(), r.start, r.end)
    }

    pub fn ip(&self) -> (s: &str)
        requires
            self.wf(),
        ensures
            s.spec_bytes() == self@.ip,
    {
        self.slice(&self.ip)
    }

    pub fn path(&self) -> (s: &str)
        requires
            self.wf(),
        ensures
            s.spec_bytes() == self@.path,
    {
        self.slice(&self.path)
    }

    pub fn method(&self) -> (s: &str)
        requires
            self.wf(),
        ensures
            s.spec_bytes() == self@.method,
    {
        self.slice(&self.method)
    }

    pub fn proto(&self) -> (s: &str)
        requires
            self.wf(),
        ensures
            s.spec_bytes() == self@.proto,
    {
        self.slice(&self.proto)
    }

    pub fn referer(&self) -> (s: &str)
        requires
            self.wf(),
        ensures
            s.spec_bytes() == self@.referer,
    {
        self.slice(&self.referer)
    }

    pub fn user_agent(&self) -> (s: &str)
        requires
            self.wf(),
        ensures
            s.spec_bytes() == self@.user_agent,
    {
        self.slice(&self.user_agent)
    }

    pub fn time_str(&self) -> (s: &str)
        requires
            self.wf(),
        ensures
            s.spec_bytes() == self@.time,
    {
        self.slice(&self.time)
    }
}

/// Which line parser a set of log files needs.
#[derive(Clone, Copy, Debug)]
pub enum LogFormat {
    Combined,
}

impl LogFormat {
    /// Parses one line in this format.
    pub fn parse(&self, line: String) -> (r: Option<LogEntry>)
        ensures
            match self {
                LogFormat::Combined => match combined::entry_of(encode_utf8(line@)) {
                    Some(e) => r is Some && r->0.wf() && r->0@ == e && r->0.line() == line@,
                    None => r is None,
                },
            },
    {
        match self {
            LogFormat::Combined => combined::parse_line(line.as_str()),
        }
    }
}

// ── Calendar ────────────────────────────────────────────────────────────────

/// A leap year of the proleptic Gregorian calendar.
pub open spec fn is_leap(y: int) -> bool {
    y % 4 == 0 && (y % 100 != 0 || y % 400 == 0)
}

/// The length of a year.
pub open spec fn year_days(y: int) -> int {
    if is_leap(y) {
        366
    } else {
        365
    }
}

/// The length of a month.
pub open spec fn month_days(y: int, m: int) -> int {
    if m == 2 {
        if is_leap(y) {
            29
        } else {
            28
        }
    } else if m == 4 || m == 6 || m == 9 || m == 11 {
        30
    } else {
        31
    }
}

/// The days from the first of January 1970 to the first of January of year `y`: 365 for each year
/// between, and one for each leap day.
pub open spec fn days_before_year(y: int) -> int {
    365 * (y - 1970) + ((y - 1) / 4 - 1969int / 4) - ((y - 1) / 100 - 1969int / 100) + ((y - 1)
        / 400 - 1969int / 400)
}

/// The days of year `y` before month `m`.
pub open spec fn days_before_month(y: int, m: int) -> int
    decreases m,
{
    if m <= 1 {
        0
    } else {
        days_before_month(y, m - 1) + month_days(y, m - 1)
    }
}

/// The number of a day, counted from 1970-01-01.
pub open spec fn civil_days(y: int, m: int, d: int) -> int {
    days_before_year(y) + days_before_month(y, m) + d - 1
}

/// A day number reckoned in years that start in March. Month 0 is the December before, months 13
/// and 14 are the January and February after; from month 15 on the months go on five at a time in
/// 153 days.
pub open spec fn march_days(y: int, m: int, d: int) -> int {
    let yy = if m <= 2 {
        y - 1
    } else {
        y
    };
    let mp = if m <= 2 {
        m + 9
    } else {
        m - 3
    };
    365 * yy + yy / 4 - yy / 100 + yy / 400 + (153 * mp + 2) / 5 + d - 719_469
}

/// A date of the calendar.
pub open spec fn valid_date(y: int, m: int, d: int) -> bool {
    1 <= m <= 12 && 1 <= d <= month_days(y, m)
}

proof fn lemma_months_fill_year(y: int)
    ensures
        days_before_month(y, 12) + month_days(y, 12) == year_days(y),
{
    let leap: int = year_days(y) - 365;
    assert(days_before_month(y, 1) == 0);
    assert(days_before_month(y, 2) == 31);
    assert(days_before_month(y, 3) == 59 + leap);
    assert(days_before_month(y, 4) == 90 + leap);
    assert(days_before_month(y, 5) == 120 + leap);
    assert(days_before_month(y, 6) == 151 + leap);
    assert(days_before_month(y, 7) == 181 + leap);
    assert(days_before_month(y, 8) == 212 + leap);
    assert(days_before_month(y, 9) == 243 + leap);
    assert(days_before_month(y, 10) == 273 + leap);
    assert(days_before_month(y, 11) == 304 + leap);
    assert(days_before_month(y, 12) == 334 + leap);
}

proof fn lemma_new_years(y: int)
    ensures
        days_before_year(y + 1) == days_before_year(y) + year_days(y),
{
    assert(y / 4 - (y - 1) / 4 == if y % 4 == 0 { 1int } else { 0 });
    assert(y / 100 - (y - 1) / 100 == if y % 100 == 0 { 1int } else { 0 });
    assert(y / 400 - (y - 1) / 400 == if y % 400 == 0 { 1int } else { 0 });
}

/// One year after another: the day numbers of two new years differ by the length of the year.
pub proof fn law_year_length(y: int)
    ensures
        days_before_year(1970) == 0,
        days_before_year(y + 1) == days_before_year(y) + year_days(y),
        days_before_month(y, 12) + month_days(y, 12) == year_days(y),
{
    lemma_months_fill_year(y);
    lemma_new_years(y);
}

/// The day after a date has the next day number: within the month, into the next month, and into
/// the next year.
pub proof fn law_next_day(y: int, m: int, d: int)
    requires
        valid_date(y, m, d),
    ensures
        d < month_days(y, m) ==> civil_days(y, m, d + 1) == civil_days(y, m, d) + 1,
        d == month_days(y, m) && m < 12 ==> civil_days(y, m + 1, 1) == civil_days(y, m, d) + 1,
        d == month_days(y, m) && m == 12 ==> civil_days(y + 1, 1, 1) == civil_days(y, m, d) + 1,
{
    law_year_length(y);
}

proof fn lemma_months_monotone(y: int, m1: int, m2: int)
    requires
        1 <= m1 < m2 <= 13,
    ensures
        days_before_month(y, m1) + month_days(y, m1) <= days_before_month(y, m2),
        0 <= days_before_month(y, m1),
    decreases m2,
{
    reveal_with_fuel(days_before_month, 13);
}

proof fn lemma_years_monotone(y1: int, y2: int)
    requires
        y1 < y2,
    ensures
        days_before_year(y1) + year_days(y1) <= days_before_year(y2),
    decreases y2 - y1,
{
    law_year_length(y1);
    if y1 + 1 < y2 {
        lemma_years_monotone(y1 + 1, y2);
    }
}

/// A later date has a larger day number, so that different dates have different numbers.
pub proof fn law_later_date(y1: int, m1: int, d1: int, y2: int, m2: int, d2: int)
    requires
        valid_date(y1, m1, d1),
        valid_date(y2, m2, d2),
        y1 < y2 || (y1 == y2 && (m1 < m2 || (m1 == m2 && d1 < d2))),
    ensures
        civil_days(y1, m1, d1) < civil_days(y2, m2, d2),
{
    if y1 < y2 {
        lemma_years_monotone(y1, y2);
        law_year_length(y1);
        lemma_months_monotone(y1, m1, 13);
        lemma_months_monotone(y2, m2, 13);
        assert(days_before_month(y1, 13) == days_before_month(y1, 12) + month_days(y1, 12));
    } else if m1 < m2 {
        lemma_months_monotone(y1, m1, m2);
    }
}

/// Both ways to reckon a day give the same number.
pub proof fn lemma_march_is_civil(y: int, m: int, d: int)
    requires
        1 <= m <= 12,
    ensures
        march_days(y, m, d) == civil_days(y, m, d),
{
    reveal_with_fuel(days_before_month, 13);
}

/// The days of a year follow the Gregorian calendar: thirty days have April, June, September and
/// November, February has 28 or in a leap year 29, and the others have 31. Every fourth year is a
/// leap year, but of the centuries only every fourth.
pub proof fn law_months_of_the_calendar(y: int, d: int)
    ensures
        march_days(1970, 1, 1) == 0,
        march_days(y, 1, d + 1) == march_days(y, 1, d) + 1,
        march_days(y, 2, d) == march_days(y, 1, d) + 31,
        march_days(y, 3, d) == march_days(y, 2, d) + if y % 400 == 0 || (y % 4 == 0 && y % 100
            != 0) {
            29int
        } else {
            28int
        },
        march_days(y, 4, d) == march_days(y, 3, d) + 31,
        march_days(y, 5, d) == march_days(y, 4, d) + 30,
        march_days(y, 6, d) == march_days(y, 5, d) + 31,
        march_days(y, 7, d) == march_days(y, 6, d) + 30,
        march_days(y, 8, d) == march_days(y, 7, d) + 31,
        march_days(y, 9, d) == march_days(y, 8, d) + 31,
        march_days(y, 10, d) == march_days(y, 9, d) + 30,
        march_days(y, 11, d) == march_days(y, 10, d) + 31,
        march_days(y, 12, d) == march_days(y, 11, d) + 30,
        march_days(y + 1, 1, d) == march_days(y, 12, d) + 31,
{
    lemma_new_years(y);
    assert(y / 4 - (y - 1) / 4 == if y % 4 == 0 { 1int } else { 0 });
    assert(y / 100 - (y - 1) / 100 == if y % 100 == 0 { 1int } else { 0 });
    assert(y / 400 - (y - 1) / 400 == if y % 400 == 0 { 1int } else { 0 });
    assert(y % 400 == 0 ==> y % 100 == 0);
    assert(y % 100 == 0 ==> y % 4 == 0);
}

/// The number of a civil (proleptic Gregorian) date's day; day 0 is 1970-01-01.
pub fn days_from_civil(year: i32, month: u32, day: u32) -> (r: i64)
    ensures
        1 <= month <= 12 ==> r == civil_days(year as int, month as int, day as int),
        r == march_days(year as int, month as int, day as int),
{
    let m: i64 = month as i64;
    let d: i64 = day as i64;
    let y: i64 = if m <= 2 {
        year as i64 - 1
    } else {
        year as i64
    };
    let era: i64 = if y >= 0 {
        y / 400
    } else {
        -((399 - y) / 400)
    };
    let yoe: i64 = y - era * 400;
    let mp: i64 = if m > 2 {
        m - 3
    } else {
        m + 9
    };
    let doy: i64 = (153 * mp + 2) / 5 + d - 1;
    let doe: i64 = yoe * 365 + yoe / 4 - yoe / 100 + doy;
    proof {
        assert(era == y as int / 400);
        assert(yoe / 4 == y as int / 4 - 100 * era);
        assert(yoe / 100 == y as int / 100 - 4 * era);
        if 1 <= month <= 12 {
            lemma_march_is_civil(year as int, month as int, day as int);
        }
    }
    era * 146_097 + doe - 719_468
}

} // verus!
