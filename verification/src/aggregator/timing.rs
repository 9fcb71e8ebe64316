//! The periods that written timestamps are counted in.

use vstd::prelude::*;
use vstd::string::*;

use super::aggregation::{
    date_name_of, entry_month_of, four_at, month_name_of, offset_of, periods_of, starts_visit,
    two_at, visits_after, PeriodsView,
};
use super::VisitView;
use crate::maps::entry;
use crate::parser::clock::{
    law_each_second_is_one_more, lemma_seconds_are, lemma_text, start_of_1970, two_written, Stamp,
};
use crate::parser::combined::{is_digit, unix_time};
use crate::text::{dec_text, digit_char};

verus! {

proof fn lemma_two_at(s: Seq<u8>, i: int, n: int)
    requires
        0 <= i,
        i + 2 <= s.len(),
        0 <= n <= 99,
        s.subrange(i, i + 2) == two_written(n),
    ensures
        two_at(s, i) == Some(n),
{
    assert(s[i] == s.subrange(i, i + 2)[0]);
    assert(s[i + 1] == s.subrange(i, i + 2)[1]);
    assert(is_digit(s[i]) && is_digit(s[i + 1]));
}

proof fn lemma_four_at(s: Seq<u8>, i: int, n: int)
    requires
        0 <= i,
        i + 4 <= s.len(),
        0 <= n <= 9999,
        s.subrange(i, i + 2) == two_written(n / 100),
        s.subrange(i + 2, i + 4) == two_written(n % 100),
    ensures
        four_at(s, i) == Some(n),
{
    assert(s[i] == s.subrange(i, i + 2)[0]);
    assert(s[i + 1] == s.subrange(i, i + 2)[1]);
    assert(s[i + 2] == s.subrange(i + 2, i + 4)[0]);
    assert(s[i + 3] == s.subrange(i + 2, i + 4)[1]);
    assert(is_digit(s[i]) && is_digit(s[i + 1]) && is_digit(s[i + 2]) && is_digit(s[i + 3]));
}

proof fn lemma_periods(t: Stamp, name: Seq<u8>)
    requires
        t.ok(),
        name.len() == 3,
    ensures
        periods_of(t.text(name), t.month) == Some(
            PeriodsView {
                date: date_name_of(t.year, t.month, t.day),
                hour: t.hour,
                month: month_name_of(t.year, t.month),
                ts: unix_time(t.text(name), t.month)->0,
            },
        ),
        entry_month_of(t.text(name), t.month) == Some(month_name_of(t.year, t.month)),
        unix_time(t.text(name), t.month) is Some,
{
    let s = t.text(name);
    lemma_text(t, name);
    lemma_seconds_are(t, name);
    lemma_two_at(s, 0, t.day);
    lemma_four_at(s, 7, t.year);
    lemma_two_at(s, 12, t.hour);
    lemma_two_at(s, 15, t.minute);
    lemma_two_at(s, 18, t.second);
    lemma_two_at(s, 22, t.zone_hour);
    lemma_two_at(s, 24, t.zone_minute);
    assert(offset_of(s) == Some(
        if t.east {
            t.zone_hour * 3600 + t.zone_minute * 60
        } else {
            -(t.zone_hour * 3600 + t.zone_minute * 60)
        },
    ));
}

/// A timestamp is counted at the time that it is read as: its periods hold the same Unix time, and
/// the hour that the clock showed where it was written.
pub proof fn law_counted_when_it_was(t: Stamp, name: Seq<u8>)
    requires
        t.ok(),
        name.len() == 3,
    ensures
        unix_time(t.text(name), t.month) is Some,
        periods_of(t.text(name), t.month) matches Some(p) && p.ts == unix_time(
            t.text(name),
            t.month,
        )->0 && p.hour == t.hour,
{
    lemma_periods(t, name);
}

/// The time in the periods of a timestamp is that of its calendar: zero at the start of 1970 in
/// Greenwich, and one more for each second of the clock, into the next minute, hour, day, month and
/// year too.
pub proof fn law_periods_follow_the_clock(t: Stamp, name: Seq<u8>, next_name: Seq<u8>)
    requires
        t.ok(),
        t.next_second().ok(),
        name.len() == 3,
        next_name.len() == 3,
    ensures
        periods_of(start_of_1970().text(name), 1) matches Some(p) && p.ts == 0,
        periods_of(t.text(name), t.month) is Some,
        periods_of(t.next_second().text(next_name), t.next_second().month) matches Some(p)
            && p.ts == periods_of(t.text(name), t.month)->0.ts + 1,
{
    lemma_periods(start_of_1970(), name);
    lemma_periods(t, name);
    lemma_periods(t.next_second(), next_name);
    law_each_second_is_one_more(t, name, next_name);
}

/// The day and the month of an entry are named by its own calendar, as `YYYY-MM-DD` and `YYYY-MM`,
/// and a file turns to a new month exactly where an entry of that month begins.
pub proof fn law_days_are_named(t: Stamp, name: Seq<u8>)
    requires
        t.ok(),
        1000 <= t.year,
        name.len() == 3,
    ensures
        periods_of(t.text(name), t.month) matches Some(p) && {
            &&& p.date == seq![
                digit_char(t.year / 1000),
                digit_char(t.year / 100 % 10),
                digit_char(t.year / 10 % 10),
                digit_char(t.year % 10),
                '-',
                digit_char(t.month / 10),
                digit_char(t.month % 10),
                '-',
                digit_char(t.day / 10),
                digit_char(t.day % 10),
            ]
            &&& p.month == p.date.take(7)
            &&& entry_month_of(t.text(name), t.month) == Some(p.month)
        },
{
    lemma_periods(t, name);
    reveal_with_fuel(dec_text, 4);
    reveal_strlit("-");
    let y = t.year as nat;
    assert(y / 10 / 10 == y / 100 && y / 100 / 10 == y / 1000);
    assert(dec_text(y) =~= seq![
        digit_char(t.year / 1000),
        digit_char(t.year / 100 % 10),
        digit_char(t.year / 10 % 10),
        digit_char(t.year % 10),
    ]);
    let p = periods_of(t.text(name), t.month)->0;
    assert(p.date =~= seq![
        digit_char(t.year / 1000),
        digit_char(t.year / 100 % 10),
        digit_char(t.year / 10 % 10),
        digit_char(t.year % 10),
        '-',
        digit_char(t.month / 10),
        digit_char(t.month % 10),
        '-',
        digit_char(t.day / 10),
        digit_char(t.day % 10),
    ]);
    assert(p.month =~= p.date.take(7));
}

/// A visitor's request starts a new visit where the clock shows a time more than half an hour after
/// the last request: of two requests on one day and with one offset, the second starts a visit if
/// and only if it comes later than thirty minutes.
pub proof fn law_pause_of_half_an_hour(
    v: VisitView,
    key: (u8, u64, u64, Seq<char>),
    t: Stamp,
    later: Stamp,
    name: Seq<u8>,
)
    requires
        t.ok(),
        later.ok(),
        later == (Stamp { hour: later.hour, minute: later.minute, second: later.second, ..t }),
        name.len() == 3,
        entry(v.last_seen, key) is None,
    ensures
        ({
            let first = periods_of(t.text(name), t.month)->0.ts;
            let second = periods_of(later.text(name), t.month)->0.ts;
            let pause = (later.hour - t.hour) * 60 * 60 + (later.minute - t.minute) * 60 + (
            later.second - t.second);
            &&& starts_visit(v, key, first as i64)
            &&& starts_visit(visits_after(v, key, first as i64), key, second as i64) <==> pause
                > 30 * 60
        }),
{
    lemma_periods(t, name);
    lemma_periods(later, name);
    lemma_seconds_are(t, name);
    lemma_seconds_are(later, name);
    lemma_small(t);
}

/// The days of four-digit years are not many.
proof fn lemma_small(t: Stamp)
    requires
        t.ok(),
    ensures
        -4_000_000 <= crate::parser::march_days(t.year, t.month, t.day) <= 4_000_000,
{
}

/// A place of a written time where a digit belongs: day, year, hour, minute, second and offset.
pub open spec fn is_digit_place(i: int) -> bool {
    0 <= i <= 1 || 7 <= i <= 10 || 12 <= i <= 13 || 15 <= i <= 16 || 18 <= i <= 19 || 22 <= i <= 25
}

/// An entry is counted if and only if its time is long enough, has digits where digits belong and an
/// offset with a sign.
pub proof fn law_malformed_times_are_not_counted(time: Seq<u8>, m: int)
    ensures
        periods_of(time, m) is Some <==> time.len() >= 26 && (forall|i: int|
            is_digit_place(i) ==> '0' as u8 <= #[trigger] time[i] <= '9' as u8) && (time[21]
            == '+' as u8 || time[21] == '-' as u8),
{
    if time.len() >= 26 {
        if forall|i: int| is_digit_place(i) ==> '0' as u8 <= #[trigger] time[i] <= '9' as u8 {
            assert(is_digit_place(0) && is_digit_place(1));
            assert(is_digit(time[0]) && is_digit(time[1]));
            assert(is_digit(time[7]) && is_digit(time[8]) && is_digit(time[9]) && is_digit(time[10]));
            assert(is_digit(time[12]) && is_digit(time[13]));
            assert(is_digit(time[15]) && is_digit(time[16]));
            assert(is_digit(time[18]) && is_digit(time[19]));
            assert(is_digit(time[22]) && is_digit(time[23]));
            assert(is_digit(time[24]) && is_digit(time[25]));
        }
    }
}

} // verus!
