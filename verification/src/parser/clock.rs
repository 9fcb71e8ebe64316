//! Timestamps as they are written, and the times that they are read as.

use vstd::prelude::*;
use vstd::string::*;

use super::combined::{
    all_digits, decimal, int_value, is_digit, local_days, month_of, time_of_day, unix_time,
    zone_offset,
};
use super::{
    civil_days, law_next_day, lemma_march_is_civil, march_days, month_days, valid_date,
};

verus! {

/// A date and time of day with an offset from UTC.
pub struct Stamp {
    pub year: int,
    pub month: int,
    pub day: int,
    pub hour: int,
    pub minute: int,
    pub second: int,
    /// East of Greenwich, so that the offset has a plus sign.
    pub east: bool,
    pub zone_hour: int,
    pub zone_minute: int,
}

impl Stamp {
    /// A time that a clock and a calendar can show.
    pub open spec fn ok(self) -> bool {
        &&& 0 <= self.year <= 9999
        &&& valid_date(self.year, self.month, self.day)
        &&& 0 <= self.hour <= 23
        &&& 0 <= self.minute <= 59
        &&& 0 <= self.second <= 59
        &&& 0 <= self.zone_hour <= 99
        &&& 0 <= self.zone_minute <= 59
    }

    /// The time as it is written, `DD/Mon/YYYY:HH:MM:SS +HHMM`, with some name of the month.
    #[verifier::opaque]
    pub open spec fn text(self, name: Seq<u8>) -> Seq<u8> {
        two_written(self.day) + seq!['/' as u8] + name + seq!['/' as u8] + two_written(
            self.year / 100,
        ) + two_written(self.year % 100) + seq![':' as u8] + two_written(self.hour) + seq![
            ':' as u8,
        ] + two_written(self.minute) + seq![':' as u8] + two_written(self.second) + seq![
            ' ' as u8,
            if self.east {
                '+' as u8
            } else {
                '-' as u8
            },
        ] + two_written(self.zone_hour) + two_written(self.zone_minute)
    }

    /// The second that follows, on a clock and a calendar of the same place.
    pub open spec fn next_second(self) -> Stamp {
        if self.second < 59 {
            Stamp { second: self.second + 1, ..self }
        } else if self.minute < 59 {
            Stamp { minute: self.minute + 1, second: 0, ..self }
        } else if self.hour < 23 {
            Stamp { hour: self.hour + 1, minute: 0, second: 0, ..self }
        } else if self.day < month_days(self.year, self.month) {
            Stamp { day: self.day + 1, hour: 0, minute: 0, second: 0, ..self }
        } else if self.month < 12 {
            Stamp { month: self.month + 1, day: 1, hour: 0, minute: 0, second: 0, ..self }
        } else {
            Stamp { year: self.year + 1, month: 1, day: 1, hour: 0, minute: 0, second: 0, ..self }
        }
    }
}

/// The start of 1970 in Greenwich.
pub open spec fn start_of_1970() -> Stamp {
    Stamp {
        year: 1970,
        month: 1,
        day: 1,
        hour: 0,
        minute: 0,
        second: 0,
        east: true,
        zone_hour: 0,
        zone_minute: 0,
    }
}

/// A digit as it is written.
pub open spec fn digit_written(d: int) -> u8 {
    ('0' as int + d) as u8
}

/// A number of two digits as it is written.
pub open spec fn two_written(n: int) -> Seq<u8> {
    seq![digit_written(n / 10), digit_written(n % 10)]
}

/// What stands where in a written time.
pub proof fn lemma_text(t: Stamp, name: Seq<u8>)
    requires
        t.ok(),
        name.len() == 3,
    ensures
        ({
            let s = t.text(name);
            &&& s.len() == 26
            &&& s.subrange(0, 2) == two_written(t.day)
            &&& s.subrange(3, 6) == name
            &&& s.subrange(7, 9) == two_written(t.year / 100)
            &&& s.subrange(9, 11) == two_written(t.year % 100)
            &&& s.subrange(12, 14) == two_written(t.hour)
            &&& s.subrange(15, 17) == two_written(t.minute)
            &&& s.subrange(18, 20) == two_written(t.second)
            &&& s[21] == if t.east {
                '+' as u8
            } else {
                '-' as u8
            }
            &&& s.subrange(22, 24) == two_written(t.zone_hour)
            &&& s.subrange(24, 26) == two_written(t.zone_minute)
        }),
{
    reveal(Stamp::text);
    let s = t.text(name);
    assert(s.subrange(0, 2) =~= two_written(t.day));
    assert(s.subrange(3, 6) =~= name);
    assert(s.subrange(7, 9) =~= two_written(t.year / 100));
    assert(s.subrange(9, 11) =~= two_written(t.year % 100));
    assert(s.subrange(12, 14) =~= two_written(t.hour));
    assert(s.subrange(15, 17) =~= two_written(t.minute));
    assert(s.subrange(18, 20) =~= two_written(t.second));
    assert(s.subrange(22, 24) =~= two_written(t.zone_hour));
    assert(s.subrange(24, 26) =~= two_written(t.zone_minute));
}

proof fn lemma_two(s: Seq<u8>, n: int, signed: bool)
    requires
        0 <= n <= 99,
        s == two_written(n),
    ensures
        int_value(s, signed) == Some(n),
{
    reveal_with_fuel(decimal, 3);
    assert(is_digit(s[0]) && is_digit(s[1]));
    assert(all_digits(s));
    assert(s.drop_last().drop_last() =~= Seq::<u8>::empty());
}

proof fn lemma_four(s: Seq<u8>, n: int)
    requires
        0 <= n <= 9999,
        s.len() == 4,
        s.subrange(0, 2) == two_written(n / 100),
        s.subrange(2, 4) == two_written(n % 100),
    ensures
        int_value(s, true) == Some(n),
{
    reveal_with_fuel(decimal, 5);
    assert(s[0] == s.subrange(0, 2)[0]);
    assert(s[1] == s.subrange(0, 2)[1]);
    assert(s[2] == s.subrange(2, 4)[0]);
    assert(s[3] == s.subrange(2, 4)[1]);
    assert(is_digit(s[0]) && is_digit(s[1]) && is_digit(s[2]) && is_digit(s[3]));
    assert(all_digits(s));
    assert(s.drop_last().drop_last().drop_last().drop_last() =~= Seq::<u8>::empty());
}

proof fn lemma_read(t: Stamp, name: Seq<u8>)
    requires
        t.ok(),
        name.len() == 3,
    ensures
        ({
            let s = t.text(name);
            &&& local_days(s, t.month) == Some(march_days(t.year, t.month, t.day))
            &&& time_of_day(s) == Some(t.hour * 3600 + t.minute * 60 + t.second)
            &&& zone_offset(s) == Some(
                if t.east {
                    t.zone_hour * 3600 + t.zone_minute * 60
                } else {
                    -(t.zone_hour * 3600 + t.zone_minute * 60)
                },
            )
        }),
{
    let s = t.text(name);
    lemma_text(t, name);
    lemma_two(s.subrange(0, 2), t.day, false);
    let year = s.subrange(7, 11);
    assert(year.subrange(0, 2) =~= s.subrange(7, 9));
    assert(year.subrange(2, 4) =~= s.subrange(9, 11));
    lemma_four(year, t.year);
    lemma_two(s.subrange(12, 14), t.hour, true);
    lemma_two(s.subrange(15, 17), t.minute, true);
    lemma_two(s.subrange(18, 20), t.second, true);
    lemma_two(s.subrange(22, 24), t.zone_hour, true);
    lemma_two(s.subrange(24, 26), t.zone_minute, true);
}

/// The seconds that a clock and a calendar count.
spec fn seconds(t: Stamp) -> int {
    let clock = t.hour * 3600 + t.minute * 60 + t.second;
    let zone = t.zone_hour * 3600 + t.zone_minute * 60;
    civil_days(t.year, t.month, t.day) * 86_400 + clock - if t.east {
        zone
    } else {
        -zone
    }
}

proof fn lemma_seconds(t: Stamp, name: Seq<u8>)
    requires
        t.ok(),
        name.len() == 3,
    ensures
        unix_time(t.text(name), t.month) == Some(seconds(t)),
{
    lemma_read(t, name);
    lemma_march_is_civil(t.year, t.month, t.day);
}

/// What a written time is read as.
pub proof fn lemma_seconds_are(t: Stamp, name: Seq<u8>)
    requires
        t.ok(),
        name.len() == 3,
    ensures
        unix_time(t.text(name), t.month) == Some(
            march_days(t.year, t.month, t.day) * 86_400 + t.hour * 3600 + t.minute * 60 + t.second
                - if t.east {
                t.zone_hour * 3600 + t.zone_minute * 60
            } else {
                -(t.zone_hour * 3600 + t.zone_minute * 60)
            },
        ),
{
    lemma_read(t, name);
}

/// A time is the number of seconds since the start of 1970 in Greenwich. That start is zero, and
/// each second of the clock is one more: from second 59 to the next minute, from minute 59 to the
/// next hour, and from midnight to the next day, month and year, too.
pub proof fn law_each_second_is_one_more(
    t: Stamp,
    name: Seq<u8>,
    next_name: Seq<u8>,
)
    requires
        t.ok(),
        t.next_second().ok(),
        name.len() == 3,
        next_name.len() == 3,
    ensures
        unix_time(start_of_1970().text(name), 1) == Some(0int),
        unix_time(t.text(name), t.month) is Some,
        unix_time(t.next_second().text(next_name), t.next_second().month) == Some(
            unix_time(t.text(name), t.month)->0 + 1,
        ),
{
    lemma_seconds(start_of_1970(), name);
    lemma_seconds(t, name);
    lemma_seconds(t.next_second(), next_name);
    law_next_day(t.year, t.month, t.day);
}

/// The same moment is written differently in different places. A clock that is an hour ahead, in a
/// place whose offset is an hour more, shows the same moment; so does one that is a minute ahead
/// with an offset of a minute more. West of Greenwich the offset is a minute or an hour less, and
/// an offset of nothing is the same with either sign.
pub proof fn law_same_moment_elsewhere(t: Stamp, other: Stamp, name: Seq<u8>)
    requires
        t.ok(),
        other.ok(),
        name.len() == 3,
        ({
            let ahead = Stamp { hour: t.hour + 1, ..t };
            let later = Stamp { minute: t.minute + 1, ..t };
            ||| t.east && other == (Stamp { zone_hour: t.zone_hour + 1, ..ahead })
            ||| t.east && other == (Stamp { zone_minute: t.zone_minute + 1, ..later })
            ||| !t.east && other == (Stamp { zone_hour: t.zone_hour - 1, ..ahead })
            ||| !t.east && other == (Stamp { zone_minute: t.zone_minute - 1, ..later })
            ||| t.zone_hour == 0 && t.zone_minute == 0 && other == (Stamp { east: !t.east, ..t })
        }),
    ensures
        unix_time(other.text(name), other.month) == unix_time(t.text(name), t.month),
        unix_time(t.text(name), t.month) is Some,
{
    lemma_seconds(t, name);
    lemma_seconds(other, name);
}

/// The name of a month by its letters.
pub open spec fn letters(a: char, b: char, c: char) -> Seq<u8> {
    seq![a as u8, b as u8, c as u8]
}

proof fn lemma_letters()
    ensures
        "Jan".spec_bytes() == letters('J', 'a', 'n'),
        "Feb".spec_bytes() == letters('F', 'e', 'b'),
        "Mar".spec_bytes() == letters('M', 'a', 'r'),
        "Apr".spec_bytes() == letters('A', 'p', 'r'),
        "May".spec_bytes() == letters('M', 'a', 'y'),
        "Jun".spec_bytes() == letters('J', 'u', 'n'),
        "Jul".spec_bytes() == letters('J', 'u', 'l'),
        "Aug".spec_bytes() == letters('A', 'u', 'g'),
        "Sep".spec_bytes() == letters('S', 'e', 'p'),
        "Oct".spec_bytes() == letters('O', 'c', 't'),
        "Nov".spec_bytes() == letters('N', 'o', 'v'),
        "Dec".spec_bytes() == letters('D', 'e', 'c'),
{
    reveal_strlit("Jan");
    is_ascii_spec_bytes("Jan");
    assert("Jan".spec_bytes() =~= letters('J', 'a', 'n'));
    reveal_strlit("Feb");
    is_ascii_spec_bytes("Feb");
    assert("Feb".spec_bytes() =~= letters('F', 'e', 'b'));
    reveal_strlit("Mar");
    is_ascii_spec_bytes("Mar");
    assert("Mar".spec_bytes() =~= letters('M', 'a', 'r'));
    reveal_strlit("Apr");
    is_ascii_spec_bytes("Apr");
    assert("Apr".spec_bytes() =~= letters('A', 'p', 'r'));
    reveal_strlit("May");
    is_ascii_spec_bytes("May");
    assert("May".spec_bytes() =~= letters('M', 'a', 'y'));
    reveal_strlit("Jun");
    is_ascii_spec_bytes("Jun");
    assert("Jun".spec_bytes() =~= letters('J', 'u', 'n'));
    reveal_strlit("Jul");
    is_ascii_spec_bytes("Jul");
    assert("Jul".spec_bytes() =~= letters('J', 'u', 'l'));
    reveal_strlit("Aug");
    is_ascii_spec_bytes("Aug");
    assert("Aug".spec_bytes() =~= letters('A', 'u', 'g'));
    reveal_strlit("Sep");
    is_ascii_spec_bytes("Sep");
    assert("Sep".spec_bytes() =~= letters('S', 'e', 'p'));
    reveal_strlit("Oct");
    is_ascii_spec_bytes("Oct");
    assert("Oct".spec_bytes() =~= letters('O', 'c', 't'));
    reveal_strlit("Nov");
    is_ascii_spec_bytes("Nov");
    assert("Nov".spec_bytes() =~= letters('N', 'o', 'v'));
    reveal_strlit("Dec");
    is_ascii_spec_bytes("Dec");
    assert("Dec".spec_bytes() =~= letters('D', 'e', 'c'));
}

/// The months are told by the first three letters of their English names.
pub proof fn law_month_names()
    ensures
        month_of(letters('J', 'a', 'n')) == Some(1u8),
        month_of(letters('F', 'e', 'b')) == Some(2u8),
        month_of(letters('M', 'a', 'r')) == Some(3u8),
        month_of(letters('A', 'p', 'r')) == Some(4u8),
        month_of(letters('M', 'a', 'y')) == Some(5u8),
        month_of(letters('J', 'u', 'n')) == Some(6u8),
        month_of(letters('J', 'u', 'l')) == Some(7u8),
        month_of(letters('A', 'u', 'g')) == Some(8u8),
        month_of(letters('S', 'e', 'p')) == Some(9u8),
        month_of(letters('O', 'c', 't')) == Some(10u8),
        month_of(letters('N', 'o', 'v')) == Some(11u8),
        month_of(letters('D', 'e', 'c')) == Some(12u8),
{
    lemma_letters();
    let jan = letters('J', 'a', 'n');
    let feb = letters('F', 'e', 'b');
    let mar = letters('M', 'a', 'r');
    let apr = letters('A', 'p', 'r');
    let may = letters('M', 'a', 'y');
    let jun = letters('J', 'u', 'n');
    let jul = letters('J', 'u', 'l');
    let aug = letters('A', 'u', 'g');
    let sep = letters('S', 'e', 'p');
    let oct = letters('O', 'c', 't');
    let nov = letters('N', 'o', 'v');
    let dec = letters('D', 'e', 'c');
    assert(mar[0] != may[0] || mar[2] != may[2]);
    assert(jan[1] != jun[1] && jan[1] != jul[1] && jun[2] != jul[2]);
    assert(apr[1] != aug[1]);
    assert(jan[0] == 'J' as u8 && feb[0] == 'F' as u8 && mar[0] == 'M' as u8 && apr[0] == 'A' as u8);
    assert(may[0] == 'M' as u8 && jun[0] == 'J' as u8 && jul[0] == 'J' as u8 && aug[0] == 'A' as u8);
    assert(sep[0] == 'S' as u8 && oct[0] == 'O' as u8 && nov[0] == 'N' as u8 && dec[0] == 'D' as u8);
}

} // verus!
