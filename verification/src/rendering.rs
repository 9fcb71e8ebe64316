//! What numbers look like in reports and in the progress line.

use vstd::prelude::*;

use crate::doubles::{
    compact_text, decimals, half_even, half_up, halvings, lemma_halvings, lemma_two_grows, nearest,
    padded, product, quotient, ratio_text, reaches, shortest, ten, thousands, three_digit_places,
    three_digits_of, two, unit_text, whole_double, Double,
};
use crate::progress::{checkpoint_text, elapsed_text, lines_text, lps_text};
use crate::reports::{bytes_text, flag_text, grouped, is_totals, whole_ms_text, TotalsView};
use crate::text::{dec_text, digit_char};

verus! {

/// A quotient is rounded to the nearest whole number, and a half to the even one.
pub proof fn law_rounded_to_nearest(a: nat, b: nat)
    requires
        b > 0,
    ensures
        ({
            let r = half_even(a, b);
            &&& 2 * (r * b - a) <= b
            &&& 2 * (a - r * b) <= b
            &&& 2 * (r * b - a) == b || 2 * (a - r * b) == b ==> r % 2 == 0
        }),
{
    let q = a / b;
    let m = a % b;
    assert(a == q * b + m && 0 <= m < b) by (nonlinear_arith)
        requires
            b > 0,
            q == a / b,
            m == a % b,
    ;
    assert((q + 1) * b == q * b + b) by (nonlinear_arith);
}

/// A quotient is rounded to the nearest whole number, and a half to the larger one.
pub proof fn law_halves_go_up(a: nat, b: nat)
    requires
        b > 0,
    ensures
        ({
            let r = half_up(a, b);
            &&& 2 * (r * b - a) <= b
            &&& 2 * (a - r * b) < b
        }),
{
    let q = a / b;
    let m = a % b;
    assert(a == q * b + m && 0 <= m < b) by (nonlinear_arith)
        requires
            b > 0,
            q == a / b,
            m == a % b,
    ;
    assert((q + 1) * b == q * b + b) by (nonlinear_arith);
}

proof fn lemma_no_rest(q: nat, b: nat)
    requires
        b > 0,
    ensures
        half_even(q * b, b) == q,
        half_up(q * b, b) == q,
{
    assert((q * b) / b == q && (q * b) % b == 0) by (nonlinear_arith)
        requires
            b > 0,
    ;
}

/// A double is a whole number.
spec fn is_whole(x: Double, k: nat) -> bool {
    x.num == k * two(x.shift) && x.shift <= 52
}

proof fn lemma_two_53()
    ensures
        two(53) == 9_007_199_254_740_992,
{
    reveal_with_fuel(two, 54);
}

/// A quotient that is whole, and that a double can hold, is exact.
proof fn lemma_exact(a: nat, b: nat, k: nat)
    requires
        b > 0,
        a == k * b,
        1 <= k < 9_007_199_254_740_992,
    ensures
        is_whole(nearest(a, b), k),
{
    assert(a >= b) by (nonlinear_arith)
        requires
            a == k * b,
            k >= 1,
    ;
    let h = halvings(a, b);
    lemma_halvings(a, b);
    let t = two(h);
    assert(t <= k) by (nonlinear_arith)
        requires
            b * t <= k * b,
            b > 0,
    ;
    lemma_two_53();
    if h > 52 {
        lemma_two_grows(53, h);
    }
    let s = (52 - h) as nat;
    let p = two(s);
    assert(a * p == (k * p) * b) by (nonlinear_arith)
        requires
            a == k * b,
    ;
    lemma_no_rest(k * p, b);
}

proof fn lemma_whole_quotient(x: Double, n: nat, d: nat, k: nat)
    requires
        is_whole(x, n),
        d > 0,
        n == k * d,
        1 <= k < 9_007_199_254_740_992,
    ensures
        is_whole(quotient(x, d), k),
{
    let p = two(x.shift);
    lemma_two_grows(0, x.shift);
    assert(x.num == k * (d * p)) by (nonlinear_arith)
        requires
            x.num == n * p,
            n == k * d,
    ;
    assert(d * p > 0) by (nonlinear_arith)
        requires
            d > 0,
            p >= 1,
    ;
    lemma_exact(x.num, d * p, k);
}

proof fn lemma_whole_reaches(x: Double, k: nat, n: nat)
    requires
        is_whole(x, k),
    ensures
        reaches(x, n) <==> k >= n,
{
    let p = two(x.shift);
    lemma_two_grows(0, x.shift);
    if k >= n {
        assert(k * p >= n * p) by (nonlinear_arith)
            requires
                k >= n,
        ;
    } else {
        assert(k * p < n * p) by (nonlinear_arith)
            requires
                k < n,
                p >= 1,
        ;
    }
}

proof fn lemma_whole_decimals(x: Double, k: nat, places: nat)
    requires
        is_whole(x, k),
    ensures
        decimals(x, places) == k * ten(places),
{
    let p = two(x.shift);
    let t = ten(places);
    lemma_two_grows(0, x.shift);
    assert((k * p) * t == (k * t) * p) by (nonlinear_arith);
    lemma_no_rest(k * t, p);
}

/// A number of whole units is shown as that number, with zeros for decimals.
proof fn lemma_whole_units(n: nat, d: nat, k: nat)
    requires
        d > 0,
        n == k * d,
        1 <= k <= n < 9_007_199_254_740_992,
    ensures
        ratio_text(n, d, 0) == dec_text(k),
        ratio_text(n, d, 1) == dec_text(k) + seq!['.', '0'],
        ratio_text(n, d, 2) == dec_text(k) + seq!['.', '0', '0'],
{
    lemma_exact(n, 1, n);
    let x = whole_double(n);
    lemma_whole_quotient(x, n, d, k);
    let y = quotient(x, d);
    lemma_whole_decimals(y, k, 0);
    lemma_whole_decimals(y, k, 1);
    lemma_whole_decimals(y, k, 2);
    reveal_with_fuel(ten, 3);
    reveal_with_fuel(padded, 3);
    reveal_strlit(".");
    assert(k * 1 == k);
    assert((k * 10) / 10 == k && (k * 10) % 10 == 0);
    assert((k * 100) / 100 == k && (k * 100) % 100 == 0);
    assert(dec_text(k) + "."@ + padded(0, 1) =~= dec_text(k) + seq!['.', '0']);
    assert(dec_text(k) + "."@ + padded(0, 2) =~= dec_text(k) + seq!['.', '0', '0']);
}

proof fn lemma_kilobytes(k: nat)
    requires
        1 <= k < 1024,
    ensures
        bytes_text(k * 1_024) == dec_text(k) + seq!['.', '0', ' ', 'K', 'B'],
{
    reveal_strlit(" KB");
    lemma_whole_units(k * 1_024, 1_024, k);
    let d = dec_text(k);
    assert(d + seq!['.', '0'] + " KB"@ =~= d + seq!['.', '0', ' ', 'K', 'B']);
}

proof fn lemma_megabytes(k: nat)
    requires
        1 <= k < 1024,
    ensures
        bytes_text(k * 1_048_576) == dec_text(k) + seq!['.', '0', ' ', 'M', 'B'],
{
    reveal_strlit(" MB");
    lemma_whole_units(k * 1_048_576, 1_048_576, k);
    let d = dec_text(k);
    assert(d + seq!['.', '0'] + " MB"@ =~= d + seq!['.', '0', ' ', 'M', 'B']);
}

proof fn lemma_gigabytes(k: nat)
    requires
        1 <= k < 1024,
    ensures
        bytes_text(k * 1_073_741_824) == dec_text(k) + seq!['.', '0', '0', ' ', 'G', 'B'],
{
    reveal_strlit(" GB");
    lemma_whole_units(k * 1_073_741_824, 1_073_741_824, k);
    let d = dec_text(k);
    assert(d + seq!['.', '0', '0'] + " GB"@ =~= d + seq!['.', '0', '0', ' ', 'G', 'B']);
}

proof fn lemma_terabytes(k: nat)
    requires
        1 <= k < 1024,
    ensures
        bytes_text(k * 1_099_511_627_776) == dec_text(k) + seq!['.', '0', '0', ' ', 'T', 'B'],
{
    reveal_strlit(" TB");
    lemma_whole_units(k * 1_099_511_627_776, 1_099_511_627_776, k);
    let d = dec_text(k);
    assert(d + seq!['.', '0', '0'] + " TB"@ =~= d + seq!['.', '0', '0', ' ', 'T', 'B']);
}

proof fn lemma_petabytes(k: nat)
    requires
        1 <= k < 8,
    ensures
        bytes_text(k * 1_125_899_906_842_624) == dec_text(k) + seq!['.', '0', '0', ' ', 'P', 'B'],
{
    reveal_strlit(" PB");
    lemma_whole_units(k * 1_125_899_906_842_624, 1_125_899_906_842_624, k);
    let d = dec_text(k);
    assert(d + seq!['.', '0', '0'] + " PB"@ =~= d + seq!['.', '0', '0', ' ', 'P', 'B']);
}

/// Bytes are shown in the largest unit that they reach, of which each is 1024 of the one before: with
/// one decimal in kilobytes and megabytes, with two in gigabytes, terabytes and petabytes.
pub proof fn law_bytes_in_whole_units(k: nat)
    requires
        1 <= k < 1024,
    ensures
        bytes_text(k) == dec_text(k) + seq![' ', 'B'],
        bytes_text(k * 1024) == dec_text(k) + seq!['.', '0', ' ', 'K', 'B'],
        bytes_text(k * 1024 * 1024) == dec_text(k) + seq!['.', '0', ' ', 'M', 'B'],
        bytes_text(k * 1024 * 1024 * 1024) == dec_text(k) + seq!['.', '0', '0', ' ', 'G', 'B'],
        bytes_text(k * 1024 * 1024 * 1024 * 1024) == dec_text(k) + seq![
            '.',
            '0',
            '0',
            ' ',
            'T',
            'B',
        ],
        k < 8 ==> bytes_text(k * 1024 * 1024 * 1024 * 1024 * 1024) == dec_text(k) + seq![
            '.',
            '0',
            '0',
            ' ',
            'P',
            'B',
        ],
{
    reveal_strlit(" B");
    assert(dec_text(k) + " B"@ =~= dec_text(k) + seq![' ', 'B']);
    lemma_kilobytes(k);
    lemma_megabytes(k);
    lemma_gigabytes(k);
    lemma_terabytes(k);
    if k < 8 {
        lemma_petabytes(k);
    }
}

/// Response times are shown in milliseconds below a second, and in seconds with two decimals above.
pub proof fn law_times_in_whole_seconds(k: nat)
    requires
        1 <= k < 1_000_000_000,
    ensures
        whole_ms_text(0) == seq!['<', '1', 'm', 's'],
        k < 1000 ==> whole_ms_text(k) == dec_text(k) + seq!['m', 's'],
        whole_ms_text(k * 1000) == dec_text(k) + seq!['.', '0', '0', 's'],
{
    reveal_strlit("<1ms");
    reveal_strlit("ms");
    reveal_strlit("s");
    lemma_whole_units(k * 1_000, 1_000, k);
    let d = dec_text(k);
    assert("<1ms"@ =~= seq!['<', '1', 'm', 's']);
    assert(d + "ms"@ =~= d + seq!['m', 's']);
    assert(d + seq!['.', '0', '0'] + "s"@ =~= d + seq!['.', '0', '0', 's']);
}

/// Lines per second are shown in full below a thousand, in whole thousands below a million, and in
/// millions with one decimal above.
pub proof fn law_lines_per_second(k: nat)
    requires
        1 <= k < 1000,
    ensures
        lps_text(k) == dec_text(k) + seq![' ', 'l', '/', 's'],
        lps_text(k * 1000) == dec_text(k) + seq!['k', ' ', 'l', '/', 's'],
        lps_text(k * 1000 * 1000) == dec_text(k) + seq!['.', '0', 'M', ' ', 'l', '/', 's'],
{
    reveal_strlit(" l/s");
    reveal_strlit("k l/s");
    reveal_strlit("M l/s");
    lemma_whole_units(k * 1_000, 1_000, k);
    lemma_whole_units(k * 1_000_000, 1_000_000, k);
    let d = dec_text(k);
    assert(d + " l/s"@ =~= d + seq![' ', 'l', '/', 's']);
    assert(d + "k l/s"@ =~= d + seq!['k', ' ', 'l', '/', 's']);
    assert(d + seq!['.', '0'] + "M l/s"@ =~= d + seq!['.', '0', 'M', ' ', 'l', '/', 's']);
}

/// Numbers of lines are shown with three digits: with two decimals below ten of a unit, with one
/// below a hundred, and with none above.
pub proof fn law_numbers_of_lines(k: nat)
    requires
        1 <= k < 1000,
    ensures
        lines_text(k) == dec_text(k),
        lines_text(k * 1000) == dec_text(k) + (if k < 10 {
            seq!['.', '0', '0', 'k']
        } else if k < 100 {
            seq!['.', '0', 'k']
        } else {
            seq!['k']
        }),
        lines_text(k * 1000 * 1000) == dec_text(k) + (if k < 10 {
            seq!['.', '0', '0', 'M']
        } else if k < 100 {
            seq!['.', '0', 'M']
        } else {
            seq!['M']
        }),
{
    reveal_strlit("k");
    reveal_strlit("M");
    lemma_whole_units(k * 1_000, 1_000, k);
    lemma_whole_units(k * 1_000_000, 1_000_000, k);
    let d = dec_text(k);
    assert(d + seq!['.', '0', '0'] + "k"@ =~= d + seq!['.', '0', '0', 'k']);
    assert(d + seq!['.', '0'] + "k"@ =~= d + seq!['.', '0', 'k']);
    assert(d + "k"@ =~= d + seq!['k']);
    assert(d + seq!['.', '0', '0'] + "M"@ =~= d + seq!['.', '0', '0', 'M']);
    assert(d + seq!['.', '0'] + "M"@ =~= d + seq!['.', '0', 'M']);
    assert(d + "M"@ =~= d + seq!['M']);
}

/// A time span is shown in seconds below a minute, in minutes and seconds below an hour, and in hours
/// and minutes above.
pub proof fn law_time_spans(hours: nat, minutes: nat, seconds: nat)
    requires
        minutes < 60,
        seconds < 60,
    ensures
        ({
            let t = elapsed_text(hours * 3600 + minutes * 60 + seconds);
            if hours > 0 {
                t == dec_text(hours) + seq!['h'] + dec_text(minutes) + seq!['m']
            } else if minutes > 0 {
                t == dec_text(minutes) + seq!['m'] + dec_text(seconds) + seq!['s']
            } else {
                t == dec_text(seconds) + seq!['s']
            }
        }),
{
    reveal_strlit("h");
    reveal_strlit("m");
    reveal_strlit("s");
    assert("h"@ =~= seq!['h'] && "m"@ =~= seq!['m'] && "s"@ =~= seq!['s']);
    let n = hours * 3600 + minutes * 60 + seconds;
    assert(n / 3600 == hours && n % 3600 == minutes * 60 + seconds);
    assert((minutes * 60 + seconds) / 60 == minutes && (minutes * 60 + seconds) % 60 == seconds);
}

/// Every thousand of a number is set off by a comma, and the thousands behind it have three digits.
pub proof fn law_thousands_are_set_off(a: nat, b: nat)
    requires
        b < 1000,
    ensures
        a > 0 ==> grouped(a * 1000 + b) == grouped(a) + seq![
            ',',
            digit_char(b as int / 100),
            digit_char(b as int / 10 % 10),
            digit_char(b as int % 10),
        ],
        grouped(b) == dec_text(b),
{
    reveal_strlit(",");
    reveal_with_fuel(padded, 4);
    let n = a * 1000 + b;
    assert(n / 1000 == a && n % 1000 == b);
    assert(b / 10 / 10 == b / 100);
    assert(b / 100 % 10 == b / 100);
    assert(padded(b, 3) =~= seq![
        digit_char(b as int / 100),
        digit_char(b as int / 10 % 10),
        digit_char(b as int % 10),
    ]);
    assert(grouped(a) + ","@ + padded(b, 3) =~= grouped(a) + seq![
        ',',
        digit_char(b as int / 100),
        digit_char(b as int / 10 % 10),
        digit_char(b as int % 10),
    ]);
}

/// The flag of a country is made of the two signs for the letters of its code, small or capital. What
/// is no two letters has none.
pub proof fn law_flags(i: int, j: int, small: bool, code: Seq<u8>)
    requires
        0 <= i < 26,
        0 <= j < 26,
    ensures
        ({
            let a = if small {
                'a' as int
            } else {
                'A' as int
            };
            flag_text(seq![(a + i) as u8, (a + j) as u8]) == seq![
                ('\u{1F1E6}' as int + i) as char,
                ('\u{1F1E6}' as int + j) as char,
            ]
        }),
        code.len() != 2 ==> flag_text(code).len() == 0,
        code.len() == 2 && !('a' as u8 <= code[0] <= 'z' as u8 || 'A' as u8 <= code[0] <= 'Z' as u8)
            ==> flag_text(code).len() == 0,
        code.len() == 2 && !('a' as u8 <= code[1] <= 'z' as u8 || 'A' as u8 <= code[1] <= 'Z' as u8)
            ==> flag_text(code).len() == 0,
{
}

proof fn lemma_whole_digits(x: Double, k: nat)
    requires
        is_whole(x, k),
        1 <= k < 1000,
    ensures
        three_digits_of(x) == k * ten(three_digit_places(x)),
        three_digit_places(x) <= 2,
{
    lemma_whole_reaches(x, k, 100);
    lemma_whole_reaches(x, k, 10);
    reveal_with_fuel(ten, 3);
    let f = ten(three_digit_places(x));
    let p = two(x.shift);
    lemma_two_grows(0, x.shift);
    assert(x.num * f == (k * f) * p) by (nonlinear_arith)
        requires
            x.num == k * p,
    ;
    assert(1 <= k * f < 100_000) by (nonlinear_arith)
        requires
            1 <= k < 1000,
            1 <= f <= 100,
    ;
    lemma_exact(x.num * f, p, k * f);
    let y = product(x, f);
    lemma_two_grows(0, y.shift);
    lemma_no_rest(k * f, two(y.shift));
}

proof fn lemma_shortest(k: nat, places: nat)
    requires
        places <= 2,
    ensures
        shortest(k * ten(places), places).1 == 0,
        shortest(k * ten(places), places).0 == k,
{
    reveal_with_fuel(ten, 3);
    reveal_with_fuel(shortest, 4);
    assert((k * 10) % 10 == 0 && (k * 10) / 10 == k);
    assert((k * 100) % 10 == 0 && (k * 100) / 10 == k * 10);
    let t = ten(places);
    if places == 0 {
        assert(k * t == k) by (nonlinear_arith)
            requires
                t == 1,
        ;
    } else if places == 1 {
        assert(k * t == k * 10);
    } else {
        assert(k * t == k * 100);
    }
}

/// A number of whole units is shown as it is.
proof fn lemma_compact(n: nat, x: Double, unit: nat, k: nat)
    requires
        n >= 1000,
        thousands(whole_double(n), 0, 4) == (x, unit),
        is_whole(x, k),
        1 <= k < 1000,
    ensures
        compact_text(n) == dec_text(k) + unit_text(unit),
{
    lemma_whole_digits(x, k);
    let places = three_digit_places(x);
    let units = three_digits_of(x);
    reveal_with_fuel(ten, 3);
    assert(units < 1000 * ten(places)) by (nonlinear_arith)
        requires
            units == k * ten(places),
            k < 1000,
            ten(places) >= 1,
    ;
    lemma_shortest(k, places);
}

/// Numbers are shown with the letter of the largest unit that they reach: thousands, millions,
/// billions and trillions.
pub proof fn law_compact_numbers(k: nat)
    requires
        1 <= k < 1000,
    ensures
        compact_text(k) == dec_text(k),
        compact_text(k * 1000) == dec_text(k) + seq!['k'],
        compact_text(k * 1000 * 1000) == dec_text(k) + seq!['m'],
        compact_text(k * 1000 * 1000 * 1000) == dec_text(k) + seq!['b'],
        compact_text(k * 1000 * 1000 * 1000 * 1000) == dec_text(k) + seq!['t'],
{
    reveal_strlit("k");
    reveal_strlit("m");
    reveal_strlit("b");
    reveal_strlit("t");
    assert("k"@ =~= seq!['k'] && "m"@ =~= seq!['m'] && "b"@ =~= seq!['b'] && "t"@ =~= seq!['t']);
    lemma_powers(k, k * 1_000, 1);
    lemma_powers(k, k * 1_000_000, 2);
    lemma_powers(k, k * 1_000_000_000, 3);
    lemma_powers(k, k * 1_000_000_000_000, 4);
}

/// A thousand to a power.
spec fn thousand_to(j: nat) -> nat
    decreases j,
{
    if j == 0 {
        1
    } else {
        1000 * thousand_to((j - 1) as nat)
    }
}

/// Division by a thousand goes on until the unit is reached.
proof fn lemma_divided(x: Double, n: nat, k: nat, j: nat, unit: nat)
    requires
        is_whole(x, n),
        n == k * thousand_to(j),
        1 <= k < 1000,
        n < 9_007_199_254_740_992,
        j + unit <= 4,
    ensures
        ({
            let r = thousands(x, unit, (4 - unit) as nat);
            is_whole(r.0, k) && r.1 == unit + j
        }),
    decreases j,
{
    if j == 0 {
        let t = thousand_to(0);
        assert(k * t == k) by (nonlinear_arith)
            requires
                t == 1,
        ;
        lemma_whole_reaches(x, n, 1000);
    } else {
        let m = k * thousand_to((j - 1) as nat);
        let t = thousand_to((j - 1) as nat);
        lemma_thousand_grows((j - 1) as nat);
        assert(n == m * 1000) by (nonlinear_arith)
            requires
                n == k * (1000 * t),
                m == k * t,
        ;
        assert(m >= 1) by (nonlinear_arith)
            requires
                m == k * t,
                k >= 1,
                t >= 1,
        ;
        lemma_whole_reaches(x, n, 1000);
        lemma_whole_quotient(x, n, 1000, m);
        lemma_divided(quotient(x, 1000), m, k, (j - 1) as nat, unit + 1);
    }
}

proof fn lemma_thousand_grows(j: nat)
    ensures
        thousand_to(j) >= 1,
    decreases j,
{
    if j > 0 {
        lemma_thousand_grows((j - 1) as nat);
    }
}

proof fn lemma_powers(k: nat, n: nat, j: nat)
    requires
        1 <= k < 1000,
        1 <= j <= 4,
        n == k * (if j == 1 {
            1_000nat
        } else if j == 2 {
            1_000_000nat
        } else if j == 3 {
            1_000_000_000nat
        } else {
            1_000_000_000_000nat
        }),
    ensures
        compact_text(n) == dec_text(k) + unit_text(j),
{
    reveal_with_fuel(thousand_to, 5);
    lemma_exact(n, 1, n);
    lemma_divided(whole_double(n), n, k, j, 0);
    let r = thousands(whole_double(n), 0, 4);
    lemma_compact(n, r.0, r.1, k);
}

/// Where totals are stored in turn, the progress line says so: that it is due once the interval has
/// passed since the last time or, where there was none, since the start.
pub proof fn law_checkpoints_fall_due(elapsed: nat, interval: nat, last: nat)
    requires
        last <= elapsed,
        last < u64::MAX,
    ensures
        interval > 0 && elapsed - last >= interval ==> checkpoint_text(elapsed, interval, last)
            == "checkpoint due"@,
        interval > 0 && elapsed - last < interval ==> checkpoint_text(elapsed, interval, last)
            == "checkpoint "@ + elapsed_text((elapsed - last) as nat) + " ago"@,
        checkpoint_text(elapsed, 0, last) == "checkpoint disabled"@,
{
}

/// The totals of a period are shown in numbers and in words: each in full, and with a unit where that
/// is asked for.
pub proof fn law_totals_in_words(
    r: TotalsView,
    hits: u64,
    visits: u64,
    visitors: u64,
    bandwidth: u64,
    compact: bool,
)
    requires
        is_totals(r, hits, visits, visitors, bandwidth, compact),
    ensures
        r.hits == hits,
        r.visits == visits,
        r.visitors == visitors,
        r.bandwidth == bandwidth,
        r.hits_exact_fmt@ == grouped(hits as nat),
        r.visits_exact_fmt@ == grouped(visits as nat),
        r.visitors_exact_fmt@ == grouped(visitors as nat),
        r.bandwidth_fmt@ == bytes_text(bandwidth as nat),
        !compact ==> r.hits_fmt@ == grouped(hits as nat) && r.visits_fmt@ == grouped(visits as nat)
            && r.visitors_fmt@ == grouped(visitors as nat),
        compact ==> r.hits_fmt@ == compact_text(hits as nat) && r.visits_fmt@ == compact_text(
            visits as nat,
        ) && r.visitors_fmt@ == compact_text(visitors as nat),
{
}

} // verus!
