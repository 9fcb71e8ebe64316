//! Quotients in double precision, and how they are printed.
//!
//! A double of at least one is written here as a whole number over a power of two. A quotient is
//! rounded to the nearest double, and a double to the nearest decimal number; of two that are as
//! near, the even one is taken.

use vstd::prelude::*;
use vstd::string::*;

use crate::text::{dec_text, digit_str};

verus! {

/// Two to a power.
pub open spec fn two(k: nat) -> nat
    decreases k,
{
    if k == 0 {
        1
    } else {
        2 * two((k - 1) as nat)
    }
}

/// The whole number nearest to `a / b`; of two that are as near, the even one.
pub open spec fn half_even(a: nat, b: nat) -> nat {
    let q = a / b;
    let r = a % b;
    if 2 * r < b {
        q
    } else if 2 * r > b {
        q + 1
    } else if q % 2 == 0 {
        q
    } else {
        q + 1
    }
}

/// The whole number nearest to `a / b`; of two that are as near, the larger one.
pub open spec fn half_up(a: nat, b: nat) -> nat {
    if 2 * (a % b) < b {
        a / b
    } else {
        a / b + 1
    }
}

/// How many times `a / b` can be halved and stay at least one.
pub open spec fn halvings(a: nat, b: nat) -> nat
    decreases a,
{
    if b == 0 || a < 2 * b {
        0
    } else {
        1 + halvings(a / 2, b)
    }
}

/// The bits of a double after its first one.
pub const FRACTION_BITS: u32 = 52;

/// A double: a whole number over a power of two.
pub struct Double {
    pub num: nat,
    pub shift: nat,
}

/// The double nearest to `a / b`, which is at least one.
pub open spec fn nearest(a: nat, b: nat) -> Double {
    let k = halvings(a, b);
    if k <= FRACTION_BITS {
        let shift = (FRACTION_BITS - k) as nat;
        Double { num: half_even(a * two(shift), b), shift }
    } else {
        let unit = two((k - FRACTION_BITS) as nat);
        Double { num: half_even(a, b * unit) * unit, shift: 0 }
    }
}

/// The double nearest to a quotient of two doubles, or of whole numbers that fit one: the dividend
/// is a double, the divisor a whole number.
pub open spec fn quotient(x: Double, d: nat) -> Double {
    nearest(x.num, d * two(x.shift))
}

/// The double nearest to a product with a whole number.
pub open spec fn product(x: Double, f: nat) -> Double {
    nearest(x.num * f, two(x.shift))
}

/// The double nearest to a whole number.
pub open spec fn whole_double(n: nat) -> Double {
    nearest(n, 1)
}

/// A double is at least a whole number.
pub open spec fn reaches(x: Double, n: nat) -> bool {
    x.num >= n * two(x.shift)
}

/// Ten to a power.
pub open spec fn ten(k: nat) -> nat
    decreases k,
{
    if k == 0 {
        1
    } else {
        10 * ten((k - 1) as nat)
    }
}

/// A double as a whole number of units of the last of `places` decimal places.
pub open spec fn decimals(x: Double, places: nat) -> nat {
    half_even(x.num * ten(places), two(x.shift))
}

/// A number of units of the last of some decimal places, as text.
pub open spec fn decimal_text(units: nat, places: nat) -> Seq<char> {
    if places == 0 {
        dec_text(units)
    } else {
        dec_text(units / ten(places)) + "."@ + padded(units % ten(places), places)
    }
}

/// A number with as many digits as asked for.
pub open spec fn padded(n: nat, digits: nat) -> Seq<char>
    decreases digits,
{
    if digits == 0 {
        Seq::empty()
    } else {
        padded(n / 10, (digits - 1) as nat).push(crate::text::digit_char((n % 10) as int))
    }
}

/// A whole number over a divisor, both as doubles, printed with some decimal places.
pub open spec fn ratio_text(n: nat, d: nat, places: nat) -> Seq<char> {
    decimal_text(decimals(quotient(whole_double(n), d), places), places)
}

// ── Computing ───────────────────────────────────────────────────────────────

/// What a double may be at most here: more than any 64-bit number comes to.
pub const NUM_LIMIT: u128 = 1_180_591_620_717_411_303_424;

proof fn lemma_two_fits(k: nat)
    requires
        k <= 64,
    ensures
        1 <= two(k) <= 18_446_744_073_709_551_616,
        k <= FRACTION_BITS ==> two(k) <= 4_503_599_627_370_496,
{
    lemma_two_fits_52();
    lemma_two_64();
    if k <= 52 {
        lemma_two_grows(k, 52);
    }
    lemma_two_grows(k, 64);
}

proof fn lemma_two_64()
    ensures
        two(64) == 18_446_744_073_709_551_616,
{
    reveal_with_fuel(two, 65);
}

/// Larger powers of two are larger.
pub proof fn lemma_two_grows(a: nat, b: nat)
    requires
        a <= b,
    ensures
        1 <= two(a) <= two(b),
    decreases b,
{
    if a < b {
        lemma_two_grows(a, (b - 1) as nat);
    } else if a > 0 {
        lemma_two_grows((a - 1) as nat, (a - 1) as nat);
    }
}

fn power_of_two(k: u32) -> (r: u128)
    requires
        k <= 64,
    ensures
        r == two(k as nat),
        1 <= r <= 18_446_744_073_709_551_616,
{
    let mut r: u128 = 1;
    let mut i: u32 = 0;
    while i < k
        invariant
            0 <= i <= k,
            k <= 64,
            r == two(i as nat),
        decreases k - i,
    {
        proof {
            lemma_two_fits(i as nat);
            lemma_two_fits((i + 1) as nat);
        }
        r = 2 * r;
        i += 1;
    }
    proof {
        lemma_two_fits(k as nat);
    }
    r
}

fn round_half_even(a: u128, b: u128) -> (r: u128)
    requires
        0 < b,
        2 * b <= u128::MAX,
        a < u128::MAX,
    ensures
        r == half_even(a as nat, b as nat),
        r <= a / b + 1,
        r >= a / b,
{
    let q: u128 = a / b;
    let rest: u128 = a % b;
    proof {
        assert(q <= a) by (nonlinear_arith)
            requires
                q == a / b,
                b > 0,
        ;
    }
    if 2 * rest < b {
        q
    } else if 2 * rest > b {
        q + 1
    } else if q % 2 == 0 {
        q
    } else {
        q + 1
    }
}

fn round_half_up(a: u128, b: u128) -> (r: u128)
    requires
        0 < b,
        2 * b <= u128::MAX,
        a < u128::MAX,
    ensures
        r == half_up(a as nat, b as nat),
        r <= a / b + 1,
{
    let q: u128 = a / b;
    proof {
        assert(q <= a) by (nonlinear_arith)
            requires
                q == a / b,
                b > 0,
        ;
    }
    if 2 * (a % b) < b {
        q
    } else {
        q + 1
    }
}

/// Halved that often, a quotient is at least one and below two.
pub proof fn lemma_halvings(a: nat, b: nat)
    requires
        0 < b <= a,
    ensures
        b * two(halvings(a, b)) <= a < 2 * b * two(halvings(a, b)),
    decreases a,
{
    if a >= 2 * b {
        lemma_halvings(a / 2, b);
        let k = halvings(a / 2, b);
        assert(two(k + 1) == 2 * two(k));
        let h = b * two(k);
        assert(b * two(k + 1) == 2 * h) by (nonlinear_arith)
            requires
                two(k + 1) == 2 * two(k),
                h == b * two(k),
        ;
        assert(2 * b * two(k) == 2 * h) by (nonlinear_arith)
            requires
                h == b * two(k),
        ;
        assert(2 * b * two(k + 1) == 4 * h) by (nonlinear_arith)
            requires
                two(k + 1) == 2 * two(k),
                h == b * two(k),
        ;
    } else {
        assert(two(0) == 1);
        assert(b * two(0) == b);
        assert(2 * b * two(0) == 2 * b);
    }
}

fn count_halvings(a: u128, b: u128) -> (r: u32)
    requires
        0 < b <= a,
        a < NUM_LIMIT,
    ensures
        r == halvings(a as nat, b as nat),
        r <= 70,
{
    let mut x: u128 = a;
    let mut k: u32 = 0;
    proof {
        lemma_limit();
    }
    while x >= 2 * b
        invariant
            0 < b < NUM_LIMIT,
            b <= x < NUM_LIMIT,
            k <= 70,
            x < two((70 - k) as nat),
            halvings(a as nat, b as nat) == k + halvings(x as nat, b as nat),
        decreases x,
    {
        assert(k < 70) by {
            if k == 70 {
                assert(two(0) == 1);
            }
        }
        assert(two((70 - k) as nat) == 2 * two((70 - k - 1) as nat));
        x = x / 2;
        k += 1;
    }
    k
}

proof fn lemma_limit()
    ensures
        two(70) == NUM_LIMIT,
{
    reveal_with_fuel(two, 71);
}

/// A double that is at least one.
#[derive(Debug, Clone, Copy)]
pub struct Dbl {
    pub num: u128,
    pub shift: u32,
}

impl Dbl {
    pub open spec fn view(&self) -> Double {
        Double { num: self.num as nat, shift: self.shift as nat }
    }

    /// The number is below the limit, and the fraction is no longer than a double's.
    pub open spec fn wf(&self) -> bool {
        self.num < NUM_LIMIT && self.shift <= FRACTION_BITS
    }

    /// Whether the double is at least a whole number.
    pub fn at_least(&self, n: u64) -> (r: bool)
        requires
            self.wf(),
        ensures
            r == reaches(self@, n as nat),
    {
        let p: u128 = power_of_two(self.shift);
        proof {
            assert(n * p <= 18_446_744_073_709_551_615 * 18_446_744_073_709_551_616)
                by (nonlinear_arith)
                requires
                    n <= 18_446_744_073_709_551_615,
                    p <= 18_446_744_073_709_551_616,
            ;
        }
        self.num >= n as u128 * p
    }
}

/// The double nearest to a quotient of at least one.
fn nearest_double(a: u128, b: u128) -> (r: Dbl)
    requires
        0 < b <= a,
        2 * a < NUM_LIMIT,
    ensures
        r.wf(),
        r@ == nearest(a as nat, b as nat),
        r.num <= 9_007_199_254_740_992 || r.num * b <= 2 * a,
{
    let k: u32 = count_halvings(a, b);
    let ghost h = two(k as nat);
    proof {
        lemma_halvings(a as nat, b as nat);
    }
    if k <= FRACTION_BITS {
        let shift: u32 = FRACTION_BITS - k;
        let p: u128 = power_of_two(shift);
        proof {
            lemma_two_sum(k as nat, shift as nat);
            lemma_two_fits(52);
            lemma_two_fits(shift as nat);
            lemma_two_fits_52();
            lemma_scaled(a as int, b as int, h as int, p as int);
        }
        let num: u128 = round_half_even(a * p, b);
        proof {
            lemma_quotient_small(a * p, b as int, 9_007_199_254_740_992int);
        }
        Dbl { num, shift }
    } else {
        let p: u128 = power_of_two(k - FRACTION_BITS);
        proof {
            lemma_two_sum(FRACTION_BITS as nat, (k - FRACTION_BITS) as nat);
            lemma_two_fits_52();
            lemma_unit(a as int, b as int, h as int, p as int);
        }
        let q: u128 = round_half_even(a, b * p);
        proof {
            lemma_back(a as int, b as int, p as int, q as int);
        }
        Dbl { num: q * p, shift: 0 }
    }
}

proof fn lemma_two_fits_52()
    ensures
        two(52) == 4_503_599_627_370_496,
{
    reveal_with_fuel(two, 53);
}

proof fn lemma_two_sum(a: nat, b: nat)
    ensures
        two(a + b) == two(a) * two(b),
    decreases b,
{
    if b == 0 {
        assert(two(a) * 1 == two(a));
    } else {
        lemma_two_sum(a, (b - 1) as nat);
        let x = two(a);
        let y = two((b - 1) as nat);
        assert(two(b) == 2 * y);
        assert(two(a + b) == 2 * (x * y));
        assert(2 * (x * y) == x * (2 * y)) by (nonlinear_arith);
    }
}

/// `a` times a power of two stays small, since `a / b` is below the other half of the power.
proof fn lemma_scaled(a: int, b: int, h: int, p: int)
    requires
        0 < b <= a,
        2 * a < NUM_LIMIT,
        1 <= h,
        1 <= p,
        h * p == 4_503_599_627_370_496,
        a < 2 * b * h,
    ensures
        a * p < 2 * 4_503_599_627_370_496 * b,
        a * p < u128::MAX,
{
    assert(a * p < 2 * b * h * p) by (nonlinear_arith)
        requires
            a < 2 * b * h,
            p >= 1,
    ;
    assert(2 * b * h * p == 2 * 4_503_599_627_370_496 * b) by (nonlinear_arith)
        requires
            h * p == 4_503_599_627_370_496,
    ;
    assert(2 * 4_503_599_627_370_496 * b <= 2 * 4_503_599_627_370_496 * NUM_LIMIT)
        by (nonlinear_arith)
        requires
            b <= NUM_LIMIT,
    ;
}

proof fn lemma_quotient_small(x: int, b: int, limit: int)
    requires
        0 < b,
        0 <= x < limit * b,
    ensures
        x / b < limit,
{
    assert(x / b < limit) by (nonlinear_arith)
        requires
            0 < b,
            0 <= x < limit * b,
    ;
}

proof fn lemma_unit(a: int, b: int, h: int, p: int)
    requires
        0 < b <= a,
        2 * a < NUM_LIMIT,
        1 <= p,
        h == 4_503_599_627_370_496 * p,
        b * h <= a,
    ensures
        b * p <= a,
        0 < b * p,
{
    assert(b * p <= b * h) by (nonlinear_arith)
        requires
            b > 0,
            p <= h,
    ;
    assert(0 < b * p) by (nonlinear_arith)
        requires
            b > 0,
            p >= 1,
    ;
}

/// Rounding to whole units does not double a number.
proof fn lemma_back(a: int, b: int, p: int, q: int)
    requires
        1 <= b,
        1 <= p,
        b * p <= a,
        0 <= q <= a / (b * p) + 1,
    ensures
        (q * p) * b <= 2 * a,
        q * p <= 2 * a,
{
    let d = b * p;
    assert(d >= 1) by (nonlinear_arith)
        requires
            d == b * p,
            b >= 1,
            p >= 1,
    ;
    assert(q * d <= (a / d + 1) * d) by (nonlinear_arith)
        requires
            0 <= q <= a / d + 1,
            1 <= d,
    ;
    assert((a / d + 1) * d == (a / d) * d + d) by (nonlinear_arith);
    assert((a / d) * d <= a) by (nonlinear_arith)
        requires
            d > 0,
    ;
    assert((q * p) * b == q * d) by (nonlinear_arith)
        requires
            d == b * p,
    ;
    assert(q * p <= (q * p) * b) by (nonlinear_arith)
        requires
            q >= 0,
            p >= 1,
            b >= 1,
    ;
}

/// The double nearest to a whole number.
fn double_of(n: u64) -> (r: Dbl)
    requires
        n > 0,
    ensures
        r.wf(),
        r@ == whole_double(n as nat),
        r.num <= 36_893_488_147_419_103_232,
        forall|d: nat| 0 < d <= n && d <= 4_503_599_627_370_496 ==> #[trigger] reaches(r@, d),
{
    let r = nearest_double(n as u128, 1);
    proof {
        assert forall|d: nat|
            0 < d <= n && d <= 4_503_599_627_370_496 implies #[trigger] reaches(r@, d) by {
            assert(d * 1 == d);
            lemma_nearest_reaches(n as nat, 1, d);
        }
    }
    r
}

/// A quotient that is at least a whole number rounds to a double that is.
proof fn lemma_nearest_reaches(a: nat, b: nat, m: nat)
    requires
        0 < b <= a,
        m * b <= a,
        m <= 4_503_599_627_370_496,
    ensures
        reaches(nearest(a, b), m),
{
    let k = halvings(a, b);
    lemma_halvings(a, b);
    if k <= FRACTION_BITS {
        let p = two((FRACTION_BITS - k) as nat);
        let x = a * p;
        assert(x >= (m * p) * b) by (nonlinear_arith)
            requires
                x == a * p,
                m * b <= a,
        ;
        assert(x / b >= m * p) by (nonlinear_arith)
            requires
                b > 0,
                x >= (m * p) * b,
        ;
    } else {
        let u = two((k - FRACTION_BITS) as nat);
        let h = two(k);
        lemma_two_sum(FRACTION_BITS as nat, (k - FRACTION_BITS) as nat);
        lemma_two_fits_52();
        lemma_two_grows(0, (k - FRACTION_BITS) as nat);
        let d = b * u;
        assert(4_503_599_627_370_496 * d <= a) by (nonlinear_arith)
            requires
                d == b * u,
                b * h <= a,
                h == 4_503_599_627_370_496 * u,
        ;
        assert(d >= 1) by (nonlinear_arith)
            requires
                d == b * u,
                b >= 1,
                u >= 1,
        ;
        assert(a / d >= 4_503_599_627_370_496) by (nonlinear_arith)
            requires
                d >= 1,
                4_503_599_627_370_496 * d <= a,
        ;
        let q = half_even(a, d);
        assert(q * u >= 4_503_599_627_370_496) by (nonlinear_arith)
            requires
                q >= 4_503_599_627_370_496,
                u >= 1,
        ;
        assert(two(0) == 1);
        assert(m * two(0) == m) by (nonlinear_arith)
            requires
                two(0) == 1,
        ;
    }
}

/// The double nearest to a quotient with a whole number, where that is at least one.
fn divided(x: Dbl, d: u64) -> (r: Dbl)
    requires
        x.wf(),
        0 < d,
        d * two(x.shift as nat) <= x.num,
        2 * x.num < NUM_LIMIT,
    ensures
        r.wf(),
        r@ == quotient(x@, d as nat),
        r.num <= 9_007_199_254_740_992 || r.num * d <= 2 * x.num,
        reaches(r@, 1),
{
    let p: u128 = power_of_two(x.shift);
    proof {
        assert(d * p >= d) by (nonlinear_arith)
            requires
                p >= 1,
        ;
    }
    let r = nearest_double(x.num, d as u128 * p);
    proof {
        lemma_nearest_reaches(x.num as nat, (d * p) as nat, 1);
        if r.num > 9_007_199_254_740_992 {
            assert(r.num * d <= r.num * (d * p)) by (nonlinear_arith)
                requires
                    p >= 1,
            ;
        }
    }
    r
}

/// The double nearest to a product with a whole number.
fn multiplied(x: Dbl, f: u64) -> (r: Dbl)
    requires
        x.wf(),
        0 < f <= 100,
        two(x.shift as nat) <= x.num,
        2 * (x.num * 100) < NUM_LIMIT,
    ensures
        r.wf(),
        r@ == product(x@, f as nat),
        r.num <= 9_007_199_254_740_992 || r.num <= 2 * (x.num * 100),
{
    let p: u128 = power_of_two(x.shift);
    proof {
        assert(x.num * f <= x.num * 100 && x.num * f >= x.num) by (nonlinear_arith)
            requires
                0 < f <= 100,
        ;
    }
    let r = nearest_double(x.num * f as u128, p);
    proof {
        assert(r.num <= r.num * p) by (nonlinear_arith)
            requires
                p >= 1,
        ;
    }
    r
}

/// A double as a whole number of units of the last decimal place; `scale` is ten to the number of
/// places.
fn units_of(x: Dbl, places: u32) -> (r: u128)
    requires
        x.wf(),
        places <= 2,
    ensures
        r == decimals(x@, places as nat),
        r < u128::MAX,
{
    let p: u128 = power_of_two(x.shift);
    let scale: u128 = scale_of(places);
    proof {
        assert(x.num * scale <= NUM_LIMIT * 100) by (nonlinear_arith)
            requires
                x.num <= NUM_LIMIT,
                scale <= 100,
        ;
        assert((x.num * scale) / (p as int) <= x.num * scale) by (nonlinear_arith)
            requires
                p >= 1,
                x.num * scale >= 0,
        ;
    }
    round_half_even(x.num * scale, p)
}

fn scale_of(places: u32) -> (r: u128)
    requires
        places <= 2,
    ensures
        r == ten(places as nat),
        1 <= r <= 100,
{
    proof {
        reveal_with_fuel(ten, 3);
    }
    if places == 0 {
        1
    } else if places == 1 {
        10
    } else {
        100
    }
}

/// Appends a number in decimal.
fn push_number(s: &mut String, n: u128)
    ensures
        final(s)@ == old(s)@ + dec_text(n as nat),
    decreases n,
{
    if n >= 10 {
        push_number(s, n / 10);
    }
    s.append(digit_str((n % 10) as u64));
    assert(s@ =~= old(s)@ + dec_text(n as nat));
}

/// Appends a number of units of the last decimal place.
fn push_decimal(s: &mut String, units: u128, places: u32)
    requires
        places <= 2,
    ensures
        final(s)@ == old(s)@ + decimal_text(units as nat, places as nat),
{
    if places == 0 {
        push_number(s, units);
        return ;
    }
    let scale: u128 = scale_of(places);
    push_number(s, units / scale);
    s.append(".");
    let rest: u128 = units % scale;
    proof {
        reveal_with_fuel(padded, 3);
        reveal_with_fuel(ten, 3);
    }
    if places == 2 {
        s.append(digit_str((rest / 10) as u64));
    }
    s.append(digit_str((rest % 10) as u64));
    assert(s@ =~= old(s)@ + decimal_text(units as nat, places as nat));
}

/// A quotient of at least one in double precision, with some decimal places.
pub fn ratio_string(n: u64, d: u64, places: u32) -> (r: String)
    requires
        0 < d <= n,
        d <= 4_503_599_627_370_496,
        places <= 2,
    ensures
        r@ == ratio_text(n as nat, d as nat, places as nat),
{
    let x = double_of(n);
    assert(reaches(x@, d as nat));
    let q = divided(x, d);
    let mut s = String::new();
    push_decimal(&mut s, units_of(q, places), places);
    assert(s@ =~= ratio_text(n as nat, d as nat, places as nat));
    s
}

// ── Three digits and a unit ─────────────────────────────────────────────────

/// A number in thousands, millions and so on: divided until it is below a thousand, at most so many
/// times, with the number of times.
pub open spec fn thousands(x: Double, unit: nat, more: nat) -> (Double, nat)
    decreases more,
{
    if more == 0 || !reaches(x, 1000) {
        (x, unit)
    } else {
        thousands(quotient(x, 1000), unit + 1, (more - 1) as nat)
    }
}

/// The decimal places that make three digits.
pub open spec fn three_digit_places(x: Double) -> nat {
    if reaches(x, 100) {
        0
    } else if reaches(x, 10) {
        1
    } else {
        2
    }
}

/// A double in units of the last of its three digits; halves are rounded up.
pub open spec fn three_digits_of(x: Double) -> nat {
    let y = product(x, ten(three_digit_places(x)));
    half_up(y.num, two(y.shift))
}

/// The units with no decimal zeros at the end.
pub open spec fn shortest(units: nat, places: nat) -> (nat, nat)
    decreases places,
{
    if places > 0 && units % 10 == 0 {
        shortest(units / 10, (places - 1) as nat)
    } else {
        (units, places)
    }
}

/// The letter of a unit.
pub open spec fn unit_text(unit: nat) -> Seq<char> {
    if unit == 0 {
        ""@
    } else if unit == 1 {
        "k"@
    } else if unit == 2 {
        "m"@
    } else if unit == 3 {
        "b"@
    } else {
        "t"@
    }
}

/// The largest unit.
pub const LAST_UNIT: u32 = 4;

/// A number with three digits and a unit. Where rounding gives a thousand of a unit, it is one of
/// the next.
pub open spec fn compact_text(n: nat) -> Seq<char> {
    if n < 1000 {
        dec_text(n)
    } else {
        let (x, unit) = thousands(whole_double(n), 0, LAST_UNIT as nat);
        let places = three_digit_places(x);
        let units = three_digits_of(x);
        if units >= 1000 * ten(places) && unit < LAST_UNIT {
            let y = quotient(nearest(units, ten(places)), 1000);
            let (u, p) = shortest(three_digits_of(y), three_digit_places(y));
            decimal_text(u, p) + unit_text(unit + 1)
        } else {
            let (u, p) = shortest(units, places);
            decimal_text(u, p) + unit_text(unit)
        }
    }
}

/// A double in units of the last of its three digits, and the decimal places of these.
fn in_three_digits(x: Dbl) -> (r: (u128, u32))
    requires
        x.wf(),
        reaches(x@, 1),
        x.num <= 576_460_752_303_423_488,
    ensures
        r.0 == three_digits_of(x@),
        r.1 == three_digit_places(x@),
        r.1 <= 2,
        r.0 <= 115_292_150_460_684_697_601,
{
    let places: u32 = if x.at_least(100) {
        0
    } else if x.at_least(10) {
        1
    } else {
        2
    };
    let f: u128 = scale_of(places);
    let y = multiplied(x, f as u64);
    let p: u128 = power_of_two(y.shift);
    proof {
        assert(y.num / p <= y.num) by (nonlinear_arith)
            requires
                p >= 1,
        ;
    }
    (round_half_up(y.num, p), places)
}

/// Appends units without decimal zeros at the end, and a unit.
fn push_shortest(s: &mut String, units: u128, places: u32, unit: u32)
    requires
        places <= 2,
    ensures
        ({
            let (u, p) = shortest(units as nat, places as nat);
            final(s)@ == old(s)@ + (decimal_text(u, p) + unit_text(unit as nat))
        }),
{
    let mut u: u128 = units;
    let mut p: u32 = places;
    while p > 0 && u % 10 == 0
        invariant
            p <= 2,
            shortest(units as nat, places as nat) == shortest(u as nat, p as nat),
        decreases p,
    {
        u = u / 10;
        p -= 1;
    }
    push_decimal(s, u, p);
    let letter = match unit {
        0 => "",
        1 => "k",
        2 => "m",
        3 => "b",
        _ => "t",
    };
    s.append(letter);
    assert(s@ =~= old(s)@ + (decimal_text(u as nat, p as nat) + unit_text(unit as nat)));
}

/// A number with three digits and a unit.
pub fn compact_3sf(n: u64) -> (r: String)
    ensures
        r@ == compact_text(n as nat),
{
    let mut s = String::new();
    if n < 1000 {
        push_number(&mut s, n as u128);
        assert(s@ =~= compact_text(n as nat));
        return s;
    }
    let mut x = double_of(n);
    let ghost start = x@;
    let mut unit: u32 = 0;
    assert(reaches(x@, 1000));
    assert(reaches(x@, 1));
    while unit < LAST_UNIT && x.at_least(1000)
        invariant
            unit <= LAST_UNIT,
            x.wf(),
            reaches(x@, 1),
            unit == 0 ==> reaches(x@, 1000) && x.num <= 36_893_488_147_419_103_232,
            unit > 0 ==> x.num <= 144_115_188_075_855_872,
            start == whole_double(n as nat),
            thousands(start, 0, LAST_UNIT as nat) == thousands(
                x@,
                unit as nat,
                (LAST_UNIT - unit) as nat,
            ),
        ensures
            1 <= unit <= LAST_UNIT,
            x.wf(),
            reaches(x@, 1),
            x.num <= 144_115_188_075_855_872,
            thousands(start, 0, LAST_UNIT as nat) == (x@, unit as nat),
        decreases LAST_UNIT - unit,
    {
        x = divided(x, 1000);
        unit += 1;
    }
    let (units, places) = in_three_digits(x);
    let scale: u128 = scale_of(places);
    if units >= 1000 * scale && unit < LAST_UNIT {
        let z = nearest_double(units, scale);
        proof {
            lemma_nearest_reaches(units as nat, scale as nat, 1000);
            assert(z.num <= z.num * scale) by (nonlinear_arith)
                requires
                    scale >= 1,
            ;
        }
        let y = divided(z, 1000);
        let (again, its_places) = in_three_digits(y);
        push_shortest(&mut s, again, its_places, unit + 1);
    } else {
        push_shortest(&mut s, units, places, unit);
    }
    assert(s@ =~= compact_text(n as nat));
    s
}

} // verus!
