//! Byte-level text helpers: scanning, comparing and slicing.

use vstd::prelude::*;
use vstd::string::*;
use vstd::utf8::*;

verus! {

pub const NEWLINE: u8 = 0x0a;

pub const CARRIAGE_RETURN: u8 = 0x0d;

pub const SPACE: u8 = 0x20;

pub const QUOTE: u8 = 0x22;

pub const PLUS: u8 = 0x2b;

pub const MINUS: u8 = 0x2d;

pub const DOT: u8 = 0x2e;

pub const SLASH: u8 = 0x2f;

pub const ZERO: u8 = 0x30;

pub const NINE: u8 = 0x39;

pub const COLON: u8 = 0x3a;

pub const QUESTION: u8 = 0x3f;

pub const OPEN_BRACKET: u8 = 0x5b;

pub const CLOSE_BRACKET: u8 = 0x5d;

// ── Scanning ────────────────────────────────────────────────────────────────

/// The first position at or after `i` that holds the byte `c`; the length of `b` if there is none.
/// A start beyond the end stays where it is.
pub open spec fn until(b: Seq<u8>, i: int, c: u8) -> int
    decreases b.len() - i,
{
    if 0 <= i < b.len() && b[i] != c {
        until(b, i + 1, c)
    } else {
        i
    }
}

/// The first position at or after `i` that holds something other than a space.
pub open spec fn past_spaces(b: Seq<u8>, i: int) -> int
    decreases b.len() - i,
{
    if 0 <= i < b.len() && b[i] == SPACE {
        past_spaces(b, i + 1)
    } else {
        i
    }
}

/// What `until` finds: nothing before it matches, and it matches unless it is the end.
pub proof fn lemma_until(b: Seq<u8>, i: int, c: u8)
    requires
        0 <= i <= b.len(),
    ensures
        i <= until(b, i, c) <= b.len(),
        forall|k: int| i <= k < until(b, i, c) ==> b[k] != c,
        until(b, i, c) < b.len() ==> b[until(b, i, c)] == c,
    decreases b.len() - i,
{
    if i < b.len() && b[i] != c {
        lemma_until(b, i + 1, c);
    }
}

/// What `past_spaces` finds: only spaces before it, and no space at it.
pub proof fn lemma_past_spaces(b: Seq<u8>, i: int)
    requires
        0 <= i <= b.len(),
    ensures
        i <= past_spaces(b, i) <= b.len(),
        forall|k: int| i <= k < past_spaces(b, i) ==> b[k] == SPACE,
        past_spaces(b, i) < b.len() ==> b[past_spaces(b, i)] != SPACE,
    decreases b.len() - i,
{
    if i < b.len() && b[i] == SPACE {
        lemma_past_spaces(b, i + 1);
    }
}

/// Position of the first `c` at or after `start`, or the length of `b`.
pub fn scan_until(b: &[u8], start: usize, c: u8) -> (end: usize)
    requires
        start <= b@.len(),
    ensures
        end == until(b@, start as int, c),
        start <= end <= b@.len(),
        end < b@.len() ==> b@[end as int] == c,
        forall|k: int| start <= k < end ==> b@[k] != c,
{
    let mut i: usize = start;
    while i < b.len() && b[i] != c
        invariant
            start <= i <= b@.len(),
            until(b@, start as int, c) == until(b@, i as int, c),
        decreases b@.len() - i,
    {
        i += 1;
    }
    proof {
        lemma_until(b@, start as int, c);
    }
    i
}

/// Position of the first byte at or after `start` that is not a space, or the length of `b`.
pub fn scan_spaces(b: &[u8], start: usize) -> (end: usize)
    requires
        start <= b@.len(),
    ensures
        end == past_spaces(b@, start as int),
        start <= end <= b@.len(),
{
    let mut i: usize = start;
    while i < b.len() && b[i] == SPACE
        invariant
            start <= i <= b@.len(),
            past_spaces(b@, start as int) == past_spaces(b@, i as int),
        decreases b@.len() - i,
    {
        i += 1;
    }
    i
}

// ── Comparing ───────────────────────────────────────────────────────────────

/// `p` occurs in `b` at position `i`.
pub open spec fn occurs_at(b: Seq<u8>, p: Seq<u8>, i: int) -> bool {
    0 <= i && i + p.len() <= b.len() && b.subrange(i, i + p.len()) == p
}

/// Whether the bytes of `p` stand in `b` at position `i`.
pub fn matches_at(b: &[u8], i: usize, p: &[u8]) -> (r: bool)
    requires
        i <= b@.len(),
    ensures
        r == occurs_at(b@, p@, i as int),
{
    let n: usize = b.len();
    if n - i < p.len() {
        return false;
    }
    let mut k: usize = 0;
    while k < p.len()
        invariant
            0 <= k <= p@.len(),
            n == b@.len(),
            i + p@.len() <= n,
            forall|j: int| 0 <= j < k ==> b@[i + j] == p@[j],
        decreases p@.len() - k,
    {
        if b[i + k] != p[k] {
            assert(b@.subrange(i as int, i + p@.len())[k as int] != p@[k as int]);
            return false;
        }
        k += 1;
    }
    assert(b@.subrange(i as int, i + p@.len()) =~= p@);
    true
}

/// Whether two byte slices hold the same bytes.
pub fn bytes_eq(a: &[u8], b: &[u8]) -> (r: bool)
    ensures
        r == (a@ == b@),
{
    if a.len() != b.len() {
        return false;
    }
    let r = matches_at(a, 0, b);
    assert(a@.subrange(0, a@.len() as int) =~= a@);
    r
}

/// Whether `b` ends in the bytes of `p`.
pub fn ends_with(b: &[u8], p: &[u8]) -> (r: bool)
    ensures
        r == occurs_at(b@, p@, b@.len() - p@.len()),
{
    if b.len() < p.len() {
        return false;
    }
    matches_at(b, b.len() - p.len(), p)
}

// ── Strings and their bytes ─────────────────────────────────────────────────

/// A position of a string's bytes that holds an ASCII byte is a character boundary.
pub proof fn lemma_ascii_boundary(s: &str, i: int)
    requires
        0 <= i < s.spec_bytes().len(),
        s.spec_bytes()[i] < 0x80u8,
    ensures
        is_char_boundary(s.spec_bytes(), i),
{
    encode_utf8_valid_utf8(s@);
    is_char_boundary_iff_not_is_continuation_byte(s.spec_bytes(), i);
}

/// The position right after an ASCII byte of a string is a character boundary.
pub proof fn lemma_boundary_after_ascii(s: &str, i: int)
    requires
        0 <= i < s.spec_bytes().len(),
        s.spec_bytes()[i] < 0x80u8,
    ensures
        is_char_boundary(s.spec_bytes(), i + 1),
{
    encode_utf8_valid_utf8(s@);
    lemma_boundary_step(s.spec_bytes(), i);
}

proof fn lemma_boundary_step(b: Seq<u8>, i: int)
    requires
        valid_utf8(b),
        0 <= i < b.len(),
        b[i] < 0x80u8,
    ensures
        is_char_boundary(b, i + 1),
    decreases b.len(),
{
    is_char_boundary_iff_not_is_continuation_byte(b, i);
    let n = length_of_first_scalar(b);
    if i == 0 {
        reveal_with_fuel(is_char_boundary, 2);
    } else {
        assert(is_char_boundary(pop_first_scalar(b), i - n));
        if i < n {
            assert(false);
        }
        assert(pop_first_scalar(b)[i - n] == b[i]);
        lemma_boundary_step(pop_first_scalar(b), i - n);
    }
}

/// Both ends of a string are character boundaries.
pub proof fn lemma_boundary_ends(s: &str)
    ensures
        is_char_boundary(s.spec_bytes(), 0),
        is_char_boundary(s.spec_bytes(), s.spec_bytes().len() as int),
{
    encode_utf8_valid_utf8(s@);
    is_char_boundary_start_end_of_seq(s.spec_bytes());
}

/// Two strings with the same bytes hold the same characters.
pub proof fn lemma_bytes_determine(a: Seq<char>, b: Seq<char>)
    requires
        encode_utf8(a) == encode_utf8(b),
    ensures
        a == b,
{
    encode_utf8_decode_utf8(a);
    encode_utf8_decode_utf8(b);
}

/// `std::str::from_utf8`: the string that bytes encode, if they are valid UTF-8.
#[verifier::external_body]
pub(crate) fn utf8_str(b: &[u8]) -> (r: Option<&str>)
    ensures
        match r {
            Some(s) => s.spec_bytes() == b@,
            None => !valid_utf8(b@),
        },
{
    std::str::from_utf8(b).ok()
}

/// Whether two strings hold the same characters.
pub fn str_eq(a: &str, b: &str) -> (r: bool)
    ensures
        r == (a@ == b@),
{
    let r = bytes_eq(a.as_bytes(), b.as_bytes());
    proof {
        if r {
            lemma_bytes_determine(a@, b@);
        }
    }
    r
}

/// The part of `s` between two byte positions.
pub fn slice_str<'a>(s: &'a str, from: usize, to: usize) -> (r: &'a str)
    requires
        from <= to <= s.spec_bytes().len(),
        is_char_boundary(s.spec_bytes(), from as int),
        is_char_boundary(s.spec_bytes(), to as int),
    ensures
        r.spec_bytes() == s.spec_bytes().subrange(from as int, to as int),
{
    let (head, _) = s.split_at(to);
    proof {
        encode_utf8_valid_utf8(s@);
        encode_utf8_valid_utf8(head@);
        if from < to {
            is_char_boundary_iff_not_is_continuation_byte(s.spec_bytes(), from as int);
            is_char_boundary_iff_not_is_continuation_byte(head.spec_bytes(), from as int);
        } else {
            is_char_boundary_start_end_of_seq(head.spec_bytes());
        }
    }
    let (_, r) = head.split_at(from);
    r
}

// ── Searching ───────────────────────────────────────────────────────────────

/// The last position before `end` that holds the byte `c`; -1 if there is none.
pub open spec fn last_before(b: Seq<u8>, end: int, c: u8) -> int
    decreases end,
{
    if end <= 0 || end > b.len() {
        -1
    } else if b[end - 1] == c {
        end - 1
    } else {
        last_before(b, end - 1, c)
    }
}

/// What `last_before` finds: nothing behind it matches, and it matches unless it is -1.
pub proof fn lemma_last_before(b: Seq<u8>, end: int, c: u8)
    requires
        0 <= end <= b.len(),
    ensures
        -1 <= last_before(b, end, c) < end,
        last_before(b, end, c) >= 0 ==> b[last_before(b, end, c)] == c,
        forall|k: int| last_before(b, end, c) < k < end ==> b[k] != c,
    decreases end,
{
    if end > 0 && b[end - 1] != c {
        lemma_last_before(b, end - 1, c);
    }
}

/// `memchr::memchr`: the first position of a byte.
#[verifier::external_body]
pub(crate) fn find_byte(c: u8, b: &[u8]) -> (r: Option<usize>)
    ensures
        match r {
            Some(i) => i < b@.len() && i == until(b@, 0, c),
            None => until(b@, 0, c) == b@.len(),
        },
{
    memchr::memchr(c, b)
}

/// `memchr::memrchr`: the last position of a byte.
#[verifier::external_body]
pub(crate) fn find_last_byte(c: u8, b: &[u8]) -> (r: Option<usize>)
    ensures
        match r {
            Some(i) => i == last_before(b@, b@.len() as int, c),
            None => last_before(b@, b@.len() as int, c) == -1,
        },
{
    memchr::memrchr(c, b)
}

// ── Order ───────────────────────────────────────────────────────────────────

/// One sequence of bytes comes before another: at the first byte where they differ it has the
/// smaller one, or it is the start of the other.
pub open spec fn comes_before(a: Seq<u8>, b: Seq<u8>) -> bool
    decreases a.len(),
{
    if b.len() == 0 {
        false
    } else if a.len() == 0 {
        true
    } else if a[0] != b[0] {
        a[0] < b[0]
    } else {
        comes_before(a.drop_first(), b.drop_first())
    }
}

proof fn lemma_common_start(a: Seq<u8>, b: Seq<u8>, n: int)
    requires
        0 <= n <= a.len(),
        n <= b.len(),
        a.take(n) == b.take(n),
    ensures
        comes_before(a, b) == comes_before(a.skip(n), b.skip(n)),
    decreases n,
{
    if n == 0 {
        assert(a.skip(0) =~= a);
        assert(b.skip(0) =~= b);
    } else {
        assert(a[0] == a.take(n)[0] && b[0] == b.take(n)[0]);
        let x = a.drop_first();
        let y = b.drop_first();
        assert forall|i: int| 0 <= i < n - 1 implies x[i] == y[i] by {
            assert(x[i] == a.take(n)[i + 1] && y[i] == b.take(n)[i + 1]);
        }
        assert(x.take(n - 1) =~= y.take(n - 1));
        lemma_common_start(x, y, n - 1);
        assert(x.skip(n - 1) =~= a.skip(n));
        assert(y.skip(n - 1) =~= b.skip(n));
    }
}

/// What comes before something comes before all that comes after it.
pub proof fn lemma_before_transitive(a: Seq<u8>, b: Seq<u8>, c: Seq<u8>)
    requires
        comes_before(a, b),
        comes_before(b, c),
    ensures
        comes_before(a, c),
    decreases a.len(),
{
    if a.len() > 0 && a[0] == b[0] && b[0] == c[0] {
        lemma_before_transitive(a.drop_first(), b.drop_first(), c.drop_first());
    }
}

/// Of two different sequences one comes before the other.
pub proof fn lemma_before_total(a: Seq<u8>, b: Seq<u8>)
    ensures
        comes_before(a, b) || comes_before(b, a) || a == b,
        !(comes_before(a, b) && comes_before(b, a)),
        !comes_before(a, a),
    decreases a.len(),
{
    if a.len() > 0 {
        lemma_before_total(a.drop_first(), a.drop_first());
        if b.len() > 0 && a[0] == b[0] {
            lemma_before_total(a.drop_first(), b.drop_first());
            if a.drop_first() == b.drop_first() {
                assert(a =~= seq![a[0]] + a.drop_first());
                assert(b =~= seq![b[0]] + b.drop_first());
            }
        }
    } else if b.len() == 0 {
        assert(a =~= b);
    }
}

/// Whether one text comes before another, byte by byte.
pub fn before(a: &str, b: &str) -> (r: bool)
    ensures
        r == comes_before(encode_utf8(a@), encode_utf8(b@)),
{
    let x = a.as_bytes();
    let y = b.as_bytes();
    let mut i: usize = 0;
    while i < x.len() && i < y.len()
        invariant
            0 <= i <= x@.len(),
            i <= y@.len(),
            x@.take(i as int) == y@.take(i as int),
            x@ == encode_utf8(a@),
            y@ == encode_utf8(b@),
        decreases x@.len() - i,
    {
        if x[i] != y[i] {
            proof {
                lemma_common_start(x@, y@, i as int);
            }
            return x[i] < y[i];
        }
        assert(x@.take(i + 1) =~= x@.take(i as int).push(x@[i as int]));
        assert(y@.take(i + 1) =~= y@.take(i as int).push(y@[i as int]));
        i += 1;
    }
    proof {
        lemma_common_start(x@, y@, i as int);
    }
    i < y.len()
}

/// Texts are in order, and none occurs twice.
pub open spec fn in_order(texts: Seq<Seq<char>>) -> bool {
    forall|i: int, j: int|
        0 <= i < j < texts.len() ==> comes_before(
            encode_utf8(#[trigger] texts[i]),
            encode_utf8(#[trigger] texts[j]),
        )
}

/// Texts stay in order with one more at its place.
pub proof fn lemma_insert_order(t: Seq<Seq<char>>, text: Seq<char>, i: int, a: int, b: int)
    requires
        in_order(t),
        0 <= i <= t.len(),
        forall|j: int| 0 <= j < i ==> comes_before(encode_utf8(#[trigger] t[j]), encode_utf8(text)),
        i < t.len() ==> comes_before(encode_utf8(text), encode_utf8(t[i])),
        0 <= a < b < t.len() + 1,
    ensures
        comes_before(
            encode_utf8(t.insert(i, text)[a]),
            encode_utf8(t.insert(i, text)[b]),
        ),
{
    let n = t.insert(i, text);
    let x = if a < i {
        a
    } else {
        a - 1
    };
    let y = if b < i {
        b
    } else {
        b - 1
    };
    if a != i && b != i {
        assert(n[a] == t[x] && n[b] == t[y]);
        assert(comes_before(encode_utf8(t[x]), encode_utf8(t[y])));
    } else if a == i {
        assert(n[b] == t[y]);
        if y > i {
            assert(comes_before(encode_utf8(t[i]), encode_utf8(t[y])));
            lemma_before_transitive(encode_utf8(text), encode_utf8(t[i]), encode_utf8(t[y]));
        }
    } else {
        assert(n[a] == t[x]);
        assert(comes_before(encode_utf8(t[x]), encode_utf8(text)));
    }
}

// ── Numbers as text ─────────────────────────────────────────────────────────

/// A decimal digit as a character.
pub open spec fn digit_char(d: int) -> char {
    (0x30 + d) as char
}

/// A number in decimal, without leading zeros.
pub open spec fn dec_text(n: nat) -> Seq<char>
    decreases n,
{
    if n < 10 {
        seq![digit_char(n as int)]
    } else {
        dec_text(n / 10).push(digit_char((n % 10) as int))
    }
}

/// A number below a hundred with two digits.
pub open spec fn two_digits(n: int) -> Seq<char> {
    seq![digit_char(n / 10), digit_char(n % 10)]
}

/// A decimal digit as text.
pub fn digit_str(d: u64) -> (r: &'static str)
    requires
        d < 10,
    ensures
        r@ == seq![digit_char(d as int)],
{
    proof {
        reveal_strlit("0");
        reveal_strlit("1");
        reveal_strlit("2");
        reveal_strlit("3");
        reveal_strlit("4");
        reveal_strlit("5");
        reveal_strlit("6");
        reveal_strlit("7");
        reveal_strlit("8");
        reveal_strlit("9");
    }
    let r = match d {
        0 => "0",
        1 => "1",
        2 => "2",
        3 => "3",
        4 => "4",
        5 => "5",
        6 => "6",
        7 => "7",
        8 => "8",
        _ => "9",
    };
    assert(r@ =~= seq![digit_char(d as int)]);
    r
}

/// Appends a number in decimal.
pub fn push_dec(s: &mut String, n: u64)
    ensures
        final(s)@ == old(s)@ + dec_text(n as nat),
    decreases n,
{
    if n >= 10 {
        push_dec(s, n / 10);
    }
    let ghost before = s@;
    s.append(digit_str(n % 10));
    assert(s@ =~= old(s)@ + dec_text(n as nat));
}

/// A number in decimal.
pub fn dec_string(n: u64) -> (r: String)
    ensures
        r@ == dec_text(n as nat),
{
    let mut s = String::new();
    push_dec(&mut s, n);
    assert(s@ =~= dec_text(n as nat));
    s
}

/// Appends a number below a hundred with two digits.
pub fn push_two_digits(s: &mut String, n: u64)
    requires
        n < 100,
    ensures
        final(s)@ == old(s)@ + two_digits(n as int),
{
    s.append(digit_str(n / 10));
    s.append(digit_str(n % 10));
    assert(s@ =~= old(s)@ + two_digits(n as int));
}

} // verus!
