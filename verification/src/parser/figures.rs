//! What the numbers, response times and methods of a line say, by the characters that write them.

use vstd::prelude::*;
use vstd::string::*;

use super::clock::digit_written;
use super::combined::{
    agent_at, all_digits, bracket_at, bytes_end, bytes_start, decimal, entry_of, find_key, float_ms,
    fraction_ms, ip_end, is_digit, known_method, low32, month_of, number_end, path_end, referer_at,
    referer_end, request_end, request_start, status_end, status_start, u64_value,
};
use super::written::{fields_ok, lacks, law_line_is_read_back, line_of, LineFields};
use crate::text::{
    lemma_until, occurs_at, past_spaces, until, CLOSE_BRACKET, DOT, QUOTE, SPACE,
};

verus! {

/// A number as it is written: its digits from the first, with no zero in front.
pub open spec fn figures(n: nat) -> Seq<u8>
    decreases n,
{
    if n < 10 {
        seq![digit_written(n as int)]
    } else {
        figures(n / 10).push(digit_written((n % 10) as int))
    }
}

/// A text of ASCII characters, as bytes.
pub open spec fn ascii(text: Seq<char>) -> Seq<u8> {
    Seq::new(text.len(), |i: int| text[i] as u8)
}

/// A written number is made of digits and is read as that number.
pub proof fn lemma_figures(n: nat)
    ensures
        all_digits(figures(n)),
        decimal(figures(n)) == n,
        figures(n).len() > 0,
        figures(n)[0] == '0' as u8 <==> n == 0,
    decreases n,
{
    let s = figures(n);
    if n < 10 {
        assert(s.drop_last() =~= Seq::<u8>::empty());
        assert(decimal(Seq::<u8>::empty()) == 0);
        assert(decimal(s) == n) by {
            reveal_with_fuel(decimal, 2);
        }
    } else {
        let front = figures(n / 10);
        lemma_figures(n / 10);
        assert(s.drop_last() =~= front);
        assert(decimal(s) == decimal(front) * 10 + n % 10);
        assert(s[0] == front[0]);
    }
}

/// A written number is read as itself, as far as 64 bits hold it, and is none beyond that.
pub proof fn law_numbers_are_read(n: nat)
    ensures
        n < 0x1_0000_0000_0000_0000 ==> u64_value(figures(n)) == Some(n as u64),
        n >= 0x1_0000_0000_0000_0000 ==> u64_value(figures(n)) is None,
{
    lemma_figures(n);
}

/// A line says what its fields write: the status is the number of its three digits, the byte count
/// the number that is written, or zero where a hyphen stands in its place.
pub proof fn law_numbers_of_a_line(f: LineFields, a: int, b: int, c: int, count: nat)
    requires
        fields_ok(f),
        0 <= a <= 9,
        0 <= b <= 9,
        0 <= c <= 9,
        f.status == seq![digit_written(a), digit_written(b), digit_written(c)],
        count < 0x1_0000_0000_0000_0000,
        f.bytes == figures(count) || (f.bytes == seq!['-' as u8] && count == 0),
    ensures
        entry_of(line_of(f)) matches Some(e) && e.status == a * 100 + b * 10 + c && e.bytes
            == count,
{
    law_line_is_read_back(f);
    if f.bytes == figures(count) {
        law_numbers_are_read(count);
    } else {
        assert(!is_digit(f.bytes[0]));
    }
}

/// What stands in front of a response time.
pub open spec fn time_key() -> Seq<u8> {
    seq!['u' as u8, 's' as u8, '=' as u8]
}

/// The rest of a line with a response time: something that does not hold its key, the key, a value
/// and something that does not go on with it.
pub open spec fn timed_rest(lead: Seq<u8>, value: Seq<u8>, tail: Seq<u8>) -> Seq<u8> {
    lead + time_key() + value + tail
}

/// No key starts in the lead, and the tail does not go on with a number.
pub open spec fn stands_alone(lead: Seq<u8>, tail: Seq<u8>) -> bool {
    &&& forall|i: int|
        0 <= i < lead.len() ==> !occurs_at(lead + time_key(), time_key(), i)
    &&& tail.len() > 0 ==> !('0' as u8 <= tail[0] <= '9' as u8) && tail[0] != '.' as u8
}

proof fn lemma_time_key()
    ensures
        "us=".spec_bytes() == time_key(),
{
    reveal_strlit("us=");
    is_ascii_spec_bytes("us=");
    assert("us=".spec_bytes() =~= time_key());
}

/// The first place of a key is found.
proof fn lemma_found(b: Seq<u8>, key: Seq<u8>, i: int, at: int)
    requires
        0 <= i <= at,
        occurs_at(b, key, at),
        key.len() > 0,
        forall|k: int| i <= k < at ==> !occurs_at(b, key, k),
    ensures
        find_key(b, key, i) == Some(at),
    decreases at - i,
{
    if i < at {
        lemma_found(b, key, i + 1, at);
    }
}

/// A number ends where no digit and no dot follows.
proof fn lemma_ends(b: Seq<u8>, i: int, end: int)
    requires
        0 <= i <= end <= b.len(),
        forall|k: int| i <= k < end ==> is_digit(#[trigger] b[k]) || b[k] == DOT,
        end < b.len() ==> !is_digit(b[end]) && b[end] != DOT,
    ensures
        number_end(b, i) == end,
    decreases end - i,
{
    if i < end {
        assert(is_digit(b[i]) || b[i] == DOT);
        lemma_ends(b, i + 1, end);
    }
}

/// The value behind the key is cut out whole.
proof fn lemma_value(lead: Seq<u8>, value: Seq<u8>, tail: Seq<u8>)
    requires
        stands_alone(lead, tail),
        forall|k: int| 0 <= k < value.len() ==> is_digit(#[trigger] value[k]) || value[k] == DOT,
    ensures
        ({
            let b = timed_rest(lead, value, tail);
            let at = lead.len() as int;
            &&& find_key(b, time_key(), 0) == Some(at)
            &&& b.subrange(at + 3, number_end(b, at + 3)) == value
        }),
{
    let key = time_key();
    let b = timed_rest(lead, value, tail);
    let at = lead.len() as int;
    assert(b.subrange(at, at + 3) =~= key);
    assert forall|k: int| 0 <= k < at implies !occurs_at(b, key, k) by {
        if occurs_at(b, key, k) {
            assert(b.subrange(k, k + 3) =~= (lead + key).subrange(k, k + 3));
            assert(occurs_at(lead + key, key, k));
        }
    }
    lemma_found(b, key, 0, at);
    let end = at + 3 + value.len();
    assert forall|k: int| at + 3 <= k < end implies is_digit(#[trigger] b[k]) || b[k] == DOT by {
        assert(b[k] == value[k - at - 3]);
    }
    if end < b.len() {
        assert(b[end] == tail[0]);
    }
    lemma_ends(b, at + 3, end);
    assert(b.subrange(at + 3, end) =~= value);
}

/// The milliseconds of seconds that are written with a fraction.
proof fn lemma_seconds_written(whole: nat, frac: Seq<u8>)
    requires
        whole <= u64::MAX,
    ensures
        ({
            let s = figures(whole) + seq![DOT] + frac;
            &&& s.contains(DOT)
            &&& until(s, 0, DOT) == figures(whole).len()
            &&& s.take(until(s, 0, DOT)) == figures(whole)
            &&& s.skip(until(s, 0, DOT) + 1) == frac
        }),
{
    let w = figures(whole);
    let s = w + seq![DOT] + frac;
    lemma_figures(whole);
    lemma_until(s, 0, DOT);
    assert(s[w.len() as int] == DOT);
    let d = until(s, 0, DOT);
    if d < w.len() {
        assert(s[d] == w[d]);
        assert(is_digit(w[d]));
    }
    assert(s.take(d) =~= w);
    assert(s.skip(d + 1) =~= frac);
}

/// A response time that is written in seconds with a fraction is read in milliseconds: the first
/// three digits of the fraction count as they stand, and one is added where the fourth is five or
/// more. What is missing of three digits counts as zeros.
pub proof fn law_seconds_are_read(
    f: LineFields,
    lead: Seq<u8>,
    whole: nat,
    frac: Seq<u8>,
    tail: Seq<u8>,
    ms: nat,
)
    requires
        fields_ok(f),
        stands_alone(lead, tail),
        forall|k: int| 0 <= k < frac.len() ==> '0' as u8 <= #[trigger] frac[k] <= '9' as u8,
        f.rest == timed_rest(lead, figures(whole) + seq!['.' as u8] + frac, tail),
        ms == whole * 1000 + (if frac.len() > 0 {
            (frac[0] - '0' as u8) * 100
        } else {
            0
        }) + (if frac.len() > 1 {
            (frac[1] - '0' as u8) * 10
        } else {
            0
        }) + (if frac.len() > 2 {
            frac[2] - '0' as u8
        } else {
            0
        }) + (if frac.len() > 3 && frac[3] >= '5' as u8 {
            1int
        } else {
            0
        }),
        ms < 0x1_0000_0000,
    ensures
        entry_of(line_of(f)) matches Some(e) && e.upstream_response_time_ms == Some(ms as u32),
{
    law_line_is_read_back(f);
    lemma_time_key();
    let value = figures(whole) + seq!['.' as u8] + frac;
    lemma_figures(whole);
    assert forall|k: int| 0 <= k < value.len() implies is_digit(#[trigger] value[k]) || value[k]
        == DOT by {
        if k < figures(whole).len() {
            assert(value[k] == figures(whole)[k]);
        } else if k > figures(whole).len() {
            assert(value[k] == frac[k - figures(whole).len() - 1]);
        }
    }
    lemma_value(lead, value, tail);
    lemma_seconds_written(whole, frac);
    law_numbers_are_read(whole);
    assert(low32(whole as u64) == whole);
    assert(all_digits(frac));
    reveal_with_fuel(decimal, 4);
    let n = frac.len();
    if n == 1 {
        assert(frac.drop_last() =~= Seq::<u8>::empty());
    } else if n == 2 {
        assert(frac.drop_last().drop_last() =~= Seq::<u8>::empty());
    } else if n > 2 {
        let t = frac.take(3);
        assert(t.drop_last().drop_last().drop_last() =~= Seq::<u8>::empty());
        assert(t.last() == frac[2] && t.drop_last().last() == frac[1]
            && t.drop_last().drop_last().last() == frac[0]);
        assert(all_digits(t));
    }
    assert(fraction_ms(frac) is Some && whole * 1000 + fraction_ms(frac)->0 == ms);
    assert(float_ms(value) == Some(ms as u32));
}

/// A response time that is written as a whole number is one in microseconds: it is read as the
/// milliseconds that it holds whole.
pub proof fn law_microseconds_are_read(
    f: LineFields,
    lead: Seq<u8>,
    micros: nat,
    tail: Seq<u8>,
    ms: nat,
)
    requires
        fields_ok(f),
        stands_alone(lead, tail),
        f.rest == timed_rest(lead, figures(micros), tail),
        ms * 1000 <= micros < (ms + 1) * 1000,
        ms < 0x1_0000_0000,
    ensures
        entry_of(line_of(f)) matches Some(e) && e.upstream_response_time_ms == Some(ms as u32),
{
    law_line_is_read_back(f);
    lemma_time_key();
    lemma_figures(micros);
    let value = figures(micros);
    lemma_value(lead, value, tail);
    law_numbers_are_read(micros);
    if value.contains(DOT) {
        let k = choose|k: int| 0 <= k < value.len() && value[k] == DOT;
        assert(is_digit(value[k]));
    }
    assert(micros / 1000 == ms);
}

/// The letters of the methods of HTTP that a request can have.
pub open spec fn is_method(m: Seq<u8>) -> bool {
    ||| m == ascii(seq!['G', 'E', 'T'])
    ||| m == ascii(seq!['H', 'E', 'A', 'D'])
    ||| m == ascii(seq!['O', 'P', 'T', 'I', 'O', 'N', 'S'])
    ||| m == ascii(seq!['P', 'O', 'S', 'T'])
    ||| m == ascii(seq!['P', 'A', 'T', 'C', 'H'])
    ||| m == ascii(seq!['P', 'U', 'T'])
    ||| m == ascii(seq!['D', 'E', 'L', 'E', 'T', 'E'])
    ||| m == ascii(seq!['C', 'O', 'N', 'N', 'E', 'C', 'T'])
    ||| m == ascii(seq!['P', 'R', 'O', 'P', 'F', 'I', 'N', 'D'])
    ||| m == ascii(seq!['P', 'R', 'I'])
}

/// A word that starts a request is the one that it starts with.
proof fn lemma_word(m: Seq<u8>, w: Seq<u8>, p: Seq<u8>)
    requires
        lacks(m, SPACE),
        lacks(w, SPACE),
        p =~= w.push(SPACE),
    ensures
        occurs_at(m + seq![SPACE], p, 0) <==> m == w,
{
    let s = m + seq![SPACE];
    if occurs_at(s, p, 0) {
        assert(s.subrange(0, p.len() as int)[w.len() as int] == p[w.len() as int]);
        assert(s[w.len() as int] == SPACE);
        if m.len() > w.len() {
            assert(m[w.len() as int] == SPACE);
        }
        assert forall|i: int| 0 <= i < w.len() implies m[i] == w[i] by {
            assert(s.subrange(0, p.len() as int)[i] == p[i]);
        }
        assert(m =~= w);
    } else if m == w {
        assert(s.subrange(0, p.len() as int) =~= p);
    }
}

/// A request is read where its first word is a method of HTTP, and no other word is one.
pub proof fn law_methods_of_a_request(m: Seq<u8>)
    requires
        lacks(m, ' ' as u8),
    ensures
        known_method(m + seq![' ' as u8]) <==> is_method(m),
{
    reveal_strlit("GET ");
    is_ascii_spec_bytes("GET ");
    lemma_word(m, ascii(seq!['G', 'E', 'T']), "GET ".spec_bytes());
    reveal_strlit("HEAD ");
    is_ascii_spec_bytes("HEAD ");
    lemma_word(m, ascii(seq!['H', 'E', 'A', 'D']), "HEAD ".spec_bytes());
    reveal_strlit("OPTIONS ");
    is_ascii_spec_bytes("OPTIONS ");
    lemma_word(m, ascii(seq!['O', 'P', 'T', 'I', 'O', 'N', 'S']), "OPTIONS ".spec_bytes());
    reveal_strlit("POST ");
    is_ascii_spec_bytes("POST ");
    lemma_word(m, ascii(seq!['P', 'O', 'S', 'T']), "POST ".spec_bytes());
    reveal_strlit("PATCH ");
    is_ascii_spec_bytes("PATCH ");
    lemma_word(m, ascii(seq!['P', 'A', 'T', 'C', 'H']), "PATCH ".spec_bytes());
    reveal_strlit("PUT ");
    is_ascii_spec_bytes("PUT ");
    lemma_word(m, ascii(seq!['P', 'U', 'T']), "PUT ".spec_bytes());
    reveal_strlit("DELETE ");
    is_ascii_spec_bytes("DELETE ");
    lemma_word(m, ascii(seq!['D', 'E', 'L', 'E', 'T', 'E']), "DELETE ".spec_bytes());
    reveal_strlit("CONNECT ");
    is_ascii_spec_bytes("CONNECT ");
    lemma_word(m, ascii(seq!['C', 'O', 'N', 'N', 'E', 'C', 'T']), "CONNECT ".spec_bytes());
    reveal_strlit("PROPFIND ");
    is_ascii_spec_bytes("PROPFIND ");
    lemma_word(m, ascii(seq!['P', 'R', 'O', 'P', 'F', 'I', 'N', 'D']), "PROPFIND ".spec_bytes());
    reveal_strlit("PRI ");
    is_ascii_spec_bytes("PRI ");
    lemma_word(m, ascii(seq!['P', 'R', 'I']), "PRI ".spec_bytes());
}

/// The first word of a request is the one that it starts with.
proof fn lemma_first_word(req: Seq<u8>, w: Seq<u8>, p: Seq<u8>)
    requires
        lacks(w, SPACE),
        p =~= w.push(SPACE),
    ensures
        occurs_at(req, p, 0) ==> req.subrange(0, until(req, 0, SPACE)) == w,
{
    if occurs_at(req, p, 0) {
        let n = w.len() as int;
        assert forall|i: int| 0 <= i <= n implies req[i] == p[i] by {
            assert(req.subrange(0, p.len() as int)[i] == p[i]);
        }
        lemma_until(req, 0, SPACE);
        let e = until(req, 0, SPACE);
        if e < n {
            assert(w[e] == p[e]);
        }
        assert(req[n] == SPACE);
        assert(e == n);
        assert(req.subrange(0, n) =~= w);
    }
}

proof fn lemma_method_of(req: Seq<u8>)
    requires
        known_method(req),
    ensures
        is_method(req.subrange(0, until(req, 0, SPACE))),
{
    reveal_strlit("GET ");
    is_ascii_spec_bytes("GET ");
    lemma_first_word(req, ascii(seq!['G', 'E', 'T']), "GET ".spec_bytes());
    reveal_strlit("HEAD ");
    is_ascii_spec_bytes("HEAD ");
    lemma_first_word(req, ascii(seq!['H', 'E', 'A', 'D']), "HEAD ".spec_bytes());
    reveal_strlit("OPTIONS ");
    is_ascii_spec_bytes("OPTIONS ");
    lemma_first_word(req, ascii(seq!['O', 'P', 'T', 'I', 'O', 'N', 'S']), "OPTIONS ".spec_bytes());
    reveal_strlit("POST ");
    is_ascii_spec_bytes("POST ");
    lemma_first_word(req, ascii(seq!['P', 'O', 'S', 'T']), "POST ".spec_bytes());
    reveal_strlit("PATCH ");
    is_ascii_spec_bytes("PATCH ");
    lemma_first_word(req, ascii(seq!['P', 'A', 'T', 'C', 'H']), "PATCH ".spec_bytes());
    reveal_strlit("PUT ");
    is_ascii_spec_bytes("PUT ");
    lemma_first_word(req, ascii(seq!['P', 'U', 'T']), "PUT ".spec_bytes());
    reveal_strlit("DELETE ");
    is_ascii_spec_bytes("DELETE ");
    lemma_first_word(req, ascii(seq!['D', 'E', 'L', 'E', 'T', 'E']), "DELETE ".spec_bytes());
    reveal_strlit("CONNECT ");
    is_ascii_spec_bytes("CONNECT ");
    lemma_first_word(req, ascii(seq!['C', 'O', 'N', 'N', 'E', 'C', 'T']), "CONNECT ".spec_bytes());
    reveal_strlit("PROPFIND ");
    is_ascii_spec_bytes("PROPFIND ");
    lemma_first_word(
        req,
        ascii(seq!['P', 'R', 'O', 'P', 'F', 'I', 'N', 'D']),
        "PROPFIND ".spec_bytes(),
    );
    reveal_strlit("PRI ");
    is_ascii_spec_bytes("PRI ");
    lemma_first_word(req, ascii(seq!['P', 'R', 'I']), "PRI ".spec_bytes());
}

/// A search goes forward.
proof fn lemma_forward(b: Seq<u8>, i: int, c: u8)
    ensures
        until(b, i, c) >= i,
        past_spaces(b, i) >= i,
    decreases b.len() - i,
{
    if 0 <= i < b.len() {
        lemma_forward(b, i + 1, c);
    }
}

/// Nothing is taken for an entry that is none: whatever is read has an address, a time of at least
/// twenty-six bytes with the name of a month, a method of HTTP, a path without spaces, a protocol and
/// a status of three digits, and its request is ASCII and holds no quote.
pub proof fn law_every_entry_is_whole(b: Seq<u8>)
    requires
        entry_of(b) is Some,
    ensures
        ({
            let e = entry_of(b)->0;
            &&& e.ip.len() > 0 && lacks(e.ip, ' ' as u8)
            &&& e.time.len() >= 26 && lacks(e.time, ']' as u8)
            &&& month_of(e.time.subrange(3, 6)) == Some(e.month_num)
            &&& is_method(e.method)
            &&& lacks(e.path, ' ' as u8) && lacks(e.path, '"' as u8)
            &&& e.proto.len() > 0 && lacks(e.proto, '"' as u8)
            &&& forall|i: int| 0 <= i < e.path.len() ==> #[trigger] e.path[i] < 128
            &&& forall|i: int| 0 <= i < e.proto.len() ==> #[trigger] e.proto[i] < 128
            &&& e.status <= 999
            &&& lacks(e.referer, '"' as u8)
            &&& lacks(e.user_agent, '"' as u8)
        }),
{
    let e = entry_of(b)->0;
    lemma_until(b, 0, SPACE);
    lemma_until(b, ip_end(b) + 1, SPACE);
    lemma_until(b, until(b, ip_end(b) + 1, SPACE) + 1, SPACE);
    lemma_until(b, bracket_at(b) + 1, CLOSE_BRACKET);
    lemma_until(b, request_start(b), QUOTE);
    let req = b.subrange(request_start(b), request_end(b));
    lemma_until(req, 0, SPACE);
    lemma_until(req, until(req, 0, SPACE) + 1, SPACE);
    lemma_method_of(req);
    assert(lacks(req, QUOTE));
    assert(b.subrange(bracket_at(b) + 4, bracket_at(b) + 7) =~= e.time.subrange(3, 6));
    assert forall|i: int| 0 <= i < e.path.len() implies #[trigger] e.path[i] < 128 && e.path[i]
        != QUOTE && e.path[i] != SPACE by {
        assert(e.path[i] == req[until(req, 0, SPACE) + 1 + i]);
    }
    assert forall|i: int| 0 <= i < e.proto.len() implies #[trigger] e.proto[i] < 128 && e.proto[i]
        != QUOTE by {
        assert(e.proto[i] == req[path_end(req) + 1 + i]);
    }
    lemma_forward(b, request_end(b) + 2, SPACE);
    lemma_forward(b, status_start(b), SPACE);
    lemma_forward(b, status_end(b) + 1, SPACE);
    lemma_forward(b, bytes_start(b), SPACE);
    lemma_forward(b, bytes_end(b) + 1, SPACE);
    lemma_until(b, referer_at(b) + 1, QUOTE);
    lemma_forward(b, referer_end(b) + 2, QUOTE);
    lemma_until(b, agent_at(b) + 1, QUOTE);
}

} // verus!
