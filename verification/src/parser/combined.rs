//! The combined log format of nginx and Apache:
//! `IP IDENT USER [TIMESTAMP] "REQUEST" STATUS BYTES "REFERER" "UA"`, optionally followed by
//! `key=value` fields.

use vstd::prelude::*;
use vstd::string::*;
use vstd::utf8::*;

use super::{days_from_civil, march_days, EntryView, LogEntry};
use crate::text::{
    bytes_eq, lemma_ascii_boundary, lemma_boundary_after_ascii, lemma_boundary_ends, matches_at,
    occurs_at, past_spaces, scan_spaces, scan_until, until, CLOSE_BRACKET, DOT, MINUS, NINE,
    OPEN_BRACKET, PLUS, QUOTE, SPACE, ZERO,
};

verus! {

// ── Numbers ─────────────────────────────────────────────────────────────────

pub open spec fn is_digit(c: u8) -> bool {
    ZERO <= c <= NINE
}

pub open spec fn all_digits(s: Seq<u8>) -> bool {
    forall|i: int| 0 <= i < s.len() ==> is_digit(#[trigger] s[i])
}

/// The number that a run of ASCII digits writes; zero for an empty run.
pub open spec fn decimal(s: Seq<u8>) -> nat
    decreases s.len(),
{
    if s.len() == 0 {
        0
    } else {
        decimal(s.drop_last()) * 10 + (s.last() - ZERO) as nat
    }
}

/// The value of an unsigned number, if it is made of digits and fits 64 bits.
pub open spec fn u64_value(s: Seq<u8>) -> Option<u64> {
    if all_digits(s) && decimal(s) <= u64::MAX {
        Some(decimal(s) as u64)
    } else {
        None
    }
}

proof fn lemma_decimal_prefix(s: Seq<u8>, k: int)
    requires
        all_digits(s),
        0 <= k <= s.len(),
    ensures
        decimal(s.take(k)) <= decimal(s),
    decreases s.len(),
{
    if k == s.len() {
        assert(s.take(k) =~= s);
    } else {
        let t = s.drop_last();
        assert(t.take(k) =~= s.take(k));
        lemma_decimal_prefix(t, k);
    }
}

/// Reads an unsigned decimal number. A number that does not fit is not a number.
pub fn parse_u64(bytes: &[u8]) -> (r: Option<u64>)
    ensures
        r == u64_value(bytes@),
{
    let mut n: u64 = 0;
    let mut i: usize = 0;
    while i < bytes.len()
        invariant
            0 <= i <= bytes@.len(),
            all_digits(bytes@.take(i as int)),
            n == decimal(bytes@.take(i as int)),
        decreases bytes@.len() - i,
    {
        let c: u8 = bytes[i];
        if c < ZERO || c > NINE {
            assert(!is_digit(bytes@[i as int]));
            return None;
        }
        let d: u64 = (c - ZERO) as u64;
        let ghost next = bytes@.take(i + 1);
        assert(next.drop_last() =~= bytes@.take(i as int));
        assert(next.last() == c);
        if n > (u64::MAX - d) / 10 {
            proof {
                assert(decimal(next) > u64::MAX);
                if all_digits(bytes@) {
                    lemma_decimal_prefix(bytes@, i + 1);
                }
            }
            return None;
        }
        n = n * 10 + d;
        i += 1;
    }
    assert(bytes@.take(i as int) =~= bytes@);
    Some(n)
}

/// The three-digit number at position `pos`.
pub open spec fn three_digits(b: Seq<u8>, pos: int) -> Option<u16> {
    if 0 <= pos && pos + 3 <= b.len() && is_digit(b[pos]) && is_digit(b[pos + 1]) && is_digit(
        b[pos + 2],
    ) {
        Some(((b[pos] - ZERO) * 100 + (b[pos + 1] - ZERO) * 10 + (b[pos + 2] - ZERO)) as u16)
    } else {
        None
    }
}

/// Reads the three-digit number at position `pos`.
pub fn parse_u16_3(b: &[u8], pos: usize) -> (r: Option<u16>)
    ensures
        r == three_digits(b@, pos as int),
{
    let len: usize = b.len();
    if pos >= len || len - pos < 3 {
        return None;
    }
    let x: u8 = b[pos];
    let y: u8 = b[pos + 1];
    let z: u8 = b[pos + 2];
    if x < ZERO || x > NINE || y < ZERO || y > NINE || z < ZERO || z > NINE {
        return None;
    }
    Some((x - ZERO) as u16 * 100 + (y - ZERO) as u16 * 10 + (z - ZERO) as u16)
}

// ── Response times ──────────────────────────────────────────────────────────

/// The low 32 bits of a number.
pub open spec fn low32(v: u64) -> u32 {
    (v % 0x1_0000_0000) as u32
}

/// The milliseconds that a fraction of a second writes, rounded at the fourth decimal.
pub open spec fn fraction_ms(frac: Seq<u8>) -> Option<nat> {
    let n = frac.len();
    if n == 0 {
        Some(0)
    } else if n == 1 {
        if all_digits(frac) {
            Some(decimal(frac) * 100)
        } else {
            None
        }
    } else if n == 2 {
        if all_digits(frac) {
            Some(decimal(frac) * 10)
        } else {
            None
        }
    } else if !all_digits(frac.take(3)) {
        None
    } else if n > 3 && frac[3] >= 0x35u8 {
        Some(decimal(frac.take(3)) + 1)
    } else {
        Some(decimal(frac.take(3)))
    }
}

/// The milliseconds of a number of seconds written with a decimal point, if they fit 32 bits.
/// The whole seconds count modulo 2^32.
pub open spec fn float_ms(s: Seq<u8>) -> Option<u32> {
    let dot = until(s, 0, DOT);
    if dot >= s.len() {
        None
    } else {
        match (u64_value(s.take(dot)), fraction_ms(s.skip(dot + 1))) {
            (Some(whole), Some(ms)) => if low32(whole) * 1000 + ms <= u32::MAX {
                Some((low32(whole) * 1000 + ms) as u32)
            } else {
                None
            },
            _ => None,
        }
    }
}

proof fn lemma_low32(v: u64)
    ensures
        v as u32 == low32(v),
{
    assert(v as u32 == v % 0x1_0000_0000) by (bit_vector);
}

proof fn lemma_decimal_small(s: Seq<u8>)
    requires
        all_digits(s),
        s.len() <= 3,
    ensures
        s.len() == 0 ==> decimal(s) == 0,
        s.len() <= 1 ==> decimal(s) <= 9,
        s.len() <= 2 ==> decimal(s) <= 99,
        decimal(s) <= 999,
    decreases s.len(),
{
    if s.len() > 0 {
        lemma_decimal_small(s.drop_last());
    }
}

/// Reads `"N.FFF"` (seconds) as milliseconds, rounding at the fourth decimal place.
pub fn parse_float_ms(slice: &[u8]) -> (r: Option<u32>)
    ensures
        r == float_ms(slice@),
{
    let dot: usize = scan_until(slice, 0, DOT);
    if dot >= slice.len() {
        return None;
    }
    let head = vstd::slice::slice_subrange(slice, 0, dot);
    let frac = vstd::slice::slice_subrange(slice, dot + 1, slice.len());
    proof {
        assert(head@ =~= slice@.take(dot as int));
        assert(frac@ =~= slice@.skip(dot + 1));
    }
    let whole: u64 = match parse_u64(head) {
        Some(v) => v,
        None => return None,
    };
    let whole: u32 = {
        proof {
            lemma_low32(whole);
        }
        #[verifier::truncate] (whole as u32)
    };
    let n: usize = frac.len();
    let ms: u32 = if n == 0 {
        0
    } else if n <= 2 {
        proof {
            if all_digits(frac@) {
                lemma_decimal_small(frac@);
            }
        }
        match parse_u64(frac) {
            Some(v) => if n == 1 {
                v as u32 * 100
            } else {
                v as u32 * 10
            },
            None => return None,
        }
    } else {
        let top = vstd::slice::slice_subrange(frac, 0, 3);
        proof {
            assert(top@ =~= frac@.take(3));
            if all_digits(top@) {
                lemma_decimal_small(top@);
            }
        }
        match parse_u64(top) {
            Some(v) => if n > 3 && frac[3] >= 0x35 {
                v as u32 + 1
            } else {
                v as u32
            },
            None => return None,
        }
    };
    let total: u64 = whole as u64 * 1000 + ms as u64;
    if total > u32::MAX as u64 {
        None
    } else {
        Some(total as u32)
    }
}

/// The first place at or after `i` where `key` occurs.
pub open spec fn find_key(b: Seq<u8>, key: Seq<u8>, i: int) -> Option<int>
    decreases b.len() - i,
{
    if i < 0 || i + key.len() > b.len() {
        None
    } else if occurs_at(b, key, i) {
        Some(i)
    } else if i == b.len() {
        None
    } else {
        find_key(b, key, i + 1)
    }
}

/// The end of the run of digits and dots that starts at `i`.
pub open spec fn number_end(b: Seq<u8>, i: int) -> int
    decreases b.len() - i,
{
    if 0 <= i < b.len() && (is_digit(b[i]) || b[i] == DOT) {
        number_end(b, i + 1)
    } else {
        i
    }
}

/// The milliseconds behind the first `key` of `b`: seconds where they are written with a decimal
/// point, microseconds where they are not.
pub open spec fn key_ms(b: Seq<u8>, key: Seq<u8>) -> Option<u32> {
    match find_key(b, key, 0) {
        None => None,
        Some(at) => {
            let value = b.subrange(at + key.len(), number_end(b, at + key.len()));
            if value.len() == 0 {
                None
            } else if value.contains(DOT) {
                float_ms(value)
            } else {
                match u64_value(value) {
                    Some(v) => Some(low32((v / 1000) as u64)),
                    None => None,
                }
            }
        },
    }
}

proof fn lemma_number_end(b: Seq<u8>, i: int)
    requires
        0 <= i <= b.len(),
    ensures
        i <= number_end(b, i) <= b.len(),
    decreases b.len() - i,
{
    if i < b.len() && (is_digit(b[i]) || b[i] == DOT) {
        lemma_number_end(b, i + 1);
    }
}

/// Finds `key` and reads the time behind it in milliseconds.
pub fn find_kv_ms(b: &[u8], key: &[u8]) -> (r: Option<u32>)
    ensures
        r == key_ms(b@, key@),
{
    let len: usize = b.len();
    if len < key.len() {
        return None;
    }
    let last: usize = len - key.len();
    let mut i: usize = 0;
    while i <= last
        invariant
            len == b@.len(),
            last + key@.len() == len,
            0 <= i <= last + 1,
            find_key(b@, key@, 0) == find_key(b@, key@, i as int),
        decreases last + 1 - i,
    {
        if matches_at(b, i, key) {
            let start: usize = i + key.len();
            let mut end: usize = start;
            while end < len && ((ZERO <= b[end] && b[end] <= NINE) || b[end] == DOT)
                invariant
                    len == b@.len(),
                    start <= end <= len,
                    number_end(b@, start as int) == number_end(b@, end as int),
                decreases len - end,
            {
                end += 1;
            }
            let value = vstd::slice::slice_subrange(b, start, end);
            if start == end {
                return None;
            }
            let dot: usize = scan_until(value, 0, DOT);
            if dot < value.len() {
                assert(value@.contains(DOT)) by {
                    assert(value@[dot as int] == DOT);
                }
                return parse_float_ms(value);
            }
            assert(!value@.contains(DOT));
            return match parse_u64(value) {
                Some(v) => {
                    let ms: u64 = v / 1000;
                    proof {
                        lemma_low32(ms);
                    }
                    Some(#[verifier::truncate] (ms as u32))
                },
                None => None,
            };
        }
        assert(key@.len() > 0) by {
            if key@.len() == 0 {
                assert(b@.subrange(i as int, i as int) =~= key@);
            }
        }
        i += 1;
    }
    None
}

// ── Months ──────────────────────────────────────────────────────────────────

/// The number of a month from its three-letter English name.
pub open spec fn month_of(m: Seq<u8>) -> Option<u8> {
    if m == "Jan".spec_bytes() {
        Some(1)
    } else if m == "Feb".spec_bytes() {
        Some(2)
    } else if m == "Mar".spec_bytes() {
        Some(3)
    } else if m == "Apr".spec_bytes() {
        Some(4)
    } else if m == "May".spec_bytes() {
        Some(5)
    } else if m == "Jun".spec_bytes() {
        Some(6)
    } else if m == "Jul".spec_bytes() {
        Some(7)
    } else if m == "Aug".spec_bytes() {
        Some(8)
    } else if m == "Sep".spec_bytes() {
        Some(9)
    } else if m == "Oct".spec_bytes() {
        Some(10)
    } else if m == "Nov".spec_bytes() {
        Some(11)
    } else if m == "Dec".spec_bytes() {
        Some(12)
    } else {
        None
    }
}

/// The number of a month from its three-letter English name.
pub fn month_num(m: &[u8]) -> (r: Option<u8>)
    ensures
        r == month_of(m@),
{
    if bytes_eq(m, "Jan".as_bytes()) {
        Some(1)
    } else if bytes_eq(m, "Feb".as_bytes()) {
        Some(2)
    } else if bytes_eq(m, "Mar".as_bytes()) {
        Some(3)
    } else if bytes_eq(m, "Apr".as_bytes()) {
        Some(4)
    } else if bytes_eq(m, "May".as_bytes()) {
        Some(5)
    } else if bytes_eq(m, "Jun".as_bytes()) {
        Some(6)
    } else if bytes_eq(m, "Jul".as_bytes()) {
        Some(7)
    } else if bytes_eq(m, "Aug".as_bytes()) {
        Some(8)
    } else if bytes_eq(m, "Sep".as_bytes()) {
        Some(9)
    } else if bytes_eq(m, "Oct".as_bytes()) {
        Some(10)
    } else if bytes_eq(m, "Nov".as_bytes()) {
        Some(11)
    } else if bytes_eq(m, "Dec".as_bytes()) {
        Some(12)
    } else {
        None
    }
}

// ── The line grammar ────────────────────────────────────────────────────────

/// Where the client address ends: at the first space.
pub open spec fn ip_end(b: Seq<u8>) -> int {
    until(b, 0, SPACE)
}

/// Where the timestamp's opening bracket stands: behind the address, the identity and the user.
pub open spec fn bracket_at(b: Seq<u8>) -> int {
    until(b, until(b, ip_end(b) + 1, SPACE) + 1, SPACE) + 1
}

/// Where the timestamp ends.
pub open spec fn time_end(b: Seq<u8>) -> int {
    until(b, bracket_at(b) + 1, CLOSE_BRACKET)
}

/// Where the request starts, behind its quote.
pub open spec fn request_start(b: Seq<u8>) -> int {
    time_end(b) + 3
}

/// Where the request ends.
pub open spec fn request_end(b: Seq<u8>) -> int {
    until(b, request_start(b), QUOTE)
}

/// The address, identity, user and timestamp stand as they should, up to the request's quote.
pub open spec fn head_ok(b: Seq<u8>) -> bool {
    let open = bracket_at(b);
    let close = time_end(b);
    &&& ip_end(b) > 0
    &&& open < b.len() && b[open] == OPEN_BRACKET
    &&& close + 2 < b.len() && b[close + 1] == SPACE && b[close + 2] == QUOTE
    &&& close - (open + 1) >= 26
    &&& month_of(b.subrange(open + 4, open + 7)) is Some
}

/// The request starts with a method of HTTP.
pub open spec fn known_method(req: Seq<u8>) -> bool {
    ||| occurs_at(req, "GET ".spec_bytes(), 0)
    ||| occurs_at(req, "HEAD ".spec_bytes(), 0)
    ||| occurs_at(req, "OPTIONS ".spec_bytes(), 0)
    ||| occurs_at(req, "POST ".spec_bytes(), 0)
    ||| occurs_at(req, "PATCH ".spec_bytes(), 0)
    ||| occurs_at(req, "PUT ".spec_bytes(), 0)
    ||| occurs_at(req, "DELETE ".spec_bytes(), 0)
    ||| occurs_at(req, "CONNECT ".spec_bytes(), 0)
    ||| occurs_at(req, "PROPFIND ".spec_bytes(), 0)
    ||| occurs_at(req, "PRI ".spec_bytes(), 0)
}

pub open spec fn all_ascii(s: Seq<u8>) -> bool {
    forall|i: int| 0 <= i < s.len() ==> #[trigger] s[i] < 0x80u8
}

/// Where the request's path ends: at its second space.
pub open spec fn path_end(req: Seq<u8>) -> int {
    until(req, until(req, 0, SPACE) + 1, SPACE)
}

/// The request is ASCII, has a known method, and has a method, a path and a protocol.
pub open spec fn request_ok(req: Seq<u8>) -> bool {
    &&& req.len() > 0
    &&& all_ascii(req)
    &&& known_method(req)
    &&& until(req, 0, SPACE) > 0
    &&& path_end(req) + 1 < req.len()
}

/// Where the status code starts.
pub open spec fn status_start(b: Seq<u8>) -> int {
    past_spaces(b, request_end(b) + 2)
}

/// Where the status code ends.
pub open spec fn status_end(b: Seq<u8>) -> int {
    until(b, status_start(b), SPACE)
}

/// Where the byte count starts.
pub open spec fn bytes_start(b: Seq<u8>) -> int {
    past_spaces(b, status_end(b) + 1)
}

/// Where the byte count ends.
pub open spec fn bytes_end(b: Seq<u8>) -> int {
    until(b, bytes_start(b), SPACE)
}

/// Where the referrer's opening quote stands.
pub open spec fn referer_at(b: Seq<u8>) -> int {
    past_spaces(b, bytes_end(b) + 1)
}

/// Where the referrer ends.
pub open spec fn referer_end(b: Seq<u8>) -> int {
    until(b, referer_at(b) + 1, QUOTE)
}

/// Where the user agent's opening quote stands.
pub open spec fn agent_at(b: Seq<u8>) -> int {
    past_spaces(b, referer_end(b) + 2)
}

/// Where the user agent ends.
pub open spec fn agent_end(b: Seq<u8>) -> int {
    until(b, agent_at(b) + 1, QUOTE)
}

/// Status, byte count, referrer and user agent stand as they should behind the request.
pub open spec fn tail_ok(b: Seq<u8>) -> bool {
    &&& request_end(b) < b.len()
    &&& status_end(b) > status_start(b)
    &&& three_digits(b, status_start(b)) is Some
    &&& referer_at(b) < b.len() && b[referer_at(b)] == QUOTE
    &&& referer_end(b) < b.len()
    &&& agent_at(b) < b.len() && b[agent_at(b)] == QUOTE
    &&& agent_end(b) < b.len()
}

/// What a line of the combined format says; `None` for a line that is not of that format.
/// A byte count that is not a number counts as zero.
pub open spec fn entry_of(b: Seq<u8>) -> Option<EntryView> {
    let req = b.subrange(request_start(b), request_end(b));
    let method_end = until(req, 0, SPACE);
    if head_ok(b) && tail_ok(b) && request_ok(req) {
        Some(
            EntryView {
                ip: b.subrange(0, ip_end(b)),
                time: b.subrange(bracket_at(b) + 1, time_end(b)),
                method: req.subrange(0, method_end),
                path: req.subrange(method_end + 1, path_end(req)),
                proto: req.subrange(path_end(req) + 1, req.len() as int),
                referer: b.subrange(referer_at(b) + 1, referer_end(b)),
                user_agent: b.subrange(agent_at(b) + 1, agent_end(b)),
                month_num: month_of(b.subrange(bracket_at(b) + 4, bracket_at(b) + 7))->0,
                status: three_digits(b, status_start(b))->0,
                bytes: match u64_value(b.subrange(bytes_start(b), bytes_end(b))) {
                    Some(n) => n,
                    None => 0,
                },
                upstream_response_time_ms: key_ms(
                    b.subrange(agent_end(b) + 1, b.len() as int),
                    "us=".spec_bytes(),
                ),
            },
        )
    } else {
        None
    }
}

/// Where the parts of a line's head stand.
struct Head {
    ip_end: usize,
    time_start: usize,
    time_end: usize,
    month: u8,
}

fn scan_head(b: &[u8]) -> (r: Option<Head>)
    ensures
        r is Some <==> head_ok(b@),
        r matches Some(h) ==> {
            &&& 0 < h.ip_end < h.time_start < h.time_end
            &&& h.time_end + 2 < b@.len()
            &&& h.ip_end == ip_end(b@)
            &&& h.time_start == bracket_at(b@) + 1
            &&& h.time_end == time_end(b@)
            &&& Some(h.month) == month_of(
                b@.subrange(bracket_at(b@) + 4, bracket_at(b@) + 7),
            )
            &&& b@[h.ip_end as int] == SPACE
            &&& b@[h.time_start - 1] == OPEN_BRACKET
            &&& b@[h.time_end as int] == CLOSE_BRACKET
            &&& b@[h.time_end + 2] == QUOTE
        },
{
    let len: usize = b.len();
    let ip_end: usize = scan_until(b, 0, SPACE);
    if ip_end == 0 || ip_end >= len {
        return None;
    }
    let ident_end: usize = scan_until(b, ip_end + 1, SPACE);
    if ident_end >= len {
        return None;
    }
    let user_end: usize = scan_until(b, ident_end + 1, SPACE);
    if user_end >= len {
        return None;
    }
    let open: usize = user_end + 1;
    if open >= len || b[open] != OPEN_BRACKET {
        return None;
    }
    let time_start: usize = open + 1;
    let time_end: usize = scan_until(b, time_start, CLOSE_BRACKET);
    if len - time_end <= 2 || b[time_end + 1] != SPACE {
        return None;
    }
    if time_end - time_start < 26 {
        return None;
    }
    let month: u8 = match month_num(
        vstd::slice::slice_subrange(b, time_start + 3, time_start + 6),
    ) {
        Some(m) => m,
        None => return None,
    };
    if b[time_end + 2] != QUOTE {
        return None;
    }
    Some(Head { ip_end, time_start, time_end, month })
}

fn has_known_method(req: &[u8]) -> (r: bool)
    ensures
        r == known_method(req@),
{
    matches_at(req, 0, "GET ".as_bytes()) || matches_at(req, 0, "HEAD ".as_bytes()) || matches_at(
        req,
        0,
        "OPTIONS ".as_bytes(),
    ) || matches_at(req, 0, "POST ".as_bytes()) || matches_at(req, 0, "PATCH ".as_bytes())
        || matches_at(req, 0, "PUT ".as_bytes()) || matches_at(req, 0, "DELETE ".as_bytes())
        || matches_at(req, 0, "CONNECT ".as_bytes()) || matches_at(req, 0, "PROPFIND ".as_bytes())
        || matches_at(req, 0, "PRI ".as_bytes())
}

fn is_ascii_slice(s: &[u8]) -> (r: bool)
    ensures
        r == all_ascii(s@),
{
    let mut i: usize = 0;
    while i < s.len()
        invariant
            0 <= i <= s@.len(),
            forall|k: int| 0 <= k < i ==> #[trigger] s@[k] < 0x80u8,
        decreases s@.len() - i,
    {
        if s[i] >= 0x80 {
            return false;
        }
        i += 1;
    }
    true
}

/// Where a request's method and path end.
struct Request {
    method_end: usize,
    path_end: usize,
}

fn scan_request(req: &[u8]) -> (r: Option<Request>)
    ensures
        r is Some <==> request_ok(req@),
        r matches Some(p) ==> {
            &&& p.method_end == until(req@, 0, SPACE)
            &&& p.path_end == path_end(req@)
            &&& 0 < p.method_end < p.path_end
            &&& p.path_end + 1 < req@.len()
            &&& req@[p.method_end as int] == SPACE
            &&& req@[p.path_end as int] == SPACE
        },
{
    let len: usize = req.len();
    if len == 0 || !is_ascii_slice(req) || !has_known_method(req) {
        return None;
    }
    let method_end: usize = scan_until(req, 0, SPACE);
    if method_end == 0 || method_end >= len {
        return None;
    }
    let path_end: usize = scan_until(req, method_end + 1, SPACE);
    if path_end >= len || len - path_end <= 1 {
        return None;
    }
    Some(Request { method_end, path_end })
}

/// Where the parts behind a line's request stand.
struct Tail {
    status: u16,
    bytes: u64,
    referer_start: usize,
    referer_end: usize,
    agent_start: usize,
    agent_end: usize,
}

fn scan_tail(b: &[u8], req_end: usize) -> (r: Option<Tail>)
    requires
        req_end == request_end(b@),
        req_end < b@.len(),
    ensures
        r is Some <==> tail_ok(b@),
        r matches Some(t) ==> {
            &&& Some(t.status) == three_digits(b@, status_start(b@))
            &&& t.bytes == (match u64_value(b@.subrange(bytes_start(b@), bytes_end(b@))) {
                Some(n) => n,
                None => 0,
            })
            &&& t.referer_start == referer_at(b@) + 1
            &&& t.referer_end == referer_end(b@)
            &&& t.agent_start == agent_at(b@) + 1
            &&& t.agent_end == agent_end(b@)
            &&& 0 < t.referer_start <= t.referer_end < t.agent_start <= t.agent_end < b@.len()
            &&& b@[t.referer_start - 1] == QUOTE
            &&& b@[t.referer_end as int] == QUOTE
            &&& b@[t.agent_start - 1] == QUOTE
            &&& b@[t.agent_end as int] == QUOTE
        },
{
    let len: usize = b.len();
    if len - req_end < 2 {
        return None;
    }
    let status_start: usize = scan_spaces(b, req_end + 2);
    let status_end: usize = scan_until(b, status_start, SPACE);
    if status_end <= status_start || status_end >= len {
        return None;
    }
    let status: u16 = match parse_u16_3(b, status_start) {
        Some(v) => v,
        None => return None,
    };
    let bytes_start: usize = scan_spaces(b, status_end + 1);
    let bytes_end: usize = scan_until(b, bytes_start, SPACE);
    let bytes: u64 = match parse_u64(vstd::slice::slice_subrange(b, bytes_start, bytes_end)) {
        Some(v) => v,
        None => 0,
    };
    if bytes_end >= len {
        return None;
    }
    let referer_at: usize = scan_spaces(b, bytes_end + 1);
    if referer_at >= len || b[referer_at] != QUOTE {
        return None;
    }
    let referer_end: usize = scan_until(b, referer_at + 1, QUOTE);
    if referer_end >= len || len - referer_end < 2 {
        return None;
    }
    let agent_at: usize = scan_spaces(b, referer_end + 2);
    if agent_at >= len || b[agent_at] != QUOTE {
        return None;
    }
    let agent_end: usize = scan_until(b, agent_at + 1, QUOTE);
    if agent_end >= len {
        return None;
    }
    Some(
        Tail {
            status,
            bytes,
            referer_start: referer_at + 1,
            referer_end,
            agent_start: agent_at + 1,
            agent_end,
        },
    )
}

/// Parses one line of the combined log format. `None` for a blank or malformed line.
pub fn parse_line(line: &str) -> (r: Option<LogEntry>)
    ensures
        match entry_of(line.spec_bytes()) {
            Some(e) => r is Some && r->0.wf() && r->0@ == e && r->0.line() == line@,
            None => r is None,
        },
{
    let b = line.as_bytes();
    let len: usize = b.len();
    let head = match scan_head(b) {
        Some(h) => h,
        None => return None,
    };
    let req_start: usize = head.time_end + 3;
    let req_end: usize = scan_until(b, req_start, QUOTE);
    if req_end >= len {
        return None;
    }
    let req = vstd::slice::slice_subrange(b, req_start, req_end);
    let request = match scan_request(req) {
        Some(p) => p,
        None => return None,
    };
    let tail = match scan_tail(b, req_end) {
        Some(t) => t,
        None => return None,
    };
    let rest = vstd::slice::slice_subrange(b, tail.agent_end + 1, len);
    proof {
        reveal_strlit("us=");
        is_ascii_spec_bytes("us=");
    }
    let ms = find_kv_ms(rest, "us=".as_bytes());
    let method_end: usize = req_start + request.method_end;
    let path_end: usize = req_start + request.path_end;
    proof {
        let s = line.spec_bytes();
        assert(s[method_end as int] == req@[request.method_end as int]);
        assert(s[path_end as int] == req@[request.path_end as int]);
        lemma_boundary_ends(line);
        lemma_ascii_boundary(line, head.ip_end as int);
        lemma_boundary_after_ascii(line, head.time_start - 1);
        lemma_ascii_boundary(line, head.time_end as int);
        lemma_boundary_after_ascii(line, head.time_end + 2);
        lemma_ascii_boundary(line, method_end as int);
        lemma_boundary_after_ascii(line, method_end as int);
        lemma_ascii_boundary(line, path_end as int);
        lemma_boundary_after_ascii(line, path_end as int);
        lemma_ascii_boundary(line, req_end as int);
        lemma_boundary_after_ascii(line, tail.referer_start - 1);
        lemma_ascii_boundary(line, tail.referer_end as int);
        lemma_boundary_after_ascii(line, tail.agent_start - 1);
        lemma_ascii_boundary(line, tail.agent_end as int);
        assert(req@.subrange(0, request.method_end as int) =~= s.subrange(
            req_start as int,
            method_end as int,
        ));
        assert(req@.subrange(request.method_end + 1, request.path_end as int) =~= s.subrange(
            method_end + 1,
            path_end as int,
        ));
        assert(req@.subrange(request.path_end + 1, req@.len() as int) =~= s.subrange(
            path_end + 1,
            req_end as int,
        ));
    }
    Some(
        LogEntry::new(
            line.to_owned(),
            0..head.ip_end,
            head.time_start..head.time_end,
            req_start..method_end,
            method_end + 1..path_end,
            path_end + 1..req_end,
            tail.referer_start..tail.referer_end,
            tail.agent_start..tail.agent_end,
            head.month,
            tail.status,
            tail.bytes,
            ms,
        ),
    )
}

// ── Timestamps ──────────────────────────────────────────────────────────────

/// The value of a number with an optional sign; a minus sign only where `signed`.
pub open spec fn int_value(s: Seq<u8>, signed: bool) -> Option<int> {
    let has_sign = s.len() > 0 && (s[0] == PLUS || (signed && s[0] == MINUS));
    let digits = if has_sign {
        s.skip(1)
    } else {
        s
    };
    if digits.len() == 0 || !all_digits(digits) {
        None
    } else if has_sign && s[0] == MINUS {
        Some(-decimal(digits))
    } else {
        Some(decimal(digits) as int)
    }
}

proof fn lemma_decimal_bound(s: Seq<u8>)
    requires
        all_digits(s),
        s.len() <= 4,
    ensures
        s.len() <= 2 ==> decimal(s) <= 99,
        decimal(s) <= 9999,
    decreases s.len(),
{
    if s.len() > 3 {
        lemma_decimal_small(s.drop_last());
    } else {
        lemma_decimal_small(s);
    }
}

fn parse_int(b: &[u8], from: usize, to: usize, signed: bool) -> (r: Option<i64>)
    requires
        from < to <= b@.len(),
        to - from <= 4,
    ensures
        match r {
            Some(v) => int_value(b@.subrange(from as int, to as int), signed) == Some(v as int),
            None => int_value(b@.subrange(from as int, to as int), signed) is None,
        },
        r matches Some(v) ==> -9999 <= v <= 9999 && (to - from <= 2 ==> -99 <= v <= 99),
        r matches Some(v) ==> !signed ==> v >= 0,
{
    let ghost s = b@.subrange(from as int, to as int);
    let negative: bool = signed && b[from] == MINUS;
    let has_sign: bool = b[from] == PLUS || negative;
    let start: usize = if has_sign {
        from + 1
    } else {
        from
    };
    let digits = vstd::slice::slice_subrange(b, start, to);
    proof {
        assert(digits@ =~= if has_sign {
            s.skip(1)
        } else {
            s
        });
        if all_digits(digits@) {
            lemma_decimal_bound(digits@);
        }
    }
    if start >= to {
        return None;
    }
    match parse_u64(digits) {
        Some(v) => if negative {
            Some(-(v as i64))
        } else {
            Some(v as i64)
        },
        None => None,
    }
}

/// The offset from UTC that a timestamp's last field writes, in seconds.
pub open spec fn zone_offset(s: Seq<u8>) -> Option<int> {
    match (int_value(s.subrange(22, 24), true), int_value(s.subrange(24, 26), true)) {
        (Some(h), Some(m)) => if s[21] == PLUS {
            Some(h * 3600 + m * 60)
        } else if s[21] == MINUS {
            Some(-(h * 3600 + m * 60))
        } else {
            None
        },
        _ => None,
    }
}

/// The seconds since midnight that a timestamp writes.
pub open spec fn time_of_day(s: Seq<u8>) -> Option<int> {
    match (
        int_value(s.subrange(12, 14), true),
        int_value(s.subrange(15, 17), true),
        int_value(s.subrange(18, 20), true),
    ) {
        (Some(h), Some(m), Some(sec)) => Some(h * 3600 + m * 60 + sec),
        _ => None,
    }
}

/// The day number of the local date that a timestamp writes, whatever its offset from UTC.
pub open spec fn local_days(s: Seq<u8>, month: int) -> Option<int> {
    if s.len() < 26 {
        None
    } else {
        match (int_value(s.subrange(0, 2), false), int_value(s.subrange(7, 11), true)) {
            (Some(day), Some(year)) => Some(march_days(year, month, day)),
            _ => None,
        }
    }
}

/// The Unix time of a timestamp `DD/Mon/YYYY:HH:MM:SS +HHMM`: its local time less its offset.
pub open spec fn unix_time(s: Seq<u8>, month: int) -> Option<int> {
    match (local_days(s, month), time_of_day(s), zone_offset(s)) {
        (Some(days), Some(secs), Some(offset)) => Some(days * 86_400 + secs - offset),
        _ => None,
    }
}

/// A timestamp's local date is that of its Unix time moved by its own offset, not that of the
/// Unix time itself: an entry of the first local seconds of a day east of Greenwich belongs to
/// that day, although its Unix time is still in the day before.
pub proof fn law_local_date(s: Seq<u8>, month: int)
    requires
        unix_time(s, month) is Some,
        0 <= time_of_day(s)->0 < 86_400,
    ensures
        local_days(s, month) == Some((unix_time(s, month)->0 + zone_offset(s)->0) / 86_400),
{
}

/// Parses a timestamp `DD/Mon/YYYY:HH:MM:SS +HHMM` into seconds since the epoch, UTC.
pub fn parse_unix_timestamp(time_str: &str, month_num: u8) -> (r: Option<i64>)
    ensures
        match r {
            Some(t) => unix_time(time_str.spec_bytes(), month_num as int) == Some(t as int),
            None => unix_time(time_str.spec_bytes(), month_num as int) is None,
        },
{
    let b = time_str.as_bytes();
    if b.len() < 26 {
        return None;
    }
    let (day, year, hour, minute, second, tz_hour, tz_min) = match (
        parse_int(b, 0, 2, false),
        parse_int(b, 7, 11, true),
        parse_int(b, 12, 14, true),
        parse_int(b, 15, 17, true),
        parse_int(b, 18, 20, true),
        parse_int(b, 22, 24, true),
        parse_int(b, 24, 26, true),
    ) {
        (Some(d), Some(y), Some(h), Some(m), Some(s), Some(th), Some(tm)) => (
            d,
            y,
            h,
            m,
            s,
            th,
            tm,
        ),
        _ => return None,
    };
    let magnitude: i64 = tz_hour * 3600 + tz_min * 60;
    let offset: i64 = if b[21] == PLUS {
        magnitude
    } else if b[21] == MINUS {
        -magnitude
    } else {
        return None;
    };
    let days: i64 = days_from_civil(year as i32, month_num as u32, day as u32);
    Some(days * 86_400 + hour * 3_600 + minute * 60 + second - offset)
}

/// The day number of the local date in a timestamp, whatever its offset from UTC.
pub fn parse_local_epoch_days(time_str: &str, month_num: u8) -> (r: Option<i64>)
    ensures
        match r {
            Some(t) => local_days(time_str.spec_bytes(), month_num as int) == Some(t as int),
            None => local_days(time_str.spec_bytes(), month_num as int) is None,
        },
{
    let b = time_str.as_bytes();
    if b.len() < 26 {
        return None;
    }
    match (parse_int(b, 0, 2, false), parse_int(b, 7, 11, true)) {
        (Some(day), Some(year)) => Some(
            days_from_civil(year as i32, month_num as u32, day as u32),
        ),
        _ => None,
    }
}

} // verus!
