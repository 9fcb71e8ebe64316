//! Lines of the combined format as they are written, and that they are read back.

use vstd::prelude::*;
use vstd::string::*;

use super::combined::{
    agent_at, agent_end, all_ascii, bracket_at, bytes_end, bytes_start, entry_of, head_ok, ip_end,
    key_ms, known_method, month_of, path_end, referer_at, referer_end, request_end, request_ok,
    request_start, status_start, tail_ok, three_digits, time_end, u64_value,
};
use super::EntryView;
use crate::text::{
    lemma_past_spaces, lemma_until, occurs_at, past_spaces, until, CLOSE_BRACKET, OPEN_BRACKET,
    QUOTE, SPACE,
};

verus! {

/// The fields of a line, by their bytes.
pub struct LineFields {
    pub ip: Seq<u8>,
    pub ident: Seq<u8>,
    pub user: Seq<u8>,
    pub time: Seq<u8>,
    pub method: Seq<u8>,
    pub path: Seq<u8>,
    pub proto: Seq<u8>,
    pub status: Seq<u8>,
    pub bytes: Seq<u8>,
    pub referer: Seq<u8>,
    pub user_agent: Seq<u8>,
    /// What follows the user agent's quote.
    pub rest: Seq<u8>,
}

/// A byte does not occur.
pub open spec fn lacks(s: Seq<u8>, c: u8) -> bool {
    forall|i: int| 0 <= i < s.len() ==> #[trigger] s[i] != c
}

/// Each field can stand in a line: none holds the byte that ends it.
pub open spec fn fields_ok(f: LineFields) -> bool {
    &&& f.ip.len() > 0 && lacks(f.ip, SPACE)
    &&& lacks(f.ident, SPACE)
    &&& lacks(f.user, SPACE)
    &&& f.time.len() >= 26 && lacks(f.time, CLOSE_BRACKET)
    &&& month_of(f.time.subrange(3, 6)) is Some
    &&& f.method.len() > 0 && lacks(f.method, SPACE) && lacks(f.method, QUOTE)
    &&& known_method(f.method + seq![SPACE])
    &&& lacks(f.path, SPACE) && lacks(f.path, QUOTE)
    &&& f.proto.len() > 0 && lacks(f.proto, QUOTE)
    &&& all_ascii(f.method) && all_ascii(f.path) && all_ascii(f.proto)
    &&& f.status.len() == 3 && three_digits(f.status, 0) is Some
    &&& f.bytes.len() > 0 && lacks(f.bytes, SPACE)
    &&& lacks(f.referer, QUOTE)
    &&& lacks(f.user_agent, QUOTE)
}

/// Pieces put together.
pub open spec fn joined(parts: Seq<Seq<u8>>) -> Seq<u8>
    decreases parts.len(),
{
    if parts.len() == 0 {
        Seq::empty()
    } else {
        joined(parts.drop_last()) + parts.last()
    }
}

/// The pieces of a line: address, identity, user, time in brackets, request in quotes, status,
/// byte count, referrer and user agent in quotes.
pub open spec fn pieces(f: LineFields) -> Seq<Seq<u8>> {
    seq![
        f.ip,
        seq![SPACE],
        f.ident,
        seq![SPACE],
        f.user,
        seq![SPACE, OPEN_BRACKET],
        f.time,
        seq![CLOSE_BRACKET, SPACE, QUOTE],
        f.method,
        seq![SPACE],
        f.path,
        seq![SPACE],
        f.proto,
        seq![QUOTE, SPACE],
        f.status,
        seq![SPACE],
        f.bytes,
        seq![SPACE, QUOTE],
        f.referer,
        seq![QUOTE, SPACE, QUOTE],
        f.user_agent,
        seq![QUOTE],
        f.rest,
    ]
}

/// The line of some fields.
pub open spec fn line_of(f: LineFields) -> Seq<u8> {
    joined(pieces(f))
}

/// What a line of some fields says.
pub open spec fn said(f: LineFields) -> EntryView {
    EntryView {
        ip: f.ip,
        time: f.time,
        method: f.method,
        path: f.path,
        proto: f.proto,
        referer: f.referer,
        user_agent: f.user_agent,
        month_num: month_of(f.time.subrange(3, 6))->0,
        status: three_digits(f.status, 0)->0,
        bytes: match u64_value(f.bytes) {
            Some(n) => n,
            None => 0,
        },
        upstream_response_time_ms: key_ms(f.rest, "us=".spec_bytes()),
    }
}

/// Where a piece starts.
spec fn starts(parts: Seq<Seq<u8>>, i: int) -> int {
    joined(parts.take(i)).len() as int
}

/// A piece stands in the whole from its start on.
spec fn stands(b: Seq<u8>, at: int, part: Seq<u8>) -> bool {
    &&& 0 <= at
    &&& at + part.len() <= b.len()
    &&& forall|k: int| 0 <= k < part.len() ==> b[at + k] == #[trigger] part[k]
}

proof fn lemma_piece(parts: Seq<Seq<u8>>, i: int)
    requires
        0 <= i < parts.len(),
    ensures
        stands(joined(parts), starts(parts, i), parts[i]),
        starts(parts, i + 1) == starts(parts, i) + parts[i].len(),
    decreases parts.len(),
{
    let rest = parts.drop_last();
    assert(parts.take(i + 1).drop_last() =~= parts.take(i));
    assert(parts.take(i + 1).last() == parts[i]);
    if i == parts.len() - 1 {
        assert(parts.take(i) =~= rest);
    } else {
        lemma_piece(rest, i);
        assert(rest.take(i) =~= parts.take(i));
        assert(rest[i] == parts[i]);
    }
}

/// A search ends at the first hit.
proof fn lemma_until_is(b: Seq<u8>, i: int, c: u8, at: int)
    requires
        0 <= i <= at < b.len(),
        b[at] == c,
        forall|k: int| i <= k < at ==> b[k] != c,
    ensures
        until(b, i, c) == at,
{
    lemma_until(b, i, c);
}

/// A piece without the byte is passed by.
proof fn lemma_until_past(b: Seq<u8>, at: int, part: Seq<u8>, c: u8)
    requires
        stands(b, at, part),
        lacks(part, c),
        at + part.len() < b.len(),
        b[at + part.len()] == c,
    ensures
        until(b, at, c) == at + part.len(),
{
    assert forall|k: int| at <= k < at + part.len() implies b[k] != c by {
        assert(b[at + (k - at)] == part[k - at]);
    }
    lemma_until_is(b, at, c, at + part.len());
}

proof fn lemma_cut(b: Seq<u8>, at: int, part: Seq<u8>)
    requires
        stands(b, at, part),
    ensures
        b.subrange(at, at + part.len()) == part,
{
    assert(b.subrange(at, at + part.len()) =~= part) by {
        assert forall|k: int| 0 <= k < part.len() implies b.subrange(at, at + part.len())[k]
            == part[k] by {
            assert(b[at + k] == part[k]);
        }
    }
}

/// Where the pieces of a line stand.
struct Places {
    ident: int,
    user: int,
    time: int,
    method: int,
    path: int,
    proto: int,
    status: int,
    bytes: int,
    referer: int,
    user_agent: int,
    rest: int,
}

spec fn places(f: LineFields) -> Places {
    let ident = f.ip.len() as int + 1;
    let user = ident + f.ident.len() + 1;
    let time = user + f.user.len() + 2;
    let method = time + f.time.len() + 3;
    let path = method + f.method.len() + 1;
    let proto = path + f.path.len() + 1;
    let status = proto + f.proto.len() + 2;
    let bytes = status + f.status.len() + 1;
    let referer = bytes + f.bytes.len() + 2;
    let user_agent = referer + f.referer.len() + 3;
    let rest = user_agent + f.user_agent.len() + 1;
    Places {
        ident,
        user,
        time,
        method,
        path,
        proto,
        status,
        bytes,
        referer,
        user_agent,
        rest,
    }
}

/// The fields and the bytes between them stand where they should.
spec fn laid_out(b: Seq<u8>, f: LineFields) -> bool {
    let p = places(f);
    &&& b.len() == p.rest + f.rest.len()
    &&& stands(b, 0, f.ip)
    &&& b[p.ident - 1] == SPACE
    &&& stands(b, p.ident, f.ident)
    &&& b[p.user - 1] == SPACE
    &&& stands(b, p.user, f.user)
    &&& b[p.time - 2] == SPACE
    &&& b[p.time - 1] == OPEN_BRACKET
    &&& stands(b, p.time, f.time)
    &&& b[p.method - 3] == CLOSE_BRACKET
    &&& b[p.method - 2] == SPACE
    &&& b[p.method - 1] == QUOTE
    &&& stands(b, p.method, f.method)
    &&& b[p.path - 1] == SPACE
    &&& stands(b, p.path, f.path)
    &&& b[p.proto - 1] == SPACE
    &&& stands(b, p.proto, f.proto)
    &&& b[p.status - 2] == QUOTE
    &&& b[p.status - 1] == SPACE
    &&& stands(b, p.status, f.status)
    &&& b[p.bytes - 1] == SPACE
    &&& stands(b, p.bytes, f.bytes)
    &&& b[p.referer - 2] == SPACE
    &&& b[p.referer - 1] == QUOTE
    &&& stands(b, p.referer, f.referer)
    &&& b[p.user_agent - 3] == QUOTE
    &&& b[p.user_agent - 2] == SPACE
    &&& b[p.user_agent - 1] == QUOTE
    &&& stands(b, p.user_agent, f.user_agent)
    &&& b[p.rest - 1] == QUOTE
    &&& stands(b, p.rest, f.rest)
}

proof fn lemma_laid_out(f: LineFields)
    ensures
        laid_out(line_of(f), f),
{
    let parts = pieces(f);
    let b = line_of(f);
    assert(parts.take(0) =~= Seq::<Seq<u8>>::empty());
    assert(parts.take(23) =~= parts);
    lemma_piece(parts, 0);
    assert(parts[0] == f.ip);
    lemma_piece(parts, 1);
    assert(parts[1][0] == SPACE);
    lemma_piece(parts, 2);
    assert(parts[2] == f.ident);
    lemma_piece(parts, 3);
    assert(parts[3][0] == SPACE);
    lemma_piece(parts, 4);
    assert(parts[4] == f.user);
    lemma_piece(parts, 5);
    assert(parts[5][0] == SPACE);
    assert(parts[5][1] == OPEN_BRACKET);
    lemma_piece(parts, 6);
    assert(parts[6] == f.time);
    lemma_piece(parts, 7);
    assert(parts[7][0] == CLOSE_BRACKET);
    assert(parts[7][1] == SPACE);
    assert(parts[7][2] == QUOTE);
    lemma_piece(parts, 8);
    assert(parts[8] == f.method);
    lemma_piece(parts, 9);
    assert(parts[9][0] == SPACE);
    lemma_piece(parts, 10);
    assert(parts[10] == f.path);
    lemma_piece(parts, 11);
    assert(parts[11][0] == SPACE);
    lemma_piece(parts, 12);
    assert(parts[12] == f.proto);
    lemma_piece(parts, 13);
    assert(parts[13][0] == QUOTE);
    assert(parts[13][1] == SPACE);
    lemma_piece(parts, 14);
    assert(parts[14] == f.status);
    lemma_piece(parts, 15);
    assert(parts[15][0] == SPACE);
    lemma_piece(parts, 16);
    assert(parts[16] == f.bytes);
    lemma_piece(parts, 17);
    assert(parts[17][0] == SPACE);
    assert(parts[17][1] == QUOTE);
    lemma_piece(parts, 18);
    assert(parts[18] == f.referer);
    lemma_piece(parts, 19);
    assert(parts[19][0] == QUOTE);
    assert(parts[19][1] == SPACE);
    assert(parts[19][2] == QUOTE);
    lemma_piece(parts, 20);
    assert(parts[20] == f.user_agent);
    lemma_piece(parts, 21);
    assert(parts[21][0] == QUOTE);
    lemma_piece(parts, 22);
    assert(parts[22] == f.rest);
}

proof fn lemma_head(b: Seq<u8>, f: LineFields)
    requires
        fields_ok(f),
        laid_out(b, f),
    ensures
        head_ok(b),
        ip_end(b) == f.ip.len(),
        bracket_at(b) + 1 == places(f).time,
        time_end(b) == places(f).method - 3,
        b.subrange(bracket_at(b) + 4, bracket_at(b) + 7) == f.time.subrange(3, 6),
{
    let p = places(f);
    lemma_until_past(b, 0, f.ip, SPACE);
    lemma_until_past(b, p.ident, f.ident, SPACE);
    lemma_until_past(b, p.user, f.user, SPACE);
    lemma_until_past(b, p.time, f.time, CLOSE_BRACKET);
    assert(b.subrange(p.time + 3, p.time + 6) =~= f.time.subrange(3, 6)) by {
        assert(b[p.time + 3] == f.time[3]);
        assert(b[p.time + 4] == f.time[4]);
        assert(b[p.time + 5] == f.time[5]);
    }
}

/// The request of some fields.
spec fn request_of(f: LineFields) -> Seq<u8> {
    f.method + seq![SPACE] + f.path + seq![SPACE] + f.proto
}

proof fn lemma_request_end(b: Seq<u8>, f: LineFields)
    requires
        fields_ok(f),
        laid_out(b, f),
        time_end(b) == places(f).method - 3,
    ensures
        request_start(b) == places(f).method,
        request_end(b) == places(f).status - 2,
        b.subrange(request_start(b), request_end(b)) == request_of(f),
{
    let p = places(f);
    let req = request_of(f);
    assert forall|k: int| 0 <= k < req.len() implies b[p.method + k] == #[trigger] req[k] by {
        if k < f.method.len() {
            assert(b[p.method + k] == f.method[k]);
        } else if k == f.method.len() {
        } else if k < f.method.len() + 1 + f.path.len() {
            let j = k - f.method.len() - 1;
            assert(b[p.path + j] == f.path[j]);
        } else if k == f.method.len() + 1 + f.path.len() {
        } else {
            let j = k - f.method.len() - f.path.len() - 2;
            assert(b[p.proto + j] == f.proto[j]);
        }
    }
    assert(lacks(req, QUOTE)) by {
        assert forall|k: int| 0 <= k < req.len() implies #[trigger] req[k] != QUOTE by {
            if k < f.method.len() {
                assert(req[k] == f.method[k]);
            } else if k == f.method.len() {
            } else if k < f.method.len() + 1 + f.path.len() {
                assert(req[k] == f.path[k - f.method.len() - 1]);
            } else if k == f.method.len() + 1 + f.path.len() {
            } else {
                assert(req[k] == f.proto[k - f.method.len() - f.path.len() - 2]);
            }
        }
    }
    assert(stands(b, p.method, req));
    lemma_until_past(b, p.method, req, QUOTE);
    lemma_cut(b, p.method, req);
}

proof fn lemma_still_occurs(m: Seq<u8>, more: Seq<u8>, p: Seq<u8>)
    requires
        occurs_at(m, p, 0),
    ensures
        occurs_at(m + more, p, 0),
{
    assert((m + more).subrange(0, p.len() as int) =~= m.subrange(0, p.len() as int));
}

proof fn lemma_method_stays(m: Seq<u8>, more: Seq<u8>)
    requires
        known_method(m),
    ensures
        known_method(m + more),
{
    if occurs_at(m, "GET ".spec_bytes(), 0) {
        lemma_still_occurs(m, more, "GET ".spec_bytes());
    } else if occurs_at(m, "HEAD ".spec_bytes(), 0) {
        lemma_still_occurs(m, more, "HEAD ".spec_bytes());
    } else if occurs_at(m, "OPTIONS ".spec_bytes(), 0) {
        lemma_still_occurs(m, more, "OPTIONS ".spec_bytes());
    } else if occurs_at(m, "POST ".spec_bytes(), 0) {
        lemma_still_occurs(m, more, "POST ".spec_bytes());
    } else if occurs_at(m, "PATCH ".spec_bytes(), 0) {
        lemma_still_occurs(m, more, "PATCH ".spec_bytes());
    } else if occurs_at(m, "PUT ".spec_bytes(), 0) {
        lemma_still_occurs(m, more, "PUT ".spec_bytes());
    } else if occurs_at(m, "DELETE ".spec_bytes(), 0) {
        lemma_still_occurs(m, more, "DELETE ".spec_bytes());
    } else if occurs_at(m, "CONNECT ".spec_bytes(), 0) {
        lemma_still_occurs(m, more, "CONNECT ".spec_bytes());
    } else if occurs_at(m, "PROPFIND ".spec_bytes(), 0) {
        lemma_still_occurs(m, more, "PROPFIND ".spec_bytes());
    } else {
        lemma_still_occurs(m, more, "PRI ".spec_bytes());
    }
}

proof fn lemma_request(f: LineFields)
    requires
        fields_ok(f),
    ensures
        ({
            let req = request_of(f);
            &&& request_ok(req)
            &&& until(req, 0, SPACE) == f.method.len()
            &&& path_end(req) == f.method.len() + 1 + f.path.len()
            &&& req.subrange(0, f.method.len() as int) == f.method
            &&& req.subrange(f.method.len() as int + 1, path_end(req)) == f.path
            &&& req.subrange(path_end(req) + 1, req.len() as int) == f.proto
        }),
{
    let req = request_of(f);
    let m = f.method.len() as int;
    let n = f.path.len() as int;
    assert(stands(req, 0, f.method));
    assert(req[m] == SPACE);
    lemma_until_past(req, 0, f.method, SPACE);
    assert(stands(req, m + 1, f.path)) by {
        assert forall|k: int| 0 <= k < n implies req[m + 1 + k] == #[trigger] f.path[k] by {
        }
    }
    assert(req[m + 1 + n] == SPACE);
    lemma_until_past(req, m + 1, f.path, SPACE);
    assert(req.subrange(0, m) =~= f.method);
    assert(req.subrange(m + 1, m + 1 + n) =~= f.path);
    assert(req.subrange(m + n + 2, req.len() as int) =~= f.proto);
    lemma_method_stays(f.method + seq![SPACE], f.path + seq![SPACE] + f.proto);
    assert(req =~= (f.method + seq![SPACE]) + (f.path + seq![SPACE] + f.proto));
    assert(all_ascii(req)) by {
        assert forall|k: int| 0 <= k < req.len() implies #[trigger] req[k] < 0x80u8 by {
            if k < m {
                assert(req[k] == f.method[k]);
            } else if k == m {
            } else if k < m + 1 + n {
                assert(req[k] == f.path[k - m - 1]);
            } else if k == m + 1 + n {
            } else {
                assert(req[k] == f.proto[k - m - n - 2]);
            }
        }
    }
}

/// Where no space stands, none is passed; one is passed where one stands.
proof fn lemma_spaces(b: Seq<u8>, i: int)
    requires
        0 <= i < b.len(),
    ensures
        b[i] != SPACE ==> past_spaces(b, i) == i,
{
    lemma_past_spaces(b, i);
}

proof fn lemma_tail(b: Seq<u8>, f: LineFields)
    requires
        fields_ok(f),
        laid_out(b, f),
        request_end(b) == places(f).status - 2,
    ensures
        tail_ok(b),
        status_start(b) == places(f).status,
        three_digits(b, status_start(b)) == three_digits(f.status, 0),
        b.subrange(bytes_start(b), bytes_end(b)) == f.bytes,
        b.subrange(referer_at(b) + 1, referer_end(b)) == f.referer,
        b.subrange(agent_at(b) + 1, agent_end(b)) == f.user_agent,
        b.subrange(agent_end(b) + 1, b.len() as int) == f.rest,
{
    let p = places(f);
    assert(b[p.status] == f.status[0]);
    assert(b[p.status + 1] == f.status[1]);
    assert(b[p.status + 2] == f.status[2]);
    assert(lacks(f.status, SPACE));
    lemma_spaces(b, p.status);
    lemma_until_past(b, p.status, f.status, SPACE);
    assert(b[p.bytes] == f.bytes[0]);
    lemma_spaces(b, p.bytes);
    lemma_until_past(b, p.bytes, f.bytes, SPACE);
    lemma_cut(b, p.bytes, f.bytes);
    lemma_spaces(b, p.referer - 1);
    lemma_until_past(b, p.referer, f.referer, QUOTE);
    lemma_cut(b, p.referer, f.referer);
    lemma_spaces(b, p.user_agent - 1);
    lemma_until_past(b, p.user_agent, f.user_agent, QUOTE);
    lemma_cut(b, p.user_agent, f.user_agent);
    lemma_cut(b, p.rest, f.rest);
}

/// What is written as a line is read back from it: every field, whatever it holds, as long as none
/// holds the byte that ends it, the request is ASCII with a known method, and the time, the month
/// and the status have their form.
pub proof fn law_line_is_read_back(f: LineFields)
    requires
        fields_ok(f),
    ensures
        entry_of(line_of(f)) == Some(said(f)),
{
    let b = line_of(f);
    let p = places(f);
    lemma_laid_out(f);
    lemma_head(b, f);
    lemma_request_end(b, f);
    lemma_request(f);
    lemma_tail(b, f);
    lemma_cut(b, 0, f.ip);
    lemma_cut(b, p.time, f.time);
}

} // verus!
