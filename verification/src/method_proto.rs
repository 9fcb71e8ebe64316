//! Request methods and protocol versions as table slots.

use vstd::prelude::*;
use vstd::string::*;

use crate::text::bytes_eq;

verus! {

pub const METHOD_COUNT: usize = 8;

pub const METHOD_GET: usize = 0;

pub const METHOD_POST: usize = 1;

pub const METHOD_HEAD: usize = 2;

pub const METHOD_PUT: usize = 3;

pub const METHOD_DELETE: usize = 4;

pub const METHOD_OPTIONS: usize = 5;

pub const METHOD_PATCH: usize = 6;

pub const METHOD_OTHER: usize = 7;

pub const PROTO_COUNT: usize = 5;

pub const PROTO_1_0: usize = 0;

pub const PROTO_1_1: usize = 1;

pub const PROTO_2_0: usize = 2;

pub const PROTO_3_0: usize = 3;

pub const PROTO_OTHER: usize = 4;

/// The name of a method's slot.
pub open spec fn method_label(i: int) -> Seq<char> {
    if i == METHOD_GET {
        "GET"@
    } else if i == METHOD_POST {
        "POST"@
    } else if i == METHOD_HEAD {
        "HEAD"@
    } else if i == METHOD_PUT {
        "PUT"@
    } else if i == METHOD_DELETE {
        "DELETE"@
    } else if i == METHOD_OPTIONS {
        "OPTIONS"@
    } else if i == METHOD_PATCH {
        "PATCH"@
    } else {
        "other"@
    }
}

/// The name of a protocol version's slot, without the `HTTP/` in front.
pub open spec fn proto_label(i: int) -> Seq<char> {
    if i == PROTO_1_0 {
        "1.0"@
    } else if i == PROTO_1_1 {
        "1.1"@
    } else if i == PROTO_2_0 {
        "2.0"@
    } else if i == PROTO_3_0 {
        "3.0"@
    } else {
        "other"@
    }
}

/// The name under which a method's slot is stored.
pub fn method_name(i: usize) -> (r: &'static str)
    ensures
        r@ == method_label(i as int),
{
    match i {
        METHOD_GET => "GET",
        METHOD_POST => "POST",
        METHOD_HEAD => "HEAD",
        METHOD_PUT => "PUT",
        METHOD_DELETE => "DELETE",
        METHOD_OPTIONS => "OPTIONS",
        METHOD_PATCH => "PATCH",
        _ => "other",
    }
}

/// The name under which a protocol version's slot is stored.
pub fn proto_name(i: usize) -> (r: &'static str)
    ensures
        r@ == proto_label(i as int),
{
    match i {
        PROTO_1_0 => "1.0",
        PROTO_1_1 => "1.1",
        PROTO_2_0 => "2.0",
        PROTO_3_0 => "3.0",
        _ => "other",
    }
}

/// The slot of a request method.
pub open spec fn method_slot(m: Seq<u8>) -> int {
    if m == "GET".spec_bytes() {
        METHOD_GET as int
    } else if m == "POST".spec_bytes() {
        METHOD_POST as int
    } else if m == "HEAD".spec_bytes() {
        METHOD_HEAD as int
    } else if m == "PUT".spec_bytes() {
        METHOD_PUT as int
    } else if m == "DELETE".spec_bytes() {
        METHOD_DELETE as int
    } else if m == "OPTIONS".spec_bytes() {
        METHOD_OPTIONS as int
    } else if m == "PATCH".spec_bytes() {
        METHOD_PATCH as int
    } else {
        METHOD_OTHER as int
    }
}

/// The slot of a protocol as a request line writes it.
pub open spec fn proto_slot(p: Seq<u8>) -> int {
    if p == "HTTP/1.0".spec_bytes() {
        PROTO_1_0 as int
    } else if p == "HTTP/1.1".spec_bytes() {
        PROTO_1_1 as int
    } else if p == "HTTP/2".spec_bytes() || p == "HTTP/2.0".spec_bytes() {
        PROTO_2_0 as int
    } else if p == "HTTP/3".spec_bytes() || p == "HTTP/3.0".spec_bytes() {
        PROTO_3_0 as int
    } else {
        PROTO_OTHER as int
    }
}

/// The slot of a request method; `METHOD_OTHER` for one without a slot of its own.
pub fn method_index(method: &str) -> (r: usize)
    ensures
        r == method_slot(method.spec_bytes()),
        r < METHOD_COUNT,
{
    let m = method.as_bytes();
    if bytes_eq(m, "GET".as_bytes()) {
        METHOD_GET
    } else if bytes_eq(m, "POST".as_bytes()) {
        METHOD_POST
    } else if bytes_eq(m, "HEAD".as_bytes()) {
        METHOD_HEAD
    } else if bytes_eq(m, "PUT".as_bytes()) {
        METHOD_PUT
    } else if bytes_eq(m, "DELETE".as_bytes()) {
        METHOD_DELETE
    } else if bytes_eq(m, "OPTIONS".as_bytes()) {
        METHOD_OPTIONS
    } else if bytes_eq(m, "PATCH".as_bytes()) {
        METHOD_PATCH
    } else {
        METHOD_OTHER
    }
}

/// The slot of a protocol; `PROTO_OTHER` for one without a slot of its own.
pub fn proto_index(proto: &str) -> (r: usize)
    ensures
        r == proto_slot(proto.spec_bytes()),
        r < PROTO_COUNT,
{
    let p = proto.as_bytes();
    if bytes_eq(p, "HTTP/1.0".as_bytes()) {
        PROTO_1_0
    } else if bytes_eq(p, "HTTP/1.1".as_bytes()) {
        PROTO_1_1
    } else if bytes_eq(p, "HTTP/2".as_bytes()) || bytes_eq(p, "HTTP/2.0".as_bytes()) {
        PROTO_2_0
    } else if bytes_eq(p, "HTTP/3".as_bytes()) || bytes_eq(p, "HTTP/3.0".as_bytes()) {
        PROTO_3_0
    } else {
        PROTO_OTHER
    }
}

/// Every slot but the last is the slot of its own name.
pub proof fn law_method_names(s: &str, i: int)
    requires
        0 <= i < METHOD_OTHER,
        s@ == method_label(i),
    ensures
        method_slot(s.spec_bytes()) == i,
{
    reveal_strlit("GET");
    reveal_strlit("POST");
    reveal_strlit("HEAD");
    reveal_strlit("PUT");
    reveal_strlit("DELETE");
    reveal_strlit("OPTIONS");
    reveal_strlit("PATCH");
    is_ascii_spec_bytes("GET");
    is_ascii_spec_bytes("POST");
    is_ascii_spec_bytes("HEAD");
    is_ascii_spec_bytes("PUT");
    is_ascii_spec_bytes("DELETE");
    is_ascii_spec_bytes("OPTIONS");
    is_ascii_spec_bytes("PATCH");
    assert("GET".spec_bytes()[0] != "POST".spec_bytes()[0]);
    assert("POST".spec_bytes()[1] == 0x4f && "PUT".spec_bytes()[1] == 0x55
        && "PATCH".spec_bytes()[1] == 0x41);
}

} // verus!
