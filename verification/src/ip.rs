//! IP addresses as integers.

use vstd::prelude::*;
use vstd::string::*;

use crate::parser::combined::{all_digits, decimal, parse_u64};
use crate::text::{scan_until, until, COLON, DOT, ZERO};

verus! {

/// A parsed IP address stored as its integer value.
#[derive(Clone, Copy, Debug, PartialEq, Eq, Hash, Structural)]
pub enum Ip {
    V4(u32),
    V6(u128),
}

// ── IPv4 text ───────────────────────────────────────────────────────────────

/// The value of one part of a dotted address: up to three digits, no zero in front, at most 255.
pub open spec fn octet_value(s: Seq<u8>) -> Option<int> {
    if 1 <= s.len() <= 3 && all_digits(s) && (s.len() > 1 ==> s[0] != ZERO) && decimal(s) <= 255 {
        Some(decimal(s) as int)
    } else {
        None
    }
}

/// The value of a dotted address `a.b.c.d`.
pub open spec fn ipv4_value(s: Seq<u8>) -> Option<int> {
    let p1 = until(s, 0, DOT);
    let p2 = until(s, p1 + 1, DOT);
    let p3 = until(s, p2 + 1, DOT);
    if p3 < s.len() {
        match (
            octet_value(s.subrange(0, p1)),
            octet_value(s.subrange(p1 + 1, p2)),
            octet_value(s.subrange(p2 + 1, p3)),
            octet_value(s.subrange(p3 + 1, s.len() as int)),
        ) {
            (Some(a), Some(b), Some(c), Some(d)) => Some(
                a * 0x100_0000 + b * 0x1_0000 + c * 0x100 + d,
            ),
            _ => None,
        }
    } else {
        None
    }
}

fn parse_octet(s: &[u8], from: usize, to: usize) -> (r: Option<u32>)
    requires
        from <= to <= s@.len(),
    ensures
        match r {
            Some(v) => octet_value(s@.subrange(from as int, to as int)) == Some(v as int)
                && v <= 255,
            None => octet_value(s@.subrange(from as int, to as int)) is None,
        },
{
    let n: usize = to - from;
    if n == 0 || n > 3 || (n > 1 && s[from] == ZERO) {
        return None;
    }
    match parse_u64(vstd::slice::slice_subrange(s, from, to)) {
        Some(v) => if v <= 255 {
            Some(v as u32)
        } else {
            None
        },
        None => None,
    }
}

/// Parses a dotted IPv4 address.
pub fn parse_ipv4_u32(s: &[u8]) -> (r: Option<u32>)
    ensures
        match r {
            Some(v) => ipv4_value(s@) == Some(v as int),
            None => ipv4_value(s@) is None,
        },
{
    let len: usize = s.len();
    let p1: usize = scan_until(s, 0, DOT);
    if p1 >= len {
        return None;
    }
    let p2: usize = scan_until(s, p1 + 1, DOT);
    if p2 >= len {
        return None;
    }
    let p3: usize = scan_until(s, p2 + 1, DOT);
    if p3 >= len {
        return None;
    }
    match (
        parse_octet(s, 0, p1),
        parse_octet(s, p1 + 1, p2),
        parse_octet(s, p2 + 1, p3),
        parse_octet(s, p3 + 1, len),
    ) {
        (Some(a), Some(b), Some(c), Some(d)) => Some(
            a * 0x100_0000 + b * 0x1_0000 + c * 0x100 + d,
        ),
        _ => None,
    }
}

// ── IPv6 text ───────────────────────────────────────────────────────────────

/// The value of a hexadecimal digit.
pub open spec fn hex_digit(c: u8) -> Option<int> {
    if 0x30u8 <= c <= 0x39u8 {
        Some(c - 0x30)
    } else if 0x61u8 <= c <= 0x66u8 {
        Some(c - 0x61 + 10)
    } else if 0x41u8 <= c <= 0x46u8 {
        Some(c - 0x41 + 10)
    } else {
        None
    }
}

/// The value of a run of hexadecimal digits.
pub open spec fn hex_value(s: Seq<u8>) -> Option<int>
    decreases s.len(),
{
    if s.len() == 0 {
        Some(0)
    } else {
        match (hex_value(s.drop_last()), hex_digit(s.last())) {
            (Some(v), Some(d)) => Some(v * 16 + d),
            _ => None,
        }
    }
}

/// The value of one group of an IPv6 address: one to four hexadecimal digits.
pub open spec fn group_value(s: Seq<u8>) -> Option<int> {
    if 1 <= s.len() <= 4 {
        hex_value(s)
    } else {
        None
    }
}

/// The groups that colons separate. The last may be a dotted address, which makes two groups,
/// where `dotted` allows it.
pub open spec fn groups_of(s: Seq<u8>, dotted: bool) -> Option<Seq<int>>
    decreases s.len(),
{
    let p = until(s, 0, COLON);
    if p < s.len() && p >= 0 {
        match (group_value(s.subrange(0, p)), groups_of(s.skip(p + 1), dotted)) {
            (Some(g), Some(rest)) => Some(seq![g] + rest),
            _ => None,
        }
    } else {
        match group_value(s) {
            Some(g) => Some(seq![g]),
            None => match ipv4_value(s) {
                Some(v) => if dotted {
                    Some(seq![v / 0x1_0000, v % 0x1_0000])
                } else {
                    None
                },
                None => None,
            },
        }
    }
}

/// The number that a sequence of 16-bit groups writes.
pub open spec fn groups_value(g: Seq<int>) -> int
    decreases g.len(),
{
    if g.len() == 0 {
        0
    } else {
        groups_value(g.drop_last()) * 0x1_0000 + g.last()
    }
}

/// Where the first double colon at or after `i` stands; the length of `s` if there is none.
pub open spec fn gap_at(s: Seq<u8>, i: int) -> int
    decreases s.len() - i,
{
    if i < 0 || i + 1 >= s.len() {
        s.len() as int
    } else if s[i] == COLON && s[i + 1] == COLON {
        i
    } else {
        gap_at(s, i + 1)
    }
}

/// The groups beside a double colon; there may be none.
pub open spec fn side_groups(s: Seq<u8>, dotted: bool) -> Option<Seq<int>> {
    if s.len() == 0 {
        Some(Seq::<int>::empty())
    } else {
        groups_of(s, dotted)
    }
}

/// The value of an IPv6 address: eight groups, or fewer with a double colon in place of one or
/// more groups of zeros.
pub open spec fn ipv6_value(s: Seq<u8>) -> Option<int> {
    let gap = gap_at(s, 0);
    if gap < s.len() {
        match (side_groups(s.subrange(0, gap), false), side_groups(s.skip(gap + 2), true)) {
            (Some(head), Some(tail)) => if head.len() + tail.len() <= 7 {
                Some(
                    groups_value(
                        head + Seq::new((8 - head.len() - tail.len()) as nat, |i: int| 0int) + tail,
                    ),
                )
            } else {
                None
            },
            _ => None,
        }
    } else {
        match groups_of(s, true) {
            Some(g) => if g.len() == 8 {
                Some(groups_value(g))
            } else {
                None
            },
            None => None,
        }
    }
}

fn parse_group(s: &[u8]) -> (r: Option<u16>)
    ensures
        match r {
            Some(v) => group_value(s@) == Some(v as int),
            None => group_value(s@) is None,
        },
{
    let n: usize = s.len();
    if n == 0 || n > 4 {
        return None;
    }
    let mut v: u32 = 0;
    let mut i: usize = 0;
    while i < n
        invariant
            n == s@.len(),
            1 <= n <= 4,
            0 <= i <= n,
            hex_value(s@.take(i as int)) == Some(v as int),
            i == 0 ==> v == 0,
            i == 1 ==> v < 0x10,
            i == 2 ==> v < 0x100,
            i == 3 ==> v < 0x1000,
            i == 4 ==> v < 0x1_0000,
        decreases n - i,
    {
        let c: u8 = s[i];
        let ghost next = s@.take(i + 1);
        assert(next.drop_last() =~= s@.take(i as int));
        assert(next.last() == c);
        let d: u8 = if 0x30 <= c && c <= 0x39 {
            c - 0x30
        } else if 0x61 <= c && c <= 0x66 {
            c - 0x61 + 10
        } else if 0x41 <= c && c <= 0x46 {
            c - 0x41 + 10
        } else {
            proof {
                lemma_hex_prefix(s@, i + 1);
            }
            return None;
        };
        v = v * 16 + d as u32;
        i += 1;
    }
    assert(s@.take(i as int) =~= s@);
    Some(v as u16)
}

proof fn lemma_hex_prefix(s: Seq<u8>, k: int)
    requires
        0 <= k <= s.len(),
        hex_value(s.take(k)) is None,
    ensures
        hex_value(s) is None,
    decreases s.len(),
{
    if k == s.len() {
        assert(s.take(k) =~= s);
    } else {
        assert(s.drop_last().take(k) =~= s.take(k));
        lemma_hex_prefix(s.drop_last(), k);
    }
}

/// Sixteen-bit groups as integers.
pub open spec fn as_ints(g: Seq<u16>) -> Seq<int> {
    Seq::new(g.len(), |i: int| g[i] as int)
}

fn parse_groups(s: &[u8], dotted: bool) -> (r: Option<Vec<u16>>)
    ensures
        match r {
            Some(g) => groups_of(s@, dotted) == Some(as_ints(g@)),
            None => groups_of(s@, dotted) is None,
        },
{
    let len: usize = s.len();
    let mut out: Vec<u16> = Vec::new();
    let mut i: usize = 0;
    assert(s@.skip(0) =~= s@);
    assert(groups_of(s@, dotted) is Some ==> as_ints(out@) + groups_of(s@, dotted)->0
        =~= groups_of(s@, dotted)->0);
    loop
        invariant
            len == s@.len(),
            0 <= i <= len,
            match groups_of(s@.skip(i as int), dotted) {
                Some(rest) => groups_of(s@, dotted) == Some(as_ints(out@) + rest),
                None => groups_of(s@, dotted) is None,
            },
        decreases len - i,
    {
        let ghost t = s@.skip(i as int);
        let rest = vstd::slice::slice_subrange(s, i, len);
        assert(rest@ =~= t);
        let p: usize = scan_until(rest, 0, COLON);
        if p < rest.len() {
            let group = vstd::slice::slice_subrange(rest, 0, p);
            match parse_group(group) {
                Some(g) => {
                    let ghost before = out@;
                    out.push(g);
                    i = i + p + 1;
                    proof {
                        assert(s@.skip(i as int) =~= t.skip(p + 1));
                        if groups_of(s@.skip(i as int), dotted) is Some {
                            let more = groups_of(s@.skip(i as int), dotted)->0;
                            assert(as_ints(before) + (seq![g as int] + more) =~= as_ints(out@)
                                + more);
                        }
                    }
                },
                None => {
                    return None;
                },
            }
        } else {
            match parse_group(rest) {
                Some(g) => {
                    let ghost before = out@;
                    out.push(g);
                    assert(as_ints(before) + seq![g as int] =~= as_ints(out@));
                    return Some(out);
                },
                None => {
                    match parse_ipv4_u32(rest) {
                        Some(v) => {
                            if !dotted {
                                return None;
                            }
                            let ghost before = out@;
                            let hi: u32 = v / 0x1_0000;
                            let lo: u32 = v % 0x1_0000;
                            out.push(hi as u16);
                            out.push(lo as u16);
                            assert(as_ints(before) + seq![
                                v as int / 0x1_0000,
                                v as int % 0x1_0000,
                            ] =~= as_ints(out@));
                            return Some(out);
                        },
                        None => {
                            return None;
                        },
                    }
                },
            }
        }
    }
}

fn parse_side(s: &[u8], dotted: bool) -> (r: Option<Vec<u16>>)
    ensures
        match r {
            Some(g) => side_groups(s@, dotted) == Some(as_ints(g@)),
            None => side_groups(s@, dotted) is None,
        },
{
    if s.len() == 0 {
        let out: Vec<u16> = Vec::new();
        assert(as_ints(out@) =~= Seq::<int>::empty());
        Some(out)
    } else {
        parse_groups(s, dotted)
    }
}

fn join_groups(g: &Vec<u16>) -> (r: u128)
    requires
        g@.len() == 8,
    ensures
        r == groups_value(as_ints(g@)),
{
    let ghost ints = as_ints(g@);
    assert(groups_value(ints) == g@[0] * 0x1_0000_0000_0000_0000_0000_0000_0000 + g@[1]
        * 0x1_0000_0000_0000_0000_0000_0000 + g@[2] * 0x1_0000_0000_0000_0000_0000 + g@[3]
        * 0x1_0000_0000_0000_0000 + g@[4] * 0x1_0000_0000_0000 + g@[5] * 0x1_0000_0000 + g@[6]
        * 0x1_0000 + g@[7]) by {
        reveal_with_fuel(groups_value, 9);
        let t7 = ints.drop_last();
        let t6 = t7.drop_last();
        let t5 = t6.drop_last();
        let t4 = t5.drop_last();
        let t3 = t4.drop_last();
        let t2 = t3.drop_last();
        let t1 = t2.drop_last();
        assert(t1.drop_last().len() == 0);
    }
    let a: u128 = g[0] as u128 * 0x1_0000_0000_0000 + g[1] as u128 * 0x1_0000_0000 + g[2] as u128
        * 0x1_0000 + g[3] as u128;
    let b: u128 = g[4] as u128 * 0x1_0000_0000_0000 + g[5] as u128 * 0x1_0000_0000 + g[6] as u128
        * 0x1_0000 + g[7] as u128;
    a * 0x1_0000_0000_0000_0000 + b
}

/// Parses an IPv6 address.
pub fn parse_ipv6_u128(s: &[u8]) -> (r: Option<u128>)
    ensures
        match r {
            Some(v) => ipv6_value(s@) == Some(v as int),
            None => ipv6_value(s@) is None,
        },
{
    let len: usize = s.len();
    let mut gap: usize = 0;
    while gap < len && !(len - gap >= 2 && s[gap] == COLON && s[gap + 1] == COLON)
        invariant
            len == s@.len(),
            0 <= gap <= len,
            gap_at(s@, 0) == gap_at(s@, gap as int),
        decreases len - gap,
    {
        proof {
            if gap + 1 == len {
                assert(gap_at(s@, gap as int) == len);
                assert(gap_at(s@, gap + 1) == len);
            }
        }
        gap += 1;
    }
    if gap < len {
        let head: Vec<u16> = match parse_side(vstd::slice::slice_subrange(s, 0, gap), false) {
            Some(g) => g,
            None => return None,
        };
        let rest = vstd::slice::slice_subrange(s, gap + 2, len);
        assert(rest@ =~= s@.skip(gap + 2));
        let tail: Vec<u16> = match parse_side(rest, true) {
            Some(g) => g,
            None => return None,
        };
        if head.len() > 7 || tail.len() > 7 - head.len() {
            return None;
        }
        let ghost head_seq = head@;
        let ghost tail_seq = tail@;
        let ghost zeros = Seq::new((8 - head@.len() - tail@.len()) as nat, |i: int| 0int);
        let missing: usize = 8 - head.len() - tail.len();
        let mut all: Vec<u16> = head;
        let mut k: usize = 0;
        while k < missing
            invariant
                0 <= k <= missing <= 8,
                all@ == head_seq + Seq::new(k as nat, |i: int| 0u16),
            decreases missing - k,
        {
            all.push(0);
            k += 1;
            assert(all@ =~= head_seq + Seq::new(k as nat, |i: int| 0u16));
        }
        all.extend_from_slice(tail.as_slice());
        assert(as_ints(all@) =~= as_ints(head_seq) + zeros + as_ints(tail_seq));
        Some(join_groups(&all))
    } else {
        match parse_groups(s, true) {
            Some(g) => if g.len() == 8 {
                Some(join_groups(&g))
            } else {
                None
            },
            None => None,
        }
    }
}

// ── Addresses ───────────────────────────────────────────────────────────────

/// The address that a text writes: dotted IPv4, else IPv6.
pub open spec fn ip_of(s: Seq<u8>) -> Option<Ip> {
    match ipv4_value(s) {
        Some(v) => Some(Ip::V4(v as u32)),
        None => match ipv6_value(s) {
            Some(v) => Some(Ip::V6(v as u128)),
            None => None,
        },
    }
}

impl Ip {
    /// The column values of the address in the database.
    pub open spec fn key(self) -> (u8, u64, u64) {
        match self {
            Ip::V4(n) => (1u8, 0u64, n as u64),
            Ip::V6(n) => (
                2u8,
                (n / 0x1_0000_0000_0000_0000) as u64,
                (n % 0x1_0000_0000_0000_0000) as u64,
            ),
        }
    }

    /// Parses an address.
    pub fn parse(s: &str) -> (r: Option<Ip>)
        ensures
            r == ip_of(s.spec_bytes()),
    {
        let b = s.as_bytes();
        match parse_ipv4_u32(b) {
            Some(n) => Some(Ip::V4(n)),
            None => match parse_ipv6_u128(b) {
                Some(n) => Some(Ip::V6(n)),
                None => None,
            },
        }
    }

    /// The `ip_kind` column: 1 for IPv4, 2 for IPv6.
    pub fn kind(self) -> (r: u8)
        ensures
            r == self.key().0,
    {
        match self {
            Ip::V4(_) => 1,
            Ip::V6(_) => 2,
        }
    }

    /// The `ip_hi` column: the high 64 bits, zero for IPv4.
    pub fn hi(self) -> (r: u64)
        ensures
            r == self.key().1,
    {
        match self {
            Ip::V4(_) => 0,
            Ip::V6(n) => (n / 0x1_0000_0000_0000_0000) as u64,
        }
    }

    /// The `ip_lo` column: the low 64 bits, the whole address for IPv4.
    pub fn lo(self) -> (r: u64)
        ensures
            r == self.key().2,
    {
        match self {
            Ip::V4(n) => n as u64,
            Ip::V6(n) => (n % 0x1_0000_0000_0000_0000) as u64,
        }
    }
}

/// The three columns tell two addresses apart.
pub proof fn law_key_identifies(a: Ip, b: Ip)
    requires
        a.key() == b.key(),
    ensures
        a == b,
{
}

} // verus!
