//! Addresses as they are written, and the numbers that they are read as.

use vstd::prelude::*;

use crate::ip::{
    gap_at, group_value, groups_of, groups_value, hex_digit, hex_value, ip_of, ipv4_value,
    octet_value, side_groups, Ip,
};
use crate::parser::combined::{decimal, is_digit};
use crate::parser::figures::{figures, lemma_figures};
use crate::text::{lemma_until, until, COLON, DOT, ZERO};

verus! {

/// A dotted address.
pub open spec fn dotted(a: int, b: int, c: int, d: int) -> Seq<u8> {
    figures(a as nat) + seq!['.' as u8] + figures(b as nat) + seq!['.' as u8] + figures(c as nat)
        + seq!['.' as u8] + figures(d as nat)
}

/// A part of a dotted address.
pub open spec fn is_part(n: int) -> bool {
    0 <= n <= 255
}

proof fn lemma_part(n: int)
    requires
        is_part(n),
    ensures
        octet_value(figures(n as nat)) == Some(n),
        forall|i: int| 0 <= i < figures(n as nat).len() ==> #[trigger] figures(n as nat)[i] != DOT,
        forall|i: int| 0 <= i < figures(n as nat).len() ==> #[trigger] figures(n as nat)[i] != COLON,
        1 <= figures(n as nat).len() <= 3,
{
    let s = figures(n as nat);
    lemma_figures(n as nat);
    reveal_with_fuel(figures, 4);
    assert(s.len() > 1 ==> n >= 10);
    assert forall|i: int| 0 <= i < s.len() implies #[trigger] s[i] != DOT && s[i] != COLON by {
        assert(is_digit(s[i]));
    }
}

/// What a part of a dotted address is read as is what it writes.
proof fn lemma_part_back(s: Seq<u8>)
    requires
        octet_value(s) is Some,
    ensures
        is_part(octet_value(s)->0),
        s == figures(octet_value(s)->0 as nat),
{
    let n = octet_value(s)->0;
    reveal_with_fuel(decimal, 4);
    reveal_with_fuel(figures, 4);
    assert(is_digit(s[0]));
    if s.len() == 1 {
        assert(s.drop_last() =~= Seq::<u8>::empty());
        assert(s =~= figures(n as nat));
    } else if s.len() == 2 {
        assert(is_digit(s[1]));
        assert(s.drop_last().drop_last() =~= Seq::<u8>::empty());
        assert(n == (s[0] - ZERO) * 10 + (s[1] - ZERO));
        assert(s =~= figures(n as nat));
    } else {
        assert(is_digit(s[1]) && is_digit(s[2]));
        assert(s.drop_last().drop_last().drop_last() =~= Seq::<u8>::empty());
        assert(n == ((s[0] - ZERO) * 10 + (s[1] - ZERO)) * 10 + (s[2] - ZERO));
        assert(n / 10 == (s[0] - ZERO) * 10 + (s[1] - ZERO));
        assert(s =~= figures(n as nat));
    }
}

/// The first place of a byte behind some bytes that are others.
proof fn lemma_first(s: Seq<u8>, i: int, c: u8, at: int)
    requires
        0 <= i <= at <= s.len(),
        forall|k: int| i <= k < at ==> s[k] != c,
        at < s.len() ==> s[at] == c,
    ensures
        until(s, i, c) == at,
{
    lemma_until(s, i, c);
}

#[verifier::rlimit(40)]
proof fn lemma_dotted(a: int, b: int, c: int, d: int)
    requires
        is_part(a),
        is_part(b),
        is_part(c),
        is_part(d),
    ensures
        ipv4_value(dotted(a, b, c, d)) == Some(a * 0x100_0000 + b * 0x1_0000 + c * 0x100 + d),
        forall|i: int|
            0 <= i < dotted(a, b, c, d).len() ==> #[trigger] dotted(a, b, c, d)[i] != COLON,
        dotted(a, b, c, d).len() > 4,
        dotted(a, b, c, d).contains(DOT),
{
    let s = dotted(a, b, c, d);
    let fa = figures(a as nat);
    let fb = figures(b as nat);
    let fc = figures(c as nat);
    let fd = figures(d as nat);
    lemma_part(a);
    lemma_part(b);
    lemma_part(c);
    lemma_part(d);
    let p1 = fa.len() as int;
    let p2 = p1 + 1 + fb.len();
    let p3 = p2 + 1 + fc.len();
    assert(s.len() == p3 + 1 + fd.len());
    assert forall|k: int| 0 <= k < p1 implies s[k] != DOT && s[k] != COLON by {
        assert(s[k] == fa[k]);
    }
    assert(s[p1] == DOT);
    assert forall|k: int| p1 < k < p2 implies s[k] != DOT && s[k] != COLON by {
        assert(s[k] == fb[k - p1 - 1]);
    }
    assert(s[p2] == DOT);
    assert forall|k: int| p2 < k < p3 implies s[k] != DOT && s[k] != COLON by {
        assert(s[k] == fc[k - p2 - 1]);
    }
    assert(s[p3] == DOT);
    assert forall|k: int| p3 < k < s.len() implies s[k] != DOT && s[k] != COLON by {
        assert(s[k] == fd[k - p3 - 1]);
    }
    lemma_first(s, 0, DOT, p1);
    lemma_first(s, p1 + 1, DOT, p2);
    lemma_first(s, p2 + 1, DOT, p3);
    assert(s.subrange(0, p1) =~= fa);
    assert(s.subrange(p1 + 1, p2) =~= fb);
    assert(s.subrange(p2 + 1, p3) =~= fc);
    assert(s.subrange(p3 + 1, s.len() as int) =~= fd);
    assert forall|i: int| 0 <= i < s.len() implies #[trigger] s[i] != COLON by {
        if i != p1 && i != p2 && i != p3 {
        }
    }
}

/// A number that is read from a dotted address is written by that address.
proof fn lemma_dotted_back(s: Seq<u8>) -> (r: (int, int, int, int))
    requires
        ipv4_value(s) is Some,
    ensures
        is_part(r.0) && is_part(r.1) && is_part(r.2) && is_part(r.3),
        ipv4_value(s) == Some(r.0 * 0x100_0000 + r.1 * 0x1_0000 + r.2 * 0x100 + r.3),
        s == dotted(r.0, r.1, r.2, r.3),
{
    let p1 = until(s, 0, DOT);
    lemma_until(s, 0, DOT);
    let p2 = until(s, p1 + 1, DOT);
    lemma_until(s, p1 + 1, DOT);
    let p3 = until(s, p2 + 1, DOT);
    lemma_until(s, p2 + 1, DOT);
    let s1 = s.subrange(0, p1);
    let s2 = s.subrange(p1 + 1, p2);
    let s3 = s.subrange(p2 + 1, p3);
    let s4 = s.subrange(p3 + 1, s.len() as int);
    lemma_part_back(s1);
    lemma_part_back(s2);
    lemma_part_back(s3);
    lemma_part_back(s4);
    assert(s =~= s1 + seq!['.' as u8] + s2 + seq!['.' as u8] + s3 + seq!['.' as u8] + s4);
    (octet_value(s1)->0, octet_value(s2)->0, octet_value(s3)->0, octet_value(s4)->0)
}

proof fn lemma_parts_are(a: int, b: int, c: int, d: int, e: int, f: int, g: int, h: int)
    requires
        is_part(a) && is_part(b) && is_part(c) && is_part(d),
        is_part(e) && is_part(f) && is_part(g) && is_part(h),
        a * 0x100_0000 + b * 0x1_0000 + c * 0x100 + d == e * 0x100_0000 + f * 0x1_0000 + g * 0x100
            + h,
    ensures
        a == e && b == f && c == g && d == h,
{
}

/// A dotted address is read as the number of its four parts, and a number is read only from the text
/// that writes it: one with a part above 255 or a zero in front of a part is none.
pub proof fn law_dotted_addresses(a: int, b: int, c: int, d: int, s: Seq<u8>, v: u32)
    requires
        is_part(a),
        is_part(b),
        is_part(c),
        is_part(d),
        v == a * 256 * 256 * 256 + b * 256 * 256 + c * 256 + d,
    ensures
        ip_of(dotted(a, b, c, d)) == Some(Ip::V4(v)),
        ip_of(s) == Some(Ip::V4(v)) ==> s == dotted(a, b, c, d),
{
    lemma_dotted(a, b, c, d);
    if ip_of(s) == Some(Ip::V4(v)) {
        let r = lemma_dotted_back(s);
        lemma_parts_are(a, b, c, d, r.0, r.1, r.2, r.3);
    }
}

/// A hexadecimal digit as it is written, in small letters or in capitals.
pub open spec fn hex_written(d: int, capital: bool) -> u8 {
    if d < 10 {
        ('0' as int + d) as u8
    } else if capital {
        ('A' as int + d - 10) as u8
    } else {
        ('a' as int + d - 10) as u8
    }
}

/// A group of an address as it is written: in hexadecimal digits, with no zero in front.
pub open spec fn group_written(n: nat, capital: bool) -> Seq<u8>
    decreases n,
{
    if n < 16 {
        seq![hex_written(n as int, capital)]
    } else {
        group_written(n / 16, capital).push(hex_written((n % 16) as int, capital))
    }
}

/// Groups with a colon behind each, and what follows them.
pub open spec fn groups_then(g: Seq<int>, end: Seq<u8>, capital: bool) -> Seq<u8>
    decreases g.len(),
{
    if g.len() == 0 {
        end
    } else {
        group_written(g[0] as nat, capital) + seq![':' as u8] + groups_then(
            g.drop_first(),
            end,
            capital,
        )
    }
}

/// Groups with colons in between.
pub open spec fn groups_written(g: Seq<int>, capital: bool) -> Seq<u8> {
    if g.len() == 0 {
        Seq::empty()
    } else {
        groups_then(g.drop_last(), group_written(g.last() as nat, capital), capital)
    }
}

/// Groups of an address.
pub open spec fn are_groups(g: Seq<int>) -> bool {
    forall|i: int| 0 <= i < g.len() ==> 0 <= #[trigger] g[i] <= 0xffff
}

/// A byte that can stand in a written group.
spec fn is_hex(c: u8) -> bool {
    hex_digit(c) is Some
}

proof fn lemma_group_digits(n: nat, capital: bool)
    ensures
        hex_value(group_written(n, capital)) == Some(n as int),
        group_written(n, capital).len() >= 1,
        n < 16 ==> group_written(n, capital).len() == 1,
        forall|i: int|
            0 <= i < group_written(n, capital).len() ==> is_hex(
                #[trigger] group_written(n, capital)[i],
            ),
    decreases n,
{
    let s = group_written(n, capital);
    if n < 16 {
        reveal_with_fuel(hex_value, 2);
        assert(s.drop_last() =~= Seq::<u8>::empty());
    } else {
        let front = group_written(n / 16, capital);
        lemma_group_digits(n / 16, capital);
        assert(s.drop_last() =~= front);
        assert forall|i: int| 0 <= i < s.len() implies is_hex(#[trigger] s[i]) by {
            if i < front.len() {
                assert(s[i] == front[i]);
            }
        }
    }
}

proof fn lemma_group(n: int, capital: bool)
    requires
        0 <= n <= 0xffff,
    ensures
        group_value(group_written(n as nat, capital)) == Some(n),
        group_written(n as nat, capital).len() >= 1,
        forall|i: int|
            0 <= i < group_written(n as nat, capital).len() ==> is_hex(
                #[trigger] group_written(n as nat, capital)[i],
            ),
{
    lemma_group_digits(n as nat, capital);
    reveal_with_fuel(group_written, 5);
}

/// Groups and what follows them are read one after the other.
proof fn lemma_groups_then(g: Seq<int>, end: Seq<u8>, e: Seq<int>, dots: bool, capital: bool)
    requires
        are_groups(g),
        groups_of(end, dots) == Some(e),
    ensures
        groups_of(groups_then(g, end, capital), dots) == Some(g + e),
    decreases g.len(),
{
    let s = groups_then(g, end, capital);
    if g.len() == 0 {
        assert(g + e =~= e);
    } else {
        let w = group_written(g[0] as nat, capital);
        let rest = groups_then(g.drop_first(), end, capital);
        lemma_group(g[0], capital);
        assert forall|k: int| 0 <= k < w.len() implies s[k] != COLON by {
            assert(s[k] == w[k]);
            assert(is_hex(w[k]));
        }
        assert(s[w.len() as int] == COLON);
        lemma_first(s, 0, COLON, w.len() as int);
        assert(s.subrange(0, w.len() as int) =~= w);
        assert(s.skip(w.len() as int + 1) =~= rest);
        lemma_groups_then(g.drop_first(), end, e, dots, capital);
        assert(seq![g[0]] + (g.drop_first() + e) =~= g + e);
    }
}

proof fn lemma_groups_written(g: Seq<int>, dots: bool, capital: bool)
    requires
        are_groups(g),
        g.len() > 0,
    ensures
        groups_of(groups_written(g, capital), dots) == Some(g),
{
    let w = group_written(g.last() as nat, capital);
    lemma_group(g.last(), capital);
    assert forall|k: int| 0 <= k < w.len() implies w[k] != COLON by {
        assert(is_hex(w[k]));
    }
    lemma_first(w, 0, COLON, w.len() as int);
    assert(groups_of(w, dots) == Some(seq![g.last()]));
    lemma_groups_then(g.drop_last(), w, seq![g.last()], dots, capital);
    assert(g.drop_last() + seq![g.last()] =~= g);
}

/// No dot occurs.
spec fn has_no_dot(s: Seq<u8>) -> bool {
    forall|i: int| 0 <= i < s.len() ==> #[trigger] s[i] != DOT
}

/// A text of groups starts and ends with a digit and has no two colons in a row.
spec fn is_plain(s: Seq<u8>) -> bool {
    &&& s.len() > 0 && is_hex(s[0]) && is_hex(s.last())
    &&& forall|i: int| 0 <= i < s.len() - 1 ==> !(#[trigger] s[i] == COLON && s[i + 1] == COLON)
}

proof fn lemma_plain(g: Seq<int>, end: Seq<u8>, capital: bool)
    requires
        are_groups(g),
        is_plain(end),
    ensures
        is_plain(groups_then(g, end, capital)),
        has_no_dot(end) ==> has_no_dot(groups_then(g, end, capital)),
    decreases g.len(),
{
    if g.len() > 0 {
        let s = groups_then(g, end, capital);
        let w = group_written(g[0] as nat, capital);
        let rest = groups_then(g.drop_first(), end, capital);
        lemma_group(g[0], capital);
        lemma_plain(g.drop_first(), end, capital);
        let n = w.len() as int;
        assert(s[0] == w[0] && is_hex(w[0]));
        assert(s.last() == rest.last());
        assert forall|i: int| 0 <= i < s.len() && has_no_dot(end) implies #[trigger] s[i] != DOT by {
            if i < n {
                assert(s[i] == w[i] && is_hex(w[i]));
            } else if i > n {
                assert(s[i] == rest[i - n - 1]);
            }
        }
        assert forall|i: int| 0 <= i < s.len() - 1 implies !(#[trigger] s[i] == COLON && s[i + 1]
            == COLON) by {
            if i < n {
                assert(s[i] == w[i] && is_hex(w[i]));
            } else if i == n {
                assert(s[i + 1] == rest[0]);
            } else {
                assert(s[i] == rest[i - n - 1]);
                assert(s[i + 1] == rest[i - n]);
            }
        }
    }
}

proof fn lemma_plain_groups(g: Seq<int>, capital: bool)
    requires
        are_groups(g),
        g.len() > 0,
    ensures
        is_plain(groups_written(g, capital)),
        has_no_dot(groups_written(g, capital)),
{
    let w = group_written(g.last() as nat, capital);
    lemma_group(g.last(), capital);
    assert forall|i: int| 0 <= i < w.len() implies #[trigger] w[i] != DOT && w[i] != COLON by {
        assert(is_hex(w[i]));
    }
    assert(is_hex(w[0]) && is_hex(w[w.len() - 1]));
    lemma_plain(g.drop_last(), w, capital);
}

/// The first double colon stands behind bytes that have none and do not end in a colon.
proof fn lemma_gap(s: Seq<u8>, i: int, at: int)
    requires
        0 <= i <= at <= s.len(),
        forall|k: int|
            i <= k < at && k + 1 < s.len() ==> !(s[k] == COLON && #[trigger] s[k + 1] == COLON),
        at < s.len() ==> at + 1 < s.len() && s[at] == COLON && s[at + 1] == COLON,
    ensures
        gap_at(s, i) == at,
    decreases at - i,
{
    if i < at && i + 1 < s.len() {
        assert(!(s[i] == COLON && s[i + 1] == COLON));
        lemma_gap(s, i + 1, at);
    }
}

/// A text without dots is no dotted address.
proof fn lemma_not_dotted(s: Seq<u8>)
    requires
        forall|i: int| 0 <= i < s.len() ==> #[trigger] s[i] != DOT,
    ensures
        ipv4_value(s) is None,
{
    lemma_first(s, 0, DOT, s.len() as int);
}

/// The number of eight groups.
pub open spec fn number_of(g: Seq<int>) -> int {
    ((((((g[0] * 65536 + g[1]) * 65536 + g[2]) * 65536 + g[3]) * 65536 + g[4]) * 65536 + g[5])
        * 65536 + g[6]) * 65536 + g[7]
}

proof fn lemma_number(g: Seq<int>)
    requires
        g.len() == 8,
    ensures
        groups_value(g) == number_of(g),
{
    reveal_with_fuel(groups_value, 9);
    let g7 = g.drop_last();
    let g6 = g7.drop_last();
    let g5 = g6.drop_last();
    let g4 = g5.drop_last();
    let g3 = g4.drop_last();
    let g2 = g3.drop_last();
    let g1 = g2.drop_last();
    assert(g1.drop_last() =~= Seq::<int>::empty());
    assert(g7.last() == g[6] && g6.last() == g[5] && g5.last() == g[4] && g4.last() == g[3]
        && g3.last() == g[2] && g2.last() == g[1] && g1.last() == g[0]);
}

/// Eight groups of hexadecimal digits, small or capital, with colons in between are read as the
/// number that they write.
pub proof fn law_eight_groups(g: Seq<int>, capital: bool, v: u128)
    requires
        g.len() == 8,
        are_groups(g),
        v == number_of(g),
    ensures
        ip_of(groups_written(g, capital)) == Some(Ip::V6(v)),
{
    let s = groups_written(g, capital);
    lemma_plain_groups(g, capital);
    lemma_not_dotted(s);
    lemma_gap(s, 0, s.len() as int);
    lemma_groups_written(g, true, capital);
    lemma_number(g);
}

/// Two texts of groups, of which one or both may be empty, with a double colon in between.
proof fn lemma_two_sides(h: Seq<u8>, t: Seq<u8>)
    requires
        h.len() == 0 || is_plain(h),
        t.len() == 0 || is_plain(t),
        has_no_dot(h),
        has_no_dot(t),
    ensures
        ({
            let s = h + seq![':' as u8, ':' as u8] + t;
            &&& ipv4_value(s) is None
            &&& gap_at(s, 0) == h.len()
            &&& s.len() > h.len()
            &&& s.subrange(0, h.len() as int) == h
            &&& s.skip(h.len() as int + 2) == t
        }),
{
    let s = h + seq![':' as u8, ':' as u8] + t;
    let n = h.len() as int;
    assert forall|i: int| 0 <= i < s.len() implies #[trigger] s[i] != DOT by {
        if i < n {
            assert(s[i] == h[i]);
        } else if i >= n + 2 {
            assert(s[i] == t[i - n - 2]);
        }
    }
    lemma_not_dotted(s);
    assert forall|k: int| 0 <= k < n && k + 1 < s.len() implies !(s[k] == COLON && #[trigger] s[k
        + 1] == COLON) by {
        assert(s[k] == h[k]);
        if k + 1 < n {
            assert(s[k + 1] == h[k + 1]);
        } else {
            assert(h[k] == h.last());
        }
    }
    assert(s[n] == COLON && s[n + 1] == COLON);
    lemma_gap(s, 0, n);
    assert(s.subrange(0, n) =~= h);
    assert(s.skip(n + 2) =~= t);
}

/// The groups at the side of a double colon are read.
proof fn lemma_side(g: Seq<int>, dots: bool, capital: bool)
    requires
        are_groups(g),
    ensures
        side_groups(groups_written(g, capital), dots) == Some(g),
        g.len() == 0 ==> groups_written(g, capital).len() == 0,
        g.len() > 0 ==> is_plain(groups_written(g, capital)),
        has_no_dot(groups_written(g, capital)),
{
    if g.len() == 0 {
        assert(g =~= Seq::<int>::empty());
    } else {
        lemma_plain_groups(g, capital);
        lemma_groups_written(g, dots, capital);
    }
}

/// A double colon stands for as many groups of zeros as are missing of eight: at least one.
pub proof fn law_double_colon(head: Seq<int>, tail: Seq<int>, capital: bool, v: u128)
    requires
        are_groups(head),
        are_groups(tail),
        head.len() + tail.len() <= 7,
        v == number_of(head + Seq::new((8 - head.len() - tail.len()) as nat, |i: int| 0int) + tail),
    ensures
        ip_of(
            groups_written(head, capital) + seq![':' as u8, ':' as u8] + groups_written(
                tail,
                capital,
            ),
        ) == Some(Ip::V6(v)),
{
    let h = groups_written(head, capital);
    let t = groups_written(tail, capital);
    lemma_side(head, false, capital);
    lemma_side(tail, true, capital);
    lemma_two_sides(h, t);
    let zeros = Seq::new((8 - head.len() - tail.len()) as nat, |i: int| 0int);
    lemma_number(head + zeros + tail);
}

/// A dotted address at the end of groups is read as two groups, and does not make a dotted address
/// of the whole.
proof fn lemma_dotted_end(g: Seq<int>, a: int, b: int, c: int, d: int, capital: bool)
    requires
        are_groups(g),
        g.len() > 0,
        is_part(a),
        is_part(b),
        is_part(c),
        is_part(d),
    ensures
        ({
            let s = groups_then(g, dotted(a, b, c, d), capital);
            &&& is_plain(s)
            &&& ipv4_value(s) is None
            &&& groups_of(s, true) == Some(g + seq![a * 256 + b, c * 256 + d])
        }),
{
    let end = dotted(a, b, c, d);
    let s = groups_then(g, end, capital);
    lemma_dotted(a, b, c, d);
    lemma_first(end, 0, COLON, end.len() as int);
    let v = a * 0x100_0000 + b * 0x1_0000 + c * 0x100 + d;
    assert(v / 0x1_0000 == a * 256 + b && v % 0x1_0000 == c * 256 + d);
    assert(groups_of(end, true) == Some(seq![a * 256 + b, c * 256 + d]));
    lemma_groups_then(g, end, seq![a * 256 + b, c * 256 + d], true, capital);
    lemma_part(a);
    lemma_part(d);
    lemma_figures(a as nat);
    lemma_figures(d as nat);
    let fa = figures(a as nat);
    let fd = figures(d as nat);
    assert(end[0] == fa[0] && is_digit(fa[0]));
    assert(end.last() == fd[fd.len() - 1] && is_digit(fd[fd.len() - 1]));
    lemma_plain(g, end, capital);
    let w = group_written(g[0] as nat, capital);
    lemma_group(g[0], capital);
    let n = w.len() as int;
    assert forall|k: int| 0 <= k <= n implies s[k] != DOT by {
        if k < n {
            assert(s[k] == w[k] && is_hex(w[k]));
        } else {
            assert(s[k] == COLON);
        }
    }
    lemma_until(s, 0, DOT);
    let p = until(s, 0, DOT);
    if ipv4_value(s) is Some {
        assert(p > n);
        assert(s.subrange(0, p)[n] == COLON);
        assert(!is_digit(s.subrange(0, p)[n]));
    }
}

/// The last two of eight groups can be written as a dotted address.
pub proof fn law_dotted_end(
    g: Seq<int>,
    a: int,
    b: int,
    c: int,
    d: int,
    capital: bool,
    v: u128,
)
    requires
        g.len() == 6,
        are_groups(g),
        is_part(a),
        is_part(b),
        is_part(c),
        is_part(d),
        v == number_of(g + seq![a * 256 + b, c * 256 + d]),
    ensures
        ip_of(groups_then(g, dotted(a, b, c, d), capital)) == Some(Ip::V6(v)),
{
    let s = groups_then(g, dotted(a, b, c, d), capital);
    lemma_dotted_end(g, a, b, c, d, capital);
    lemma_gap(s, 0, s.len() as int);
    lemma_number(g + seq![a * 256 + b, c * 256 + d]);
}

/// The columns of an address: a kind of one and the number for a dotted one, a kind of two and the
/// two halves of the number for the other.
pub proof fn law_address_columns(n: u32, hi: u64, lo: u64)
    ensures
        Ip::V4(n).key() == (1u8, 0u64, n as u64),
        Ip::V6((hi * 0x1_0000_0000_0000_0000 + lo) as u128).key() == (2u8, hi, lo),
{
}

} // verus!
