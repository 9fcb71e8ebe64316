//! Unique addresses: bitmaps that are stored, merged and counted.

use roaring::{RoaringBitmap, RoaringTreemap};
use vstd::prelude::*;
use vstd::relations::injective_on;
use vstd::set_lib::*;

use crate::bitmaps::{
    has_ip, ip_keys, low_halves, no_ips, v4_decoded, v4_deserialize, v4_is_empty, v4_len, v4_new,
    v4_serialize, v4_set, v4_union, v6_contains, v6_decoded, v6_deserialize, v6_is_empty, v6_len,
    v6_new, v6_serialize, v6_set, v6_union, IpBitmaps, IpSets,
};
use crate::ip::Ip;
use crate::maps::{is_key_listing, is_size, trees, trees_get, trees_keys, trees_put, trees_take};

verus! {

/// The kind column of an IPv4 row.
pub const KIND_V4: u8 = 1;

/// The kind column of an IPv6 row.
pub const KIND_V6: u8 = 2;

/// Why stored addresses cannot be used.
#[derive(Debug, Clone, Copy, PartialEq, Eq, Structural)]
pub enum BitmapError {
    /// The bytes of an IPv4 bitmap are not one.
    V4,
    /// The bytes of an IPv6 treemap are not one.
    V6,
    /// There are more addresses than a count can say.
    Count,
}

impl BitmapError {
    /// What went wrong, in words.
    pub fn message(self) -> (r: &'static str)
        ensures
            r@ == match self {
                BitmapError::V4 => "deserialize v4 bitmap"@,
                BitmapError::V6 => "deserialize v6 bitmap"@,
                BitmapError::Count => "unique address count overflow"@,
            },
    {
        match self {
            BitmapError::V4 => "deserialize v4 bitmap",
            BitmapError::V6 => "deserialize v6 bitmap",
            BitmapError::Count => "unique address count overflow",
        }
    }
}

/// The bitmap that stored bytes hold.
pub fn deserialize_v4(blob: &[u8]) -> (r: Result<RoaringBitmap, BitmapError>)
    ensures
        match r {
            Ok(b) => v4_decoded(blob@) == Some(v4_set(b)),
            Err(e) => v4_decoded(blob@) is None && e == BitmapError::V4,
        },
{
    match v4_deserialize(blob) {
        Some(b) => Ok(b),
        None => Err(BitmapError::V4),
    }
}

/// The treemap that stored bytes hold.
pub fn deserialize_v6(blob: &[u8]) -> (r: Result<RoaringTreemap, BitmapError>)
    ensures
        match r {
            Ok(t) => v6_decoded(blob@) == Some(v6_set(t)),
            Err(e) => v6_decoded(blob@) is None && e == BitmapError::V6,
        },
{
    match v6_deserialize(blob) {
        Some(t) => Ok(t),
        None => Err(BitmapError::V6),
    }
}

/// The bytes that store a bitmap.
pub fn serialize_v4(bm: &RoaringBitmap) -> (r: Vec<u8>)
    ensures
        v4_decoded(r@) == Some(v4_set(*bm)),
{
    v4_serialize(bm)
}

/// The bytes that store a treemap.
pub fn serialize_v6(tm: &RoaringTreemap) -> (r: Vec<u8>)
    ensures
        v6_decoded(r@) == Some(v6_set(*tm)),
{
    v6_serialize(tm)
}

// ── Counting ────────────────────────────────────────────────────────────────

/// A set of 64-bit numbers is finite, and lacks one unless it has two to the power of 64 members.
proof fn lemma_u64_set(s: Set<u64>)
    ensures
        s.finite(),
        forall|x: u64| !s.contains(x) ==> s.len() <= u64::MAX,
        (forall|x: u64| s.contains(x)) ==> s.len() > u64::MAX,
{
    let all = set_int_range(0, 0x1_0000_0000_0000_0000);
    let f = |i: int| i as u64;
    lemma_int_range(0, 0x1_0000_0000_0000_0000);
    lemma_map_size_bound(all, all.map(f), f);
    assert forall|x: u64| s.contains(x) implies all.map(f).contains(x) by {
        assert(all.contains(x as int) && f(x as int) == x);
    }
    lemma_len_subset(s, all.map(f));
    assert forall|x: u64| !s.contains(x) implies s.len() <= u64::MAX by {
        let rest = all.remove(x as int);
        lemma_map_size_bound(rest, rest.map(f), f);
        assert forall|y: u64| s.contains(y) implies rest.map(f).contains(y) by {
            assert(rest.contains(y as int) && f(y as int) == y);
        }
        lemma_len_subset(s, rest.map(f));
    }
    if forall|x: u64| s.contains(x) {
        assert(injective_on(f, all));
        assert(all.map(f) =~= s);
        lemma_map_size(all, s, f);
    }
}

/// The number of members of a treemap; `None` where it is every number.
pub fn count_v6(t: &RoaringTreemap) -> (r: Option<u64>)
    ensures
        match r {
            Some(n) => is_size(v6_set(*t), n as nat),
            None => v6_set(*t).len() > u64::MAX,
        },
{
    let mut x: u64 = 0;
    while v6_contains(t, x)
        invariant
            forall|y: u64| y < x ==> v6_set(*t).contains(y),
        decreases u64::MAX - x,
    {
        if x == u64::MAX {
            proof {
                lemma_u64_set(v6_set(*t));
            }
            return None;
        }
        x += 1;
    }
    proof {
        lemma_u64_set(v6_set(*t));
    }
    Some(v6_len(t))
}

/// The keys of the addresses under some high halves, and of the IPv4 addresses.
spec fn keys_under(s: IpSets, his: Seq<u64>) -> Set<(u8, u64, u64)> {
    Set::new(
        |k: (u8, u64, u64)|
            (k.0 == 1 && k.1 == 0 && k.2 <= u32::MAX && s.v4.contains(k.2 as u32)) || (k.0 == 2
                && his.contains(k.1) && low_halves(s.v6, k.1).contains(k.2)),
    )
}

proof fn lemma_v4_keys(s: IpSets)
    requires
        s.v4.finite(),
    ensures
        keys_under(s, Seq::empty()).finite(),
        keys_under(s, Seq::empty()).len() == s.v4.len(),
{
    let f = |n: u32| (1u8, 0u64, n as u64);
    let y = keys_under(s, Seq::empty());
    assert(s.v4.map(f) =~= y) by {
        assert forall|k: (u8, u64, u64)| y.contains(k) implies s.v4.map(f).contains(k) by {
            assert(s.v4.contains(k.2 as u32) && f(k.2 as u32) == k);
        }
    }
    assert(injective_on(f, s.v4));
    lemma_map_size(s.v4, y, f);
}

proof fn lemma_more_keys(s: IpSets, his: Seq<u64>, hi: u64)
    requires
        keys_under(s, his).finite(),
        low_halves(s.v6, hi).finite(),
        !his.contains(hi),
    ensures
        keys_under(s, his.push(hi)).finite(),
        keys_under(s, his.push(hi)).len() == keys_under(s, his).len() + low_halves(s.v6, hi).len(),
{
    let x = low_halves(s.v6, hi);
    let f = |lo: u64| (2u8, hi, lo);
    let y = Set::new(|k: (u8, u64, u64)| k.0 == 2 && k.1 == hi && x.contains(k.2));
    assert(x.map(f) =~= y) by {
        assert forall|k: (u8, u64, u64)| y.contains(k) implies x.map(f).contains(k) by {
            assert(x.contains(k.2) && f(k.2) == k);
        }
    }
    assert(injective_on(f, x));
    lemma_map_size(x, y, f);
    let a = keys_under(s, his);
    let c = keys_under(s, his.push(hi));
    assert forall|h: u64| his.push(hi).contains(h) <==> his.contains(h) || h == hi by {
        if his.contains(h) {
            let i = choose|i: int| 0 <= i < his.len() && his[i] == h;
            assert(his.push(hi)[i] == h);
        }
        assert(his.push(hi)[his.len() as int] == hi);
    }
    assert(c =~= a + y);
    assert(a.disjoint(y));
    lemma_set_disjoint_lens(a, y);
}

proof fn lemma_keys_grow(s: IpSets, his: Seq<u64>, more: Seq<u64>)
    requires
        keys_under(s, more).finite(),
        forall|h: u64| his.contains(h) ==> more.contains(h),
    ensures
        keys_under(s, his).len() <= keys_under(s, more).len(),
{
    lemma_len_subset(keys_under(s, his), keys_under(s, more));
}

/// The number of addresses in bitmaps; `None` where 64 bits cannot say it.
pub fn bitmap_cardinality(bitmaps: &IpBitmaps) -> (r: Option<u64>)
    ensures
        ip_keys(bitmaps@).finite(),
        match r {
            Some(n) => ip_keys(bitmaps@).len() == n,
            None => ip_keys(bitmaps@).len() > u64::MAX,
        },
{
    let ghost s = bitmaps@;
    let mut total: u64 = v4_len(&bitmaps.v4);
    let his = trees_keys(&bitmaps.v6);
    proof {
        lemma_v4_keys(s);
        lemma_all_keys(s, his@);
        assert(his@.take(0) =~= Seq::<u64>::empty());
    }
    let mut i: usize = 0;
    while i < his.len()
        invariant
            0 <= i <= his@.len(),
            s == bitmaps@,
            is_key_listing(his@, s.v6.dom()),
            keys_under(s, his@).finite(),
            keys_under(s, his@) == ip_keys(s),
            keys_under(s, his@.take(i as int)).finite(),
            keys_under(s, his@.take(i as int)).len() == total,
        decreases his@.len() - i,
    {
        let hi: u64 = his[i];
        let counted: Option<u64> = match trees_get(&bitmaps.v6, hi) {
            Some(t) => count_v6(t),
            None => Some(0),
        };
        proof {
            assert(his@[i as int] == hi);
            assert(his@.contains(hi));
            lemma_u64_set(low_halves(s.v6, hi));
            assert(!his@.take(i as int).contains(hi)) by {
                assert forall|j: int| 0 <= j < i implies his@[j] != hi by {
                    assert(his@[j] != his@[i as int]);
                }
            }
            lemma_more_keys(s, his@.take(i as int), hi);
            assert(his@.take(i as int).push(hi) =~= his@.take(i + 1));
            assert forall|h: u64| his@.take(i + 1).contains(h) implies his@.contains(h) by {
                let part = his@.take(i + 1);
                let j = choose|j: int| 0 <= j < part.len() && part[j] == h;
                assert(his@[j] == h);
            }
            lemma_keys_grow(s, his@.take(i + 1), his@);
        }
        match counted {
            Some(n) => {
                match total.checked_add(n) {
                    Some(t) => {
                        total = t;
                    },
                    None => {
                        return None;
                    },
                }
            },
            None => {
                return None;
            },
        }
        i += 1;
    }
    assert(his@.take(i as int) =~= his@);
    Some(total)
}

proof fn lemma_all_keys(s: IpSets, his: Seq<u64>)
    requires
        is_key_listing(his, s.v6.dom()),
        s.v4.finite(),
    ensures
        keys_under(s, his) == ip_keys(s),
        keys_under(s, his).finite(),
{
    lemma_keys_finite(s, his);
    assert(keys_under(s, his) =~= ip_keys(s));
}

proof fn lemma_keys_finite(s: IpSets, his: Seq<u64>)
    requires
        his.no_duplicates(),
        s.v4.finite(),
    ensures
        keys_under(s, his).finite(),
    decreases his.len(),
{
    if his.len() == 0 {
        assert(his =~= Seq::empty());
        lemma_v4_keys(s);
    } else {
        let rest = his.drop_last();
        lemma_keys_finite(s, rest);
        lemma_u64_set(low_halves(s.v6, his.last()));
        assert(!rest.contains(his.last())) by {
            assert forall|j: int| 0 <= j < rest.len() implies rest[j] != his.last() by {
                assert(his[j] != his[his.len() - 1]);
            }
        }
        lemma_more_keys(s, rest, his.last());
        assert(rest.push(his.last()) =~= his);
    }
}

// ── Merging ─────────────────────────────────────────────────────────────────

/// What bytes that may be stored already hold: nothing where there are none.
pub open spec fn stored_v4(existing: Option<Vec<u8>>) -> Option<Set<u32>> {
    match existing {
        Some(blob) => v4_decoded(blob@),
        None => Some(Set::empty()),
    }
}

/// What bytes that may be stored already hold: nothing where there are none.
pub open spec fn stored_v6(existing: Option<Vec<u8>>) -> Option<Set<u64>> {
    match existing {
        Some(blob) => v6_decoded(blob@),
        None => Some(Set::empty()),
    }
}

/// What adding addresses to stored ones gives: their number, each counted once, and bytes that
/// hold them all; an error where the stored ones cannot be read.
pub open spec fn is_merged_v4(
    stored: Option<Set<u32>>,
    new: Set<u32>,
    r: Result<(u64, Vec<u8>), BitmapError>,
) -> bool {
    match (r, stored) {
        (Ok(row), Some(s)) => is_size(s.union(new), row.0 as nat) && v4_decoded(row.1@) == Some(
            s.union(new),
        ),
        (Err(e), None) => e == BitmapError::V4,
        _ => false,
    }
}

/// What adding addresses of one high half to stored ones gives: their number, each counted once,
/// and bytes that hold them all; an error where the stored ones cannot be read, or where 64 bits
/// cannot count them.
pub open spec fn is_merged_v6(
    stored: Option<Set<u64>>,
    new: Set<u64>,
    r: Result<(u64, Vec<u8>), BitmapError>,
) -> bool {
    match (r, stored) {
        (Ok(row), Some(s)) => is_size(s.union(new), row.0 as nat) && v6_decoded(row.1@) == Some(
            s.union(new),
        ),
        (Err(e), Some(s)) => e == BitmapError::Count && s.union(new).len() > u64::MAX,
        (Err(e), None) => e == BitmapError::V6,
        (Ok(_), None) => false,
    }
}

/// Adding addresses again counts none of them again.
pub proof fn law_addresses_count_once(
    stored: Set<u32>,
    new: Set<u32>,
    first: Result<(u64, Vec<u8>), BitmapError>,
    second: Result<(u64, Vec<u8>), BitmapError>,
)
    requires
        is_merged_v4(Some(stored), new, first),
        is_merged_v4(v4_decoded((first->Ok_0).1@), new, second),
    ensures
        first is Ok && second is Ok,
        (second->Ok_0).0 == (first->Ok_0).0,
{
    assert(stored.union(new).union(new) =~= stored.union(new));
}

/// Adds IPv4 addresses to those that are stored: their number and the bytes to store.
pub fn merge_v4(existing: Option<Vec<u8>>, new: &RoaringBitmap) -> (r: Result<
    (u64, Vec<u8>),
    BitmapError,
>)
    ensures
        is_merged_v4(stored_v4(existing), v4_set(*new), r),
{
    let mut bm = match existing {
        Some(blob) => match deserialize_v4(&blob) {
            Ok(b) => b,
            Err(e) => {
                return Err(e);
            },
        },
        None => v4_new(),
    };
    v4_union(&mut bm, new);
    Ok((v4_len(&bm), serialize_v4(&bm)))
}

/// Adds IPv6 addresses of one high half to those that are stored: their number and the bytes to
/// store.
pub fn merge_v6(existing: Option<Vec<u8>>, new: &RoaringTreemap) -> (r: Result<
    (u64, Vec<u8>),
    BitmapError,
>)
    ensures
        is_merged_v6(stored_v6(existing), v6_set(*new), r),
{
    let mut tm = match existing {
        Some(blob) => match deserialize_v6(&blob) {
            Ok(t) => t,
            Err(e) => {
                return Err(e);
            },
        },
        None => v6_new(),
    };
    v6_union(&mut tm, new);
    match count_v6(&tm) {
        Some(n) => Ok((n, serialize_v6(&tm))),
        None => Err(BitmapError::Count),
    }
}

/// A stored row: kind, high half and bytes.
pub open spec fn row_view(row: (u8, u64, Vec<u8>)) -> (u8, u64, Seq<u8>) {
    (row.0, row.1, row.2@)
}

/// Stored rows by their values.
pub open spec fn rows_view(rows: Seq<(u8, u64, Vec<u8>)>) -> Seq<(u8, u64, Seq<u8>)> {
    Seq::new(rows.len(), |i: int| row_view(rows[i]))
}

/// The sets with the addresses of one row added; rows of an unknown kind add nothing.
pub open spec fn with_row(s: IpSets, row: (u8, u64, Seq<u8>)) -> Result<IpSets, BitmapError> {
    if row.0 == KIND_V4 {
        match v4_decoded(row.2) {
            Some(x) => Ok(IpSets { v4: s.v4.union(x), v6: s.v6 }),
            None => Err(BitmapError::V4),
        }
    } else if row.0 == KIND_V6 {
        match v6_decoded(row.2) {
            Some(x) => Ok(
                IpSets { v4: s.v4, v6: s.v6.insert(row.1, low_halves(s.v6, row.1).union(x)) },
            ),
            None => Err(BitmapError::V6),
        }
    } else {
        Ok(s)
    }
}

/// The sets with the addresses of all rows added, up to the first row that cannot be read.
pub open spec fn with_rows(s: IpSets, rows: Seq<(u8, u64, Seq<u8>)>) -> Result<IpSets, BitmapError>
    decreases rows.len(),
{
    if rows.len() == 0 {
        Ok(s)
    } else {
        match with_rows(s, rows.drop_last()) {
            Ok(t) => with_row(t, rows.last()),
            Err(e) => Err(e),
        }
    }
}

/// Adds the addresses of a row.
fn or_bitmap_row(row: &(u8, u64, Vec<u8>), bitmaps: &mut IpBitmaps) -> (r: Result<(), BitmapError>)
    ensures
        match r {
            Ok(_) => with_row(old(bitmaps)@, row_view(*row)) == Ok::<_, BitmapError>(
                final(bitmaps)@,
            ),
            Err(e) => with_row(old(bitmaps)@, row_view(*row)) == Err::<IpSets, _>(e)
                && final(bitmaps)@ == old(bitmaps)@,
        },
{
    if row.0 == KIND_V4 {
        match deserialize_v4(&row.2) {
            Ok(b) => {
                v4_union(&mut bitmaps.v4, &b);
                Ok(())
            },
            Err(e) => Err(e),
        }
    } else if row.0 == KIND_V6 {
        match deserialize_v6(&row.2) {
            Ok(t) => {
                let mut all = match trees_take(&mut bitmaps.v6, row.1) {
                    Some(x) => x,
                    None => v6_new(),
                };
                v6_union(&mut all, &t);
                trees_put(&mut bitmaps.v6, row.1, all);
                assert(trees(bitmaps.v6) =~= trees(old(bitmaps).v6).insert(
                    row.1,
                    low_halves(trees(old(bitmaps).v6), row.1).union(v6_set(t)),
                ));
                Ok(())
            },
            Err(e) => Err(e),
        }
    } else {
        Ok(())
    }
}

/// Adds the addresses of all rows to bitmaps.
pub fn or_bitmap_rows(rows: &Vec<(u8, u64, Vec<u8>)>, bitmaps: &mut IpBitmaps) -> (r: Result<
    (),
    BitmapError,
>)
    ensures
        match r {
            Ok(_) => with_rows(old(bitmaps)@, rows_view(rows@)) == Ok::<_, BitmapError>(
                final(bitmaps)@,
            ),
            Err(e) => with_rows(old(bitmaps)@, rows_view(rows@)) == Err::<IpSets, _>(e),
        },
{
    let ghost start = bitmaps@;
    let ghost all = rows_view(rows@);
    let mut i: usize = 0;
    assert(all.take(0) =~= Seq::empty());
    while i < rows.len()
        invariant
            0 <= i <= rows@.len(),
            all == rows_view(rows@),
            start == old(bitmaps)@,
            with_rows(start, all.take(i as int)) == Ok::<_, BitmapError>(bitmaps@),
        decreases rows@.len() - i,
    {
        proof {
            assert(all.take(i + 1).drop_last() =~= all.take(i as int));
            assert(all.take(i + 1).last() == row_view(rows@[i as int]));
        }
        match or_bitmap_row(&rows[i], bitmaps) {
            Ok(_) => {},
            Err(e) => {
                proof {
                    lemma_stops(start, all, i + 1, e);
                }
                return Err(e);
            },
        }
        i += 1;
    }
    assert(all.take(i as int) =~= all);
    Ok(())
}

/// After a row that cannot be read, more rows change nothing.
proof fn lemma_stops(s: IpSets, rows: Seq<(u8, u64, Seq<u8>)>, n: int, e: BitmapError)
    requires
        0 <= n <= rows.len(),
        with_rows(s, rows.take(n)) == Err::<IpSets, _>(e),
    ensures
        with_rows(s, rows) == Err::<IpSets, _>(e),
    decreases rows.len() - n,
{
    if n < rows.len() {
        assert(rows.take(n + 1).drop_last() =~= rows.take(n));
        lemma_stops(s, rows, n + 1, e);
    } else {
        assert(rows.take(n) =~= rows);
    }
}

/// A row holds an address.
pub open spec fn row_has(row: (u8, u64, Seq<u8>), ip: Ip) -> bool {
    &&& row.0 == ip.key().0
    &&& match ip {
        Ip::V4(n) => v4_decoded(row.2) matches Some(x) && x.contains(n),
        Ip::V6(_) => row.1 == ip.key().1 && (v6_decoded(row.2) matches Some(x) && x.contains(
            ip.key().2,
        )),
    }
}

/// Rows add up to the addresses that any of them holds.
pub proof fn law_rows_are_a_union(s: IpSets, rows: Seq<(u8, u64, Seq<u8>)>, ip: Ip)
    requires
        with_rows(s, rows) is Ok,
    ensures
        has_ip(with_rows(s, rows)->Ok_0, ip) == (has_ip(s, ip) || exists|i: int|
            0 <= i < rows.len() && row_has(#[trigger] rows[i], ip)),
    decreases rows.len(),
{
    if rows.len() > 0 {
        let rest = rows.drop_last();
        law_rows_are_a_union(s, rest, ip);
        let t = with_rows(s, rest)->Ok_0;
        let u = with_rows(s, rows)->Ok_0;
        assert(has_ip(u, ip) == (has_ip(t, ip) || row_has(rows.last(), ip)));
        if exists|i: int| 0 <= i < rest.len() && row_has(#[trigger] rest[i], ip) {
            let i = choose|i: int| 0 <= i < rest.len() && row_has(#[trigger] rest[i], ip);
            assert(row_has(rows[i], ip));
        }
        if exists|i: int| 0 <= i < rows.len() && row_has(#[trigger] rows[i], ip) {
            let i = choose|i: int| 0 <= i < rows.len() && row_has(#[trigger] rows[i], ip);
            if i < rest.len() {
                assert(row_has(rest[i], ip));
            }
        }
        assert(rows[rows.len() - 1] == rows.last());
    }
}

// ── Snapshots of a month ────────────────────────────────────────────────────

/// A row stores the addresses of its kind and high half, of which there are some.
pub open spec fn stores_group(s: IpSets, row: (u8, u64, Seq<u8>)) -> bool {
    if row.0 == KIND_V4 {
        row.1 == 0 && v4_decoded(row.2) == Some(s.v4) && s.v4 != Set::<u32>::empty()
    } else {
        row.0 == KIND_V6 && s.v6.dom().contains(row.1) && v6_decoded(row.2) == Some(s.v6[row.1])
            && s.v6[row.1] != Set::<u64>::empty()
    }
}

/// The sets have addresses of a kind and high half.
pub open spec fn has_group(s: IpSets, kind: u8, hi: u64) -> bool {
    if kind == KIND_V4 {
        hi == 0 && s.v4 != Set::<u32>::empty()
    } else {
        kind == KIND_V6 && s.v6.dom().contains(hi) && s.v6[hi] != Set::<u64>::empty()
    }
}

/// Rows store the addresses of the sets, each kind and high half in one row.
pub open spec fn is_snapshot(rows: Seq<(u8, u64, Seq<u8>)>, s: IpSets) -> bool {
    &&& forall|i: int| 0 <= i < rows.len() ==> stores_group(s, #[trigger] rows[i])
    &&& forall|i: int, j: int|
        0 <= i < j < rows.len() ==> (#[trigger] rows[i]).0 != (#[trigger] rows[j]).0 || rows[i].1
            != rows[j].1
    &&& forall|kind: u8, hi: u64| #[trigger]
        has_group(s, kind, hi) ==> exists|i: int|
            0 <= i < rows.len() && (#[trigger] rows[i]).0 == kind && rows[i].1 == hi
}

/// The rows that store the addresses of bitmaps.
pub fn bitmap_rows(bitmaps: &IpBitmaps) -> (r: Vec<(u8, u64, Vec<u8>)>)
    ensures
        is_snapshot(rows_view(r@), bitmaps@),
{
    let ghost s = bitmaps@;
    let mut rows: Vec<(u8, u64, Vec<u8>)> = Vec::new();
    if !v4_is_empty(&bitmaps.v4) {
        rows.push((KIND_V4, 0, serialize_v4(&bitmaps.v4)));
        assert(rows_view(rows@)[0].0 == KIND_V4);
    }
    let his = trees_keys(&bitmaps.v6);
    let mut i: usize = 0;
    while i < his.len()
        invariant
            0 <= i <= his@.len(),
            s == bitmaps@,
            is_key_listing(his@, s.v6.dom()),
            forall|k: int| 0 <= k < rows@.len() ==> stores_group(s, #[trigger] rows_view(rows@)[k]),
            forall|a: int, b: int|
                0 <= a < b < rows@.len() ==> (#[trigger] rows_view(rows@)[a]).0 != (
                #[trigger] rows_view(rows@)[b]).0 || rows_view(rows@)[a].1 != rows_view(rows@)[b].1,
            forall|k: int|
                0 <= k < rows@.len() && (#[trigger] rows_view(rows@)[k]).0 == KIND_V6 ==> his@.take(
                    i as int,
                ).contains(rows_view(rows@)[k].1),
            s.v4 != Set::<u32>::empty() ==> rows@.len() > 0 && rows_view(rows@)[0].0 == KIND_V4,
            forall|h: int|
                0 <= h < i && s.v6[#[trigger] his@[h]] != Set::<u64>::empty() ==> exists|k: int|
                    0 <= k < rows@.len() && (#[trigger] rows_view(rows@)[k]).0 == KIND_V6
                        && rows_view(rows@)[k].1 == his@[h],
        decreases his@.len() - i,
    {
        let hi: u64 = his[i];
        let ghost before = rows@;
        proof {
            assert(his@.contains(hi)) by {
                assert(his@[i as int] == hi);
            }
            assert(his@.take(i + 1) =~= his@.take(i as int).push(hi));
            assert forall|h: u64| his@.take(i as int).contains(h) implies his@.take(
                i + 1,
            ).contains(h) && h != hi by {
                let part = his@.take(i as int);
                let j = choose|j: int| 0 <= j < part.len() && part[j] == h;
                assert(his@.take(i + 1)[j] == h);
                assert(his@[j] != his@[i as int]);
            }
            assert(his@.take(i + 1)[i as int] == hi);
        }
        if let Some(t) = trees_get(&bitmaps.v6, hi) {
            if !v6_is_empty(t) {
                rows.push((KIND_V6, hi, serialize_v6(t)));
                proof {
                    assert(rows_view(rows@) =~= rows_view(before).push(
                        row_view(rows@[before.len() as int]),
                    ));
                    assert(rows_view(rows@)[before.len() as int].1 == hi);
                    assert forall|h: int|
                        0 <= h < i && s.v6[#[trigger] his@[h]] != Set::<u64>::empty() implies exists|
                        k: int,
                    |
                        0 <= k < rows@.len() && (#[trigger] rows_view(rows@)[k]).0 == KIND_V6
                            && rows_view(rows@)[k].1 == his@[h] by {
                        let k = choose|k: int|
                            0 <= k < before.len() && (#[trigger] rows_view(before)[k]).0 == KIND_V6
                                && rows_view(before)[k].1 == his@[h];
                        assert(rows_view(rows@)[k] == rows_view(before)[k]);
                    }
                }
            }
        }
        i += 1;
    }
    proof {
        let view = rows_view(rows@);
        assert forall|kind: u8, hi: u64| #[trigger] has_group(s, kind, hi) implies exists|k: int|
            0 <= k < view.len() && (#[trigger] view[k]).0 == kind && view[k].1 == hi by {
            if kind == KIND_V4 {
                assert(view[0].0 == KIND_V4);
                assert(stores_group(s, view[0]));
            } else {
                assert(his@.contains(hi));
                let h = choose|h: int| 0 <= h < his@.len() && his@[h] == hi;
                assert(s.v6[his@[h]] != Set::<u64>::empty());
            }
        }
    }
    rows
}

/// Rows that can all be read add up.
proof fn lemma_rows_read(s: IpSets, of: IpSets, rows: Seq<(u8, u64, Seq<u8>)>)
    requires
        forall|i: int| 0 <= i < rows.len() ==> stores_group(of, #[trigger] rows[i]),
    ensures
        with_rows(s, rows) is Ok,
    decreases rows.len(),
{
    if rows.len() > 0 {
        let rest = rows.drop_last();
        assert forall|i: int| 0 <= i < rest.len() implies stores_group(of, #[trigger] rest[i]) by {
            assert(rest[i] == rows[i]);
        }
        lemma_rows_read(s, of, rest);
        assert(stores_group(of, rows[rows.len() - 1]));
    }
}

/// What a snapshot stores is what is read back: the same addresses, no more and no fewer.
pub proof fn law_snapshot_round_trip(rows: Seq<(u8, u64, Seq<u8>)>, s: IpSets, ip: Ip)
    requires
        is_snapshot(rows, s),
    ensures
        with_rows(no_ips(), rows) is Ok,
        has_ip(with_rows(no_ips(), rows)->Ok_0, ip) == has_ip(s, ip),
{
    lemma_rows_read(no_ips(), s, rows);
    law_rows_are_a_union(no_ips(), rows, ip);
    if has_ip(s, ip) {
        assert(has_group(s, ip.key().0, ip.key().1)) by {
            match ip {
                Ip::V4(n) => {
                    assert(s.v4.contains(n));
                },
                Ip::V6(_) => {
                    assert(low_halves(s.v6, ip.key().1).contains(ip.key().2));
                },
            }
        }
        let i = choose|i: int|
            0 <= i < rows.len() && (#[trigger] rows[i]).0 == ip.key().0 && rows[i].1
                == ip.key().1;
        assert(stores_group(s, rows[i]));
        assert(row_has(rows[i], ip));
    }
    if exists|i: int| 0 <= i < rows.len() && row_has(#[trigger] rows[i], ip) {
        let i = choose|i: int| 0 <= i < rows.len() && row_has(#[trigger] rows[i], ip);
        assert(stores_group(s, rows[i]));
    }
}

/// The number of addresses in rows; each counts once, however many rows hold it.
pub fn unique_count(rows: &Vec<(u8, u64, Vec<u8>)>) -> (r: Result<u64, BitmapError>)
    ensures
        match (r, with_rows(no_ips(), rows_view(rows@))) {
            (Ok(n), Ok(s)) => is_size(ip_keys(s), n as nat),
            (Err(e), Ok(s)) => e == BitmapError::Count && ip_keys(s).len() > u64::MAX,
            (Err(e), Err(x)) => e == x,
            (Ok(_), Err(_)) => false,
        },
{
    let mut all = IpBitmaps::new();
    match or_bitmap_rows(rows, &mut all) {
        Ok(_) => {},
        Err(e) => {
            return Err(e);
        },
    }
    match bitmap_cardinality(&all) {
        Some(n) => Ok(n),
        None => Err(BitmapError::Count),
    }
}

/// The unique addresses of a month: their number and the rows that store them.
pub struct MonthVisitors {
    pub count: u64,
    pub snapshot: Vec<(u8, u64, Vec<u8>)>,
}

/// Adds up the rows of a month's days.
pub fn month_visitors(daily_rows: &Vec<(u8, u64, Vec<u8>)>) -> (r: Result<
    MonthVisitors,
    BitmapError,
>)
    ensures
        match (r, with_rows(no_ips(), rows_view(daily_rows@))) {
            (Ok(m), Ok(s)) => is_size(ip_keys(s), m.count as nat) && is_snapshot(
                rows_view(m.snapshot@),
                s,
            ),
            (Err(e), Ok(s)) => e == BitmapError::Count && ip_keys(s).len() > u64::MAX,
            (Err(e), Err(x)) => e == x,
            (Ok(_), Err(_)) => false,
        },
{
    let mut all = IpBitmaps::new();
    match or_bitmap_rows(daily_rows, &mut all) {
        Ok(_) => {},
        Err(e) => {
            return Err(e);
        },
    }
    match bitmap_cardinality(&all) {
        Some(count) => Ok(MonthVisitors { count, snapshot: bitmap_rows(&all) }),
        None => Err(BitmapError::Count),
    }
}

/// The addresses of all time once a month is over: those that were stored, with those of the month's
/// days. `None` where they are not kept.
pub fn all_time_visitors(
    enabled: bool,
    stored: &Vec<(u8, u64, Vec<u8>)>,
    daily_rows: &Vec<(u8, u64, Vec<u8>)>,
) -> (r: Result<Option<MonthVisitors>, BitmapError>)
    ensures
        !enabled ==> r == Ok::<Option<MonthVisitors>, BitmapError>(None),
        enabled ==> match (r, with_rows(no_ips(), rows_view(stored@) + rows_view(daily_rows@))) {
            (Ok(Some(m)), Ok(s)) => is_size(ip_keys(s), m.count as nat) && is_snapshot(
                rows_view(m.snapshot@),
                s,
            ),
            (Err(e), Ok(s)) => e == BitmapError::Count && ip_keys(s).len() > u64::MAX,
            (Err(e), Err(x)) => e == x,
            _ => false,
        },
{
    if !enabled {
        return Ok(None);
    }
    proof {
        lemma_rows_join(no_ips(), rows_view(stored@), rows_view(daily_rows@));
    }
    let mut all = IpBitmaps::new();
    match or_bitmap_rows(stored, &mut all) {
        Ok(_) => {},
        Err(e) => {
            return Err(e);
        },
    }
    match or_bitmap_rows(daily_rows, &mut all) {
        Ok(_) => {},
        Err(e) => {
            return Err(e);
        },
    }
    match bitmap_cardinality(&all) {
        Some(count) => Ok(Some(MonthVisitors { count, snapshot: bitmap_rows(&all) })),
        None => Err(BitmapError::Count),
    }
}

/// Rows add up in turn.
proof fn lemma_rows_join(s: IpSets, a: Seq<(u8, u64, Seq<u8>)>, b: Seq<(u8, u64, Seq<u8>)>)
    ensures
        with_rows(s, a + b) == match with_rows(s, a) {
            Ok(t) => with_rows(t, b),
            Err(e) => Err(e),
        },
    decreases b.len(),
{
    if b.len() == 0 {
        assert(a + b =~= a);
    } else {
        assert((a + b).drop_last() =~= a + b.drop_last());
        lemma_rows_join(s, a, b.drop_last());
    }
}

/// The addresses of all time after a month are those from before it and those of its days: the
/// rows that are stored then hold an address if and only if one of the rows from before or of the
/// days does.
pub proof fn law_all_time_is_a_union(
    stored: Seq<(u8, u64, Seq<u8>)>,
    daily: Seq<(u8, u64, Seq<u8>)>,
    snapshot: Seq<(u8, u64, Seq<u8>)>,
    ip: Ip,
)
    requires
        with_rows(no_ips(), stored + daily) matches Ok(s) && is_snapshot(snapshot, s),
    ensures
        (exists|i: int| 0 <= i < snapshot.len() && row_has(#[trigger] snapshot[i], ip)) == ((exists|
            i: int,
        | 0 <= i < stored.len() && row_has(#[trigger] stored[i], ip)) || (exists|i: int|
            0 <= i < daily.len() && row_has(#[trigger] daily[i], ip))),
{
    let rows = stored + daily;
    let s = with_rows(no_ips(), rows)->Ok_0;
    law_rows_are_a_union(no_ips(), rows, ip);
    law_snapshot_round_trip(snapshot, s, ip);
    law_rows_are_a_union(no_ips(), snapshot, ip);
    if exists|i: int| 0 <= i < rows.len() && row_has(#[trigger] rows[i], ip) {
        let i = choose|i: int| 0 <= i < rows.len() && row_has(#[trigger] rows[i], ip);
        if i < stored.len() {
            assert(row_has(stored[i], ip));
        } else {
            assert(row_has(daily[i - stored.len()], ip));
        }
    }
    if exists|i: int| 0 <= i < stored.len() && row_has(#[trigger] stored[i], ip) {
        let i = choose|i: int| 0 <= i < stored.len() && row_has(#[trigger] stored[i], ip);
        assert(row_has(rows[i], ip));
    }
    if exists|i: int| 0 <= i < daily.len() && row_has(#[trigger] daily[i], ip) {
        let i = choose|i: int| 0 <= i < daily.len() && row_has(#[trigger] daily[i], ip);
        assert(row_has(rows[stored.len() + i], ip));
    }
}

} // verus!
