//! Sets of addresses in the bitmaps of the `roaring` crate.

use roaring::{RoaringBitmap, RoaringTreemap};
use vstd::prelude::*;

use crate::ip::Ip;
use crate::maps::{is_size, trees, trees_new, trees_put, trees_take, TreeMap6};

verus! {

#[verifier::external_type_specification]
#[verifier::external_body]
pub struct ExRoaringBitmap(roaring::RoaringBitmap);

#[verifier::external_type_specification]
#[verifier::external_body]
pub struct ExRoaringTreemap(roaring::RoaringTreemap);

// ── IPv4 bitmaps ────────────────────────────────────────────────────────────

/// The members of a bitmap.
pub uninterp spec fn v4_set(b: RoaringBitmap) -> Set<u32>;

/// What `RoaringBitmap::deserialize_from` reads from bytes: the members of a bitmap, or nothing.
pub uninterp spec fn v4_decoded(bytes: Seq<u8>) -> Option<Set<u32>>;

/// `RoaringBitmap::new`: a bitmap without members.
#[verifier::external_body]
pub(crate) fn v4_new() -> (b: RoaringBitmap)
    ensures
        v4_set(b) == Set::<u32>::empty(),
{
    RoaringBitmap::new()
}

/// `RoaringBitmap::insert`: the value becomes a member.
#[verifier::external_body]
pub(crate) fn v4_insert(b: &mut RoaringBitmap, value: u32)
    ensures
        v4_set(*final(b)) == v4_set(*old(b)).insert(value),
{
    b.insert(value);
}

/// `|=` of two bitmaps: the members of either.
#[verifier::external_body]
pub(crate) fn v4_union(b: &mut RoaringBitmap, other: &RoaringBitmap)
    ensures
        v4_set(*final(b)) == v4_set(*old(b)).union(v4_set(*other)),
{
    *b |= other;
}

/// `RoaringBitmap::len`: the number of members.
#[verifier::external_body]
pub(crate) fn v4_len(b: &RoaringBitmap) -> (n: u64)
    ensures
        is_size(v4_set(*b), n as nat),
{
    b.len()
}

/// `RoaringBitmap::is_empty`: whether there are no members.
#[verifier::external_body]
pub(crate) fn v4_is_empty(b: &RoaringBitmap) -> (r: bool)
    ensures
        r == (v4_set(*b) == Set::<u32>::empty()),
{
    b.is_empty()
}

/// `RoaringBitmap::serialize_into` a vector: bytes that read back as the same members. Nothing is
/// said of the bytes themselves: they depend on how the bitmap came about.
#[verifier::external_body]
pub(crate) fn v4_serialize(b: &RoaringBitmap) -> (r: Vec<u8>)
    ensures
        v4_decoded(r@) == Some(v4_set(*b)),
{
    let mut buf = Vec::new();
    b.serialize_into(&mut buf).expect("a vector takes every byte");
    buf
}

/// `RoaringBitmap::deserialize_from` a byte slice.
#[verifier::external_body]
pub(crate) fn v4_deserialize(blob: &[u8]) -> (r: Option<RoaringBitmap>)
    ensures
        match r {
            Some(b) => v4_decoded(blob@) == Some(v4_set(b)),
            None => v4_decoded(blob@) is None,
        },
{
    RoaringBitmap::deserialize_from(blob).ok()
}

// ── IPv6 treemaps ───────────────────────────────────────────────────────────

/// The members of a treemap.
pub uninterp spec fn v6_set(t: RoaringTreemap) -> Set<u64>;

/// What `RoaringTreemap::deserialize_from` reads from bytes: the members of a treemap, or nothing.
pub uninterp spec fn v6_decoded(bytes: Seq<u8>) -> Option<Set<u64>>;

/// `RoaringTreemap::new`: a treemap without members.
#[verifier::external_body]
pub(crate) fn v6_new() -> (t: RoaringTreemap)
    ensures
        v6_set(t) == Set::<u64>::empty(),
{
    RoaringTreemap::new()
}

/// `RoaringTreemap::insert`: the value becomes a member.
#[verifier::external_body]
pub(crate) fn v6_insert(t: &mut RoaringTreemap, value: u64)
    ensures
        v6_set(*final(t)) == v6_set(*old(t)).insert(value),
{
    t.insert(value);
}

/// `|=` of two treemaps: the members of either.
#[verifier::external_body]
pub(crate) fn v6_union(t: &mut RoaringTreemap, other: &RoaringTreemap)
    ensures
        v6_set(*final(t)) == v6_set(*old(t)).union(v6_set(*other)),
{
    *t |= other;
}

/// `RoaringTreemap::len`: the number of members. It counts in 64 bits, so the treemap that holds
/// every number is left out.
#[verifier::external_body]
pub(crate) fn v6_len(t: &RoaringTreemap) -> (n: u64)
    requires
        v6_set(*t).len() <= u64::MAX,
    ensures
        is_size(v6_set(*t), n as nat),
{
    t.len()
}

/// `RoaringTreemap::contains`: whether a value is a member.
#[verifier::external_body]
pub(crate) fn v6_contains(t: &RoaringTreemap, value: u64) -> (r: bool)
    ensures
        r == v6_set(*t).contains(value),
{
    t.contains(value)
}

/// `RoaringTreemap::is_empty`: whether there are no members.
#[verifier::external_body]
pub(crate) fn v6_is_empty(t: &RoaringTreemap) -> (r: bool)
    ensures
        r == (v6_set(*t) == Set::<u64>::empty()),
{
    t.is_empty()
}

/// `RoaringTreemap::serialize_into` a vector: bytes that read back as the same members. Nothing is
/// said of the bytes themselves: they depend on how the treemap came about.
#[verifier::external_body]
pub(crate) fn v6_serialize(t: &RoaringTreemap) -> (r: Vec<u8>)
    ensures
        v6_decoded(r@) == Some(v6_set(*t)),
{
    let mut buf = Vec::new();
    t.serialize_into(&mut buf).expect("a vector takes every byte");
    buf
}

/// `RoaringTreemap::deserialize_from` a byte slice.
#[verifier::external_body]
pub(crate) fn v6_deserialize(blob: &[u8]) -> (r: Option<RoaringTreemap>)
    ensures
        match r {
            Some(t) => v6_decoded(blob@) == Some(v6_set(t)),
            None => v6_decoded(blob@) is None,
        },
{
    RoaringTreemap::deserialize_from(blob).ok()
}

// ── Addresses of both kinds ─────────────────────────────────────────────────

/// Sets of addresses of both kinds; IPv6 addresses by their high half.
#[verifier::ext_equal]
pub struct IpSets {
    pub v4: Set<u32>,
    pub v6: Map<u64, Set<u64>>,
}

/// The addresses of one day: IPv4 in one bitmap, IPv6 in one treemap per high half.
pub struct IpBitmaps {
    pub v4: RoaringBitmap,
    pub v6: TreeMap6,
}

/// No addresses.
pub open spec fn no_ips() -> IpSets {
    IpSets { v4: Set::empty(), v6: Map::empty() }
}

/// The low halves under a high half; none where the map lacks it.
pub open spec fn low_halves(v6: Map<u64, Set<u64>>, hi: u64) -> Set<u64> {
    if v6.dom().contains(hi) {
        v6[hi]
    } else {
        Set::empty()
    }
}

/// The sets with one more address.
pub open spec fn with_ip(s: IpSets, ip: Ip) -> IpSets {
    match ip {
        Ip::V4(n) => IpSets { v4: s.v4.insert(n), v6: s.v6 },
        Ip::V6(_) => {
            let hi = ip.key().1;
            IpSets { v4: s.v4, v6: s.v6.insert(hi, low_halves(s.v6, hi).insert(ip.key().2)) }
        },
    }
}

/// An address is in the sets.
pub open spec fn has_ip(s: IpSets, ip: Ip) -> bool {
    match ip {
        Ip::V4(n) => s.v4.contains(n),
        Ip::V6(_) => low_halves(s.v6, ip.key().1).contains(ip.key().2),
    }
}

/// The key columns of the addresses in the sets.
pub open spec fn ip_keys(s: IpSets) -> Set<(u8, u64, u64)> {
    Set::new(
        |k: (u8, u64, u64)|
            (k.0 == 1 && k.1 == 0 && k.2 <= u32::MAX && s.v4.contains(k.2 as u32)) || (k.0 == 2
                && low_halves(s.v6, k.1).contains(k.2)),
    )
}

/// The keys of the addresses in the sets are those of which `has_ip` holds.
pub proof fn law_ip_keys(s: IpSets, ip: Ip)
    ensures
        ip_keys(s).contains(ip.key()) == has_ip(s, ip),
{
}

impl IpBitmaps {
    pub open spec fn view(&self) -> IpSets {
        IpSets { v4: v4_set(self.v4), v6: trees(self.v6) }
    }

    /// Bitmaps without addresses.
    pub fn new() -> (r: IpBitmaps)
        ensures
            r@ == no_ips(),
    {
        let r = IpBitmaps { v4: v4_new(), v6: trees_new() };
        assert(r@ =~= no_ips());
        r
    }

    /// Adds an address.
    pub fn insert(&mut self, ip: Ip)
        ensures
            final(self)@ == with_ip(old(self)@, ip),
    {
        match ip {
            Ip::V4(n) => v4_insert(&mut self.v4, n),
            Ip::V6(_) => {
                let hi: u64 = ip.hi();
                let lo: u64 = ip.lo();
                let mut t = match trees_take(&mut self.v6, hi) {
                    Some(t) => t,
                    None => v6_new(),
                };
                v6_insert(&mut t, lo);
                trees_put(&mut self.v6, hi, t);
                assert(trees(self.v6) =~= trees(old(self).v6).insert(
                    hi,
                    low_halves(trees(old(self).v6), hi).insert(lo),
                ));
            },
        }
    }
}

/// Adding an address adds that address and nothing else; adding it again changes nothing that is
/// asked of the sets.
pub proof fn law_insert_ip(s: IpSets, ip: Ip, other: Ip)
    ensures
        has_ip(with_ip(s, ip), other) == (has_ip(s, other) || other == ip),
        with_ip(with_ip(s, ip), ip) == with_ip(s, ip),
{
    if ip is V6 && other is V6 && ip.key() == other.key() {
        crate::ip::law_key_identifies(ip, other);
    }
    assert(with_ip(with_ip(s, ip), ip) =~= with_ip(s, ip)) by {
        match ip {
            Ip::V4(n) => {
                assert(s.v4.insert(n).insert(n) =~= s.v4.insert(n));
            },
            Ip::V6(_) => {
                let hi = ip.key().1;
                let lo = ip.key().2;
                let t = low_halves(s.v6, hi);
                assert(t.insert(lo).insert(lo) =~= t.insert(lo));
                assert(s.v6.insert(hi, t.insert(lo)).insert(hi, t.insert(lo)) =~= s.v6.insert(
                    hi,
                    t.insert(lo),
                ));
            },
        }
    }
}

} // verus!
