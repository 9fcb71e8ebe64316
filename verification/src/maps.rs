//! Hash maps of the `ahash` crate.
//!
//! `AHashMap` is the standard hash map under another hasher, which it dereferences to. What a map
//! holds has a name here, and each operation says what it does to it. The order in which a map
//! lists its entries is left open: a listing holds every entry once.

use std::sync::Arc;

use ahash::AHashMap;
use roaring::RoaringTreemap;
use vstd::prelude::*;

use crate::accumulators::HourlyStats;
use crate::bitmaps::{v6_set, IpBitmaps, IpSets};

verus! {

#[verifier::external_type_specification]
#[verifier::external_body]
#[verifier::reject_recursive_types(K)]
#[verifier::reject_recursive_types(V)]
#[verifier::reject_recursive_types(S)]
pub struct ExAHashMap<K, V, S>(ahash::AHashMap<K, V, S>);

#[verifier::external_type_specification]
#[verifier::external_body]
pub struct ExRandomState(ahash::RandomState);

// ── Listings ────────────────────────────────────────────────────────────────

/// `l` holds every entry of `m` once, in some order.
pub open spec fn is_listing<K, V>(l: Seq<(K, V)>, m: Map<K, V>) -> bool {
    &&& m.dom().finite()
    &&& l.len() == m.dom().len()
    &&& forall|i: int|
        0 <= i < l.len() ==> m.dom().contains((#[trigger] l[i]).0) && m[l[i].0] == l[i].1
    &&& forall|i: int, j: int|
        0 <= i < l.len() && 0 <= j < l.len() && i != j ==> (#[trigger] l[i]).0 != (
        #[trigger] l[j]).0
    &&& forall|k: K| #[trigger]
        m.dom().contains(k) ==> exists|i: int| 0 <= i < l.len() && (#[trigger] l[i]).0 == k
}

/// `s` has `n` members.
pub open spec fn is_size<K>(s: Set<K>, n: nat) -> bool {
    s.finite() && s.len() == n
}

/// Entries with a text as key, by what the text holds.
pub open spec fn text_entries<V>(l: Seq<(String, V)>) -> Seq<(Seq<char>, V)> {
    Seq::new(l.len(), |i: int| (l[i].0@, l[i].1))
}

/// What is known of a key: its value, if the map holds it.
pub open spec fn entry<K, V>(m: Map<K, V>, k: K) -> Option<V> {
    if m.dom().contains(k) {
        Some(m[k])
    } else {
        None
    }
}

// ── Text to a pair of numbers ─────────────────────────────────────────────────

/// Hits and bandwidth per text.
pub type PairMap = AHashMap<String, (u64, u64)>;

/// What such a map holds.
pub uninterp spec fn pairs(m: AHashMap<String, (u64, u64)>) -> Map<Seq<char>, (u64, u64)>;

/// `AHashMap::new`: an empty map.
#[verifier::external_body]
pub(crate) fn pairs_new() -> (m: AHashMap<String, (u64, u64)>)
    ensures
        forall|k: Seq<char>| !pairs(m).dom().contains(k),
{
    AHashMap::new()
}

/// `AHashMap::get`: the value under a key, if the map holds the key.
#[verifier::external_body]
pub(crate) fn pairs_get(m: &AHashMap<String, (u64, u64)>, k: &str) -> (r: Option<(u64, u64)>)
    ensures
        r == entry(pairs(*m), k@),
{
    m.get(k).copied()
}

/// `AHashMap::insert`: the value stands under the key, in place of an earlier one.
#[verifier::external_body]
pub(crate) fn pairs_put(m: &mut AHashMap<String, (u64, u64)>, k: &str, v: (u64, u64))
    ensures
        pairs(*final(m)) == pairs(*old(m)).insert(k@, v),
{
    m.insert(k.to_string(), v);
}

/// `AHashMap::remove`: the map without the key.
#[verifier::external_body]
pub(crate) fn pairs_remove(m: &mut AHashMap<String, (u64, u64)>, k: &str)
    ensures
        pairs(*final(m)) == pairs(*old(m)).remove(k@),
{
    m.remove(k);
}

/// `HashMap::len`: the number of keys.
#[verifier::external_body]
pub(crate) fn pairs_len(m: &AHashMap<String, (u64, u64)>) -> (r: usize)
    ensures
        is_size(pairs(*m).dom(), r as nat),
{
    m.len()
}

/// `HashMap::iter`: the entries of the map, each once.
#[verifier::external_body]
pub(crate) fn pairs_list(m: &AHashMap<String, (u64, u64)>) -> (r: Vec<(String, (u64, u64))>)
    ensures
        is_listing(text_entries(r@), pairs(*m)),
{
    m.iter().map(|(k, v)| (k.clone(), *v)).collect()
}

// ── Text to a number ──────────────────────────────────────────────────────────

/// Hits per text.
pub type CountMap = AHashMap<String, u64>;

/// What such a map holds.
pub uninterp spec fn counts(m: AHashMap<String, u64>) -> Map<Seq<char>, u64>;

/// `AHashMap::new`: an empty map.
#[verifier::external_body]
pub(crate) fn counts_new() -> (m: AHashMap<String, u64>)
    ensures
        forall|k: Seq<char>| !counts(m).dom().contains(k),
{
    AHashMap::new()
}

/// `AHashMap::get`: the value under a key, if the map holds the key.
#[verifier::external_body]
pub(crate) fn counts_get(m: &AHashMap<String, u64>, k: &str) -> (r: Option<u64>)
    ensures
        r == entry(counts(*m), k@),
{
    m.get(k).copied()
}

/// `AHashMap::insert`: the value stands under the key, in place of an earlier one.
#[verifier::external_body]
pub(crate) fn counts_put(m: &mut AHashMap<String, u64>, k: &str, v: u64)
    ensures
        counts(*final(m)) == counts(*old(m)).insert(k@, v),
{
    m.insert(k.to_string(), v);
}

/// `AHashMap::remove`: the map without the key.
#[verifier::external_body]
pub(crate) fn counts_remove(m: &mut AHashMap<String, u64>, k: &str)
    ensures
        counts(*final(m)) == counts(*old(m)).remove(k@),
{
    m.remove(k);
}

/// `HashMap::len`: the number of keys.
#[verifier::external_body]
pub(crate) fn counts_len(m: &AHashMap<String, u64>) -> (r: usize)
    ensures
        is_size(counts(*m).dom(), r as nat),
{
    m.len()
}

/// `HashMap::iter`: the entries of the map, each once.
#[verifier::external_body]
pub(crate) fn counts_list(m: &AHashMap<String, u64>) -> (r: Vec<(String, u64)>)
    ensures
        is_listing(text_entries(r@), counts(*m)),
{
    m.iter().map(|(k, v)| (k.clone(), *v)).collect()
}

// ── Status code to a number ───────────────────────────────────────────────────

/// Hits per status code.
pub type CodeMap = AHashMap<u16, u64>;

/// What such a map holds.
pub uninterp spec fn codes(m: AHashMap<u16, u64>) -> Map<u16, u64>;

/// `AHashMap::new`: an empty map.
#[verifier::external_body]
pub(crate) fn codes_new() -> (m: AHashMap<u16, u64>)
    ensures
        forall|k: u16| !codes(m).dom().contains(k),
{
    AHashMap::new()
}

/// `AHashMap::get`: the value under a key, if the map holds the key.
#[verifier::external_body]
pub(crate) fn codes_get(m: &AHashMap<u16, u64>, k: u16) -> (r: Option<u64>)
    ensures
        r == entry(codes(*m), k),
{
    m.get(&k).copied()
}

/// `AHashMap::insert`: the value stands under the key, in place of an earlier one.
#[verifier::external_body]
pub(crate) fn codes_put(m: &mut AHashMap<u16, u64>, k: u16, v: u64)
    ensures
        codes(*final(m)) == codes(*old(m)).insert(k, v),
{
    m.insert(k, v);
}

/// `HashMap::iter`: the entries of the map, each once.
#[verifier::external_body]
pub(crate) fn codes_list(m: &AHashMap<u16, u64>) -> (r: Vec<(u16, u64)>)
    ensures
        is_listing(r@, codes(*m)),
{
    m.iter().map(|(k, v)| (*k, *v)).collect()
}

/// The key of a visitor: address kind, high and low part, and the text of a host that is no address.
pub open spec fn visitor(k: (u8, u64, u64, String)) -> (u8, u64, u64, Seq<char>) {
    (k.0, k.1, k.2, k.3@)
}

/// Entries with a visitor as key.
pub open spec fn visitor_entries<V>(
    l: Seq<((u8, u64, u64, String), V)>,
) -> Seq<((u8, u64, u64, Seq<char>), V)> {
    Seq::new(l.len(), |i: int| (visitor(l[i].0), l[i].1))
}

// ── Visitor to a time ─────────────────────────────────────────────────────────

/// The time at which each visitor was last seen.
pub type VisitMap = AHashMap<(u8, u64, u64, String), i64>;

/// What such a map holds.
pub uninterp spec fn visits(m: AHashMap<(u8, u64, u64, String), i64>) -> Map<(u8, u64, u64, Seq<char>), i64>;

/// `AHashMap::new`: an empty map.
#[verifier::external_body]
pub(crate) fn visits_new() -> (m: AHashMap<(u8, u64, u64, String), i64>)
    ensures
        forall|k: (u8, u64, u64, Seq<char>)| !visits(m).dom().contains(k),
{
    AHashMap::new()
}

/// `AHashMap::get`: the value under a key, if the map holds the key.
#[verifier::external_body]
pub(crate) fn visits_get(m: &AHashMap<(u8, u64, u64, String), i64>, k: &(u8, u64, u64, String)) -> (r: Option<i64>)
    ensures
        r == entry(visits(*m), visitor(*k)),
{
    m.get(k).copied()
}

/// `AHashMap::insert`: the value stands under the key, in place of an earlier one.
#[verifier::external_body]
pub(crate) fn visits_put(m: &mut AHashMap<(u8, u64, u64, String), i64>, k: &(u8, u64, u64, String), v: i64)
    ensures
        visits(*final(m)) == visits(*old(m)).insert(visitor(*k), v),
{
    m.insert(k.clone(), v);
}

/// `AHashMap::remove`: the map without the key.
#[verifier::external_body]
pub(crate) fn visits_remove(m: &mut AHashMap<(u8, u64, u64, String), i64>, k: &(u8, u64, u64, String))
    ensures
        visits(*final(m)) == visits(*old(m)).remove(visitor(*k)),
{
    m.remove(k);
}

/// `AHashMap::clone`: a map with the same entries.
#[verifier::external_body]
pub(crate) fn visits_clone(m: &AHashMap<(u8, u64, u64, String), i64>) -> (r: AHashMap<(u8, u64, u64, String), i64>)
    ensures
        visits(r) == visits(*m),
{
    m.clone()
}

/// `HashMap::iter`: the entries of the map, each once.
#[verifier::external_body]
pub(crate) fn visits_list(m: &AHashMap<(u8, u64, u64, String), i64>) -> (r: Vec<((u8, u64, u64, String), i64)>)
    ensures
        is_listing(visitor_entries(r@), visits(*m)),
{
    m.iter().map(|(k, v)| (k.clone(), *v)).collect()
}

/// Entries with a date and an hour as key.
pub open spec fn hour_entries<V>(l: Seq<((String, u8), V)>) -> Seq<((Seq<char>, u8), V)> {
    Seq::new(l.len(), |i: int| ((l[i].0.0@, l[i].0.1), l[i].1))
}

// ── Date and hour to traffic ──────────────────────────────────────────────────

/// Traffic per date and hour.
pub type HourMap = AHashMap<(String, u8), HourlyStats>;

/// What such a map holds.
pub uninterp spec fn hours(m: AHashMap<(String, u8), HourlyStats>) -> Map<(Seq<char>, u8), HourlyStats>;

/// `AHashMap::new`: an empty map.
#[verifier::external_body]
pub(crate) fn hours_new() -> (m: AHashMap<(String, u8), HourlyStats>)
    ensures
        forall|k: (Seq<char>, u8)| !hours(m).dom().contains(k),
{
    AHashMap::new()
}

/// `AHashMap::get`: the value under a key, if the map holds the key.
#[verifier::external_body]
pub(crate) fn hours_get(m: &AHashMap<(String, u8), HourlyStats>, k: &(String, u8)) -> (r: Option<HourlyStats>)
    ensures
        r == entry(hours(*m), (k.0@, k.1)),
{
    m.get(k).copied()
}

/// `AHashMap::insert`: the value stands under the key, in place of an earlier one.
#[verifier::external_body]
pub(crate) fn hours_put(m: &mut AHashMap<(String, u8), HourlyStats>, k: &(String, u8), v: HourlyStats)
    ensures
        hours(*final(m)) == hours(*old(m)).insert((k.0@, k.1), v),
{
    m.insert(k.clone(), v);
}

/// `HashMap::len`: the number of keys.
#[verifier::external_body]
pub(crate) fn hours_len(m: &AHashMap<(String, u8), HourlyStats>) -> (r: usize)
    ensures
        is_size(hours(*m).dom(), r as nat),
{
    m.len()
}

/// `HashMap::iter`: the entries of the map, each once.
#[verifier::external_body]
pub(crate) fn hours_list(m: &AHashMap<(String, u8), HourlyStats>) -> (r: Vec<((String, u8), HourlyStats)>)
    ensures
        is_listing(hour_entries(r@), hours(*m)),
{
    m.iter().map(|(k, v)| (k.clone(), *v)).collect()
}

/// Two shared texts by what they hold.
pub open spec fn texts(v: (Arc<String>, Arc<String>)) -> (Seq<char>, Seq<char>) {
    ((*v.0)@, (*v.1)@)
}

/// Two shared texts by what they hold, where there are any.
pub open spec fn opt_texts(v: Option<(Arc<String>, Arc<String>)>) -> Option<
    (Seq<char>, Seq<char>),
> {
    match v {
        Some(t) => Some(texts(t)),
        None => None,
    }
}

// ── Time key to period names ──────────────────────────────────────────────────

/// The date and the month of an hour.
pub type PeriodMap = AHashMap<u64, (Arc<String>, Arc<String>)>;

/// What such a map holds.
pub uninterp spec fn periods(m: AHashMap<u64, (Arc<String>, Arc<String>)>) -> Map<u64, (Seq<char>, Seq<char>)>;

/// `AHashMap::new`: an empty map.
#[verifier::external_body]
pub(crate) fn periods_new() -> (m: AHashMap<u64, (Arc<String>, Arc<String>)>)
    ensures
        forall|k: u64| !periods(m).dom().contains(k),
{
    AHashMap::new()
}

/// `AHashMap::get`: the value under a key, if the map holds the key.
#[verifier::external_body]
pub(crate) fn periods_get(m: &AHashMap<u64, (Arc<String>, Arc<String>)>, k: u64) -> (r: Option<(Arc<String>, Arc<String>)>)
    ensures
        opt_texts(r) == entry(periods(*m), k),
{
    m.get(&k).cloned()
}

/// `AHashMap::insert`: the value stands under the key, in place of an earlier one.
#[verifier::external_body]
pub(crate) fn periods_put(m: &mut AHashMap<u64, (Arc<String>, Arc<String>)>, k: u64, v: (Arc<String>, Arc<String>))
    ensures
        periods(*final(m)) == periods(*old(m)).insert(k, texts(v)),
{
    m.insert(k, v);
}

// ── Address to country ────────────────────────────────────────────────────────

/// The country code and name of an address.
pub type CountryMap = AHashMap<(u8, u64, u64), (Arc<String>, Arc<String>)>;

/// What such a map holds.
pub uninterp spec fn countries(m: AHashMap<(u8, u64, u64), (Arc<String>, Arc<String>)>) -> Map<(u8, u64, u64), (Seq<char>, Seq<char>)>;

/// `AHashMap::new`: an empty map.
#[verifier::external_body]
pub(crate) fn countries_new() -> (m: AHashMap<(u8, u64, u64), (Arc<String>, Arc<String>)>)
    ensures
        forall|k: (u8, u64, u64)| !countries(m).dom().contains(k),
{
    AHashMap::new()
}

/// `AHashMap::get`: the value under a key, if the map holds the key.
#[verifier::external_body]
pub(crate) fn countries_get(m: &AHashMap<(u8, u64, u64), (Arc<String>, Arc<String>)>, k: (u8, u64, u64)) -> (r: Option<(Arc<String>, Arc<String>)>)
    ensures
        opt_texts(r) == entry(countries(*m), k),
{
    m.get(&k).cloned()
}

/// `AHashMap::insert`: the value stands under the key, in place of an earlier one.
#[verifier::external_body]
pub(crate) fn countries_put(m: &mut AHashMap<(u8, u64, u64), (Arc<String>, Arc<String>)>, k: (u8, u64, u64), v: (Arc<String>, Arc<String>))
    ensures
        countries(*final(m)) == countries(*old(m)).insert(k, texts(v)),
{
    m.insert(k, v);
}

/// A shared text by what it holds, where there is one.
pub open spec fn opt_text(v: Option<Arc<String>>) -> Option<Seq<char>> {
    match v {
        Some(t) => Some((*t)@),
        None => None,
    }
}

// ── Text to shared text ───────────────────────────────────────────────────────

/// The host of a URL.
pub type HostMap = AHashMap<String, Arc<String>>;

/// What such a map holds.
pub uninterp spec fn hosts(m: AHashMap<String, Arc<String>>) -> Map<Seq<char>, Seq<char>>;

/// `AHashMap::new`: an empty map.
#[verifier::external_body]
pub(crate) fn hosts_new() -> (m: AHashMap<String, Arc<String>>)
    ensures
        forall|k: Seq<char>| !hosts(m).dom().contains(k),
{
    AHashMap::new()
}

/// `AHashMap::get`: the value under a key, if the map holds the key.
#[verifier::external_body]
pub(crate) fn hosts_get(m: &AHashMap<String, Arc<String>>, k: &str) -> (r: Option<Arc<String>>)
    ensures
        opt_text(r) == entry(hosts(*m), k@),
{
    m.get(k).cloned()
}

/// `AHashMap::insert`: the value stands under the key, in place of an earlier one.
#[verifier::external_body]
pub(crate) fn hosts_put(m: &mut AHashMap<String, Arc<String>>, k: &str, v: Arc<String>)
    ensures
        hosts(*final(m)) == hosts(*old(m)).insert(k@, (*v)@),
{
    m.insert(k.to_string(), v);
}

/// `l` holds every member of `s` once, in some order.
pub open spec fn is_key_listing<K>(l: Seq<K>, s: Set<K>) -> bool {
    &&& s.finite()
    &&& l.len() == s.len()
    &&& l.no_duplicates()
    &&& forall|k: K| s.contains(k) <==> #[trigger] l.contains(k)
}

/// Texts by what they hold.
pub open spec fn text_keys(l: Seq<String>) -> Seq<Seq<char>> {
    Seq::new(l.len(), |i: int| l[i]@)
}

/// The addresses of bitmaps, where there are any.
pub open spec fn opt_sets(v: Option<IpBitmaps>) -> Option<IpSets> {
    match v {
        Some(b) => Some(b@),
        None => None,
    }
}

/// The addresses of bitmaps, where there are any.
pub open spec fn opt_ref_sets(v: Option<&IpBitmaps>) -> Option<IpSets> {
    match v {
        Some(b) => Some(b@),
        None => None,
    }
}

// ── Date to addresses ─────────────────────────────────────────────────────────

/// The addresses seen on each date.
pub type DayMap = AHashMap<String, IpBitmaps>;

/// What such a map holds.
pub uninterp spec fn days(m: AHashMap<String, IpBitmaps>) -> Map<Seq<char>, IpSets>;

/// `AHashMap::new`: an empty map.
#[verifier::external_body]
pub(crate) fn days_new() -> (m: AHashMap<String, IpBitmaps>)
    ensures
        forall|k: Seq<char>| !days(m).dom().contains(k),
{
    AHashMap::new()
}

/// `AHashMap::insert`: the value stands under the key, in place of an earlier one.
#[verifier::external_body]
pub(crate) fn days_put(m: &mut AHashMap<String, IpBitmaps>, k: &str, v: IpBitmaps)
    ensures
        days(*final(m)) == days(*old(m)).insert(k@, v@),
{
    m.insert(k.to_string(), v);
}

/// `AHashMap::remove`: the value under a key, which leaves the map with the key.
#[verifier::external_body]
pub(crate) fn days_take(m: &mut AHashMap<String, IpBitmaps>, k: &str) -> (r: Option<IpBitmaps>)
    ensures
        opt_sets(r) == entry(days(*old(m)), k@),
        days(*final(m)) == days(*old(m)).remove(k@),
{
    m.remove(k)
}

/// `AHashMap::get`: the value under a key, if the map holds the key.
#[verifier::external_body]
pub(crate) fn days_get<'a>(m: &'a AHashMap<String, IpBitmaps>, k: &str) -> (r: Option<&'a IpBitmaps>)
    ensures
        opt_ref_sets(r) == entry(days(*m), k@),
{
    m.get(k)
}

/// `HashMap::keys`: the keys of the map, each once.
#[verifier::external_body]
pub(crate) fn days_keys(m: &AHashMap<String, IpBitmaps>) -> (r: Vec<String>)
    ensures
        is_key_listing(text_keys(r@), days(*m).dom()),
{
    m.keys().cloned().collect()
}

/// The members of a treemap, where there is one.
pub open spec fn opt_tree(v: Option<RoaringTreemap>) -> Option<Set<u64>> {
    match v {
        Some(t) => Some(v6_set(t)),
        None => None,
    }
}

/// The members of a treemap, where there is one.
pub open spec fn opt_ref_tree(v: Option<&RoaringTreemap>) -> Option<Set<u64>> {
    match v {
        Some(t) => Some(v6_set(*t)),
        None => None,
    }
}

// ── High half to low halves ───────────────────────────────────────────────────

/// The low halves of IPv6 addresses per high half.
pub type TreeMap6 = AHashMap<u64, RoaringTreemap>;

/// What such a map holds.
pub uninterp spec fn trees(m: AHashMap<u64, RoaringTreemap>) -> Map<u64, Set<u64>>;

/// `AHashMap::new`: an empty map.
#[verifier::external_body]
pub(crate) fn trees_new() -> (m: AHashMap<u64, RoaringTreemap>)
    ensures
        forall|k: u64| !trees(m).dom().contains(k),
{
    AHashMap::new()
}

/// `AHashMap::insert`: the value stands under the key, in place of an earlier one.
#[verifier::external_body]
pub(crate) fn trees_put(m: &mut AHashMap<u64, RoaringTreemap>, k: u64, v: RoaringTreemap)
    ensures
        trees(*final(m)) == trees(*old(m)).insert(k, v6_set(v)),
{
    m.insert(k, v);
}

/// `AHashMap::remove`: the value under a key, which leaves the map with the key.
#[verifier::external_body]
pub(crate) fn trees_take(m: &mut AHashMap<u64, RoaringTreemap>, k: u64) -> (r: Option<RoaringTreemap>)
    ensures
        opt_tree(r) == entry(trees(*old(m)), k),
        trees(*final(m)) == trees(*old(m)).remove(k),
{
    m.remove(&k)
}

/// `AHashMap::get`: the value under a key, if the map holds the key.
#[verifier::external_body]
pub(crate) fn trees_get<'a>(m: &'a AHashMap<u64, RoaringTreemap>, k: u64) -> (r: Option<&'a RoaringTreemap>)
    ensures
        opt_ref_tree(r) == entry(trees(*m), k),
{
    m.get(&k)
}

/// `HashMap::keys`: the keys of the map, each once.
#[verifier::external_body]
pub(crate) fn trees_keys(m: &AHashMap<u64, RoaringTreemap>) -> (r: Vec<u64>)
    ensures
        is_key_listing(r@, trees(*m).dom()),
{
    m.keys().copied().collect()
}

} // verus!
