//! Rows of the tables: what is added, culled and pruned.

use webstat::accumulators::HourlyStats;
use webstat::aggregator::aggregation::merge_max;
use webstat::bitmaps::IpBitmaps;
use webstat::database::ips::{
    all_time_visitors, bitmap_cardinality, bitmap_rows, deserialize_v4, deserialize_v6, month_visitors,
    or_bitmap_rows, unique_count, BitmapError, KIND_V4, KIND_V6,
};
use webstat::database::ranks::{
    cull_bucket_urls, cull_counts, cull_error_urls, cull_pairs, cull_urls, last_shown,
    prune_counts, prune_error_urls, prune_pairs, prune_urls, ErrUrlStats, UrlStats,
};
use webstat::database::writer::{
    add_count, add_failures, add_hour, add_pair, add_url, day_groups, encode_host_key,
    flush_codes, flush_counts, flush_hours, flush_pairs, flushed_days, host_rows, last_log_ts,
    merge_country_code, merge_country_name, merge_day, merge_last_seen, method_rows,
    protocol_rows, COLUMN_MAX,
};
use webstat::geo::Geo;
use webstat::ip::Ip;
use webstat::method_proto::{
    METHOD_COUNT, METHOD_GET, METHOD_POST, PROTO_1_1, PROTO_2_0, PROTO_COUNT,
};

// ── Slots ─────────────────────────────────────────────────────────────────

/// A table of counts by name.
type Counts = Vec<(String, u64)>;

fn add_rows(table: &mut Counts, rows: &[(&'static str, u64)]) {
    for (name, n) in rows {
        let at = table.iter().position(|(k, _)| k == name);
        let stored = at.map(|i| table[i].1);
        let merged = add_count(stored, *n).unwrap();
        match at {
            Some(i) => table[i].1 = merged,
            None => table.push((name.to_string(), merged)),
        }
    }
}

fn hits(table: &Counts, name: &str) -> u64 {
    table.iter().find(|(k, _)| k == name).expect("row").1
}

#[test]
fn method_counts_stored_with_correct_names_and_values() {
    let mut db = Counts::new();

    let mut counts = vec![0u64; METHOD_COUNT];
    counts[METHOD_GET] = 100;
    counts[METHOD_POST] = 42;
    add_rows(&mut db, &method_rows(&counts));

    assert_eq!(hits(&db, "GET"), 100);
    assert_eq!(hits(&db, "POST"), 42);
}

#[test]
fn method_counts_zero_slots_are_not_stored() {
    let mut db = Counts::new();

    let mut counts = vec![0u64; METHOD_COUNT];
    counts[METHOD_GET] = 5;
    add_rows(&mut db, &method_rows(&counts));

    assert_eq!(db.len(), 1, "only non-zero slots should be stored");
}

#[test]
fn method_counts_accumulate_across_flushes() {
    let mut db = Counts::new();

    let mut c1 = vec![0u64; METHOD_COUNT];
    c1[METHOD_GET] = 100;
    add_rows(&mut db, &method_rows(&c1));

    let mut c2 = vec![0u64; METHOD_COUNT];
    c2[METHOD_GET] = 50;
    c2[METHOD_POST] = 10;
    add_rows(&mut db, &method_rows(&c2));

    assert_eq!(hits(&db, "GET"), 150);
    assert_eq!(hits(&db, "POST"), 10);
}

#[test]
fn protocol_counts_stored_with_version_strings_not_http_prefix() {
    let mut db = Counts::new();

    let mut counts = vec![0u64; PROTO_COUNT];
    counts[PROTO_1_1] = 80;
    counts[PROTO_2_0] = 20;
    add_rows(&mut db, &protocol_rows(&counts));

    assert_eq!(hits(&db, "1.1"), 80);
    assert_eq!(hits(&db, "2.0"), 20);
    let http_rows = db.iter().filter(|(k, _)| k.starts_with("HTTP/")).count();
    assert_eq!(http_rows, 0);
}

#[test]
fn protocol_counts_accumulate_across_flushes() {
    let mut db = Counts::new();

    let mut p1 = vec![0u64; PROTO_COUNT];
    p1[PROTO_1_1] = 200;
    add_rows(&mut db, &protocol_rows(&p1));

    let mut p2 = vec![0u64; PROTO_COUNT];
    p2[PROTO_1_1] = 100;
    p2[PROTO_2_0] = 30;
    add_rows(&mut db, &protocol_rows(&p2));

    assert_eq!(hits(&db, "1.1"), 300);
    assert_eq!(hits(&db, "2.0"), 30);
}

// ── Sums ──────────────────────────────────────────────────────────────────

#[test]
fn sums_that_no_column_holds_are_refused() {
    assert_eq!(add_count(None, 3), Some(3));
    assert_eq!(add_count(Some(COLUMN_MAX - 1), 1), Some(COLUMN_MAX));
    assert_eq!(add_count(Some(COLUMN_MAX), 1), None);
    assert_eq!(add_pair(Some((1, 10)), (2, 20)), Some((3, 30)));
    assert_eq!(add_pair(None, (2, 20)), Some((2, 20)));
    assert_eq!(add_pair(Some((0, COLUMN_MAX)), (0, 1)), None);
}

#[test]
fn hours_add_up_column_by_column() {
    let a = HourlyStats {
        hits: 1,
        visits: 2,
        bandwidth: 3,
        files: 4,
        pages: 5,
        status_2xx: 6,
        status_3xx: 7,
        status_4xx: 8,
        status_5xx: 9,
    };
    let sum = add_hour(Some(a), a).unwrap();
    assert_eq!(sum.hits, 2);
    assert_eq!(sum.visits, 4);
    assert_eq!(sum.bandwidth, 6);
    assert_eq!(sum.files, 8);
    assert_eq!(sum.pages, 10);
    assert_eq!(sum.status_2xx, 12);
    assert_eq!(sum.status_3xx, 14);
    assert_eq!(sum.status_4xx, 16);
    assert_eq!(sum.status_5xx, 18);
    assert_eq!(add_hour(None, a), Some(a));
}

#[test]
fn the_order_of_flushes_does_not_matter() {
    let (a, b, c) = ((1, 100), (20, 3), (4, 4));
    let abc = add_pair(add_pair(add_pair(None, a), b), c);
    let cba = add_pair(add_pair(add_pair(None, c), b), a);
    assert_eq!(abc, Some((25, 107)));
    assert_eq!(abc, cba);
}

#[test]
fn countries_are_kept_where_nothing_is_known() {
    assert_eq!(merge_country_code(Some("DE".to_string()), "--"), "DE");
    assert_eq!(merge_country_code(Some("DE".to_string()), "FR"), "FR");
    assert_eq!(merge_country_code(None, "--"), "--");
    assert_eq!(merge_country_name(Some("Germany".to_string()), "Unknown"), "Germany");
    assert_eq!(merge_country_name(Some("Germany".to_string()), "Deutschland"), "Germany");
    assert_eq!(merge_country_name(Some("Unknown".to_string()), "Germany"), "Germany");
    assert_eq!(merge_country_name(None, "Unknown"), "Unknown");
}

#[test]
fn visitors_were_last_seen_at_the_later_time() {
    assert_eq!(merge_last_seen(None, 5), 5);
    assert_eq!(merge_last_seen(Some(9), 5), 9);
    assert_eq!(merge_last_seen(Some(3), 5), 5);
    let mut map = ahash::AHashMap::new();
    let key = (1u8, 0u64, 7u64, String::new());
    merge_max(&mut map, &key, 10);
    merge_max(&mut map, &key, 4);
    assert_eq!(map.get(&key), Some(&10));
    merge_max(&mut map, &key, 12);
    assert_eq!(map.get(&key), Some(&12));
}

#[test]
fn the_last_log_time_is_read_as_a_number() {
    assert_eq!(last_log_ts(None), 0);
    assert_eq!(last_log_ts(Some("1700000000")), 1_700_000_000);
    assert_eq!(last_log_ts(Some("-5")), -5);
    assert_eq!(last_log_ts(Some("soon")), 0);
    assert_eq!(last_log_ts(Some("")), 0);
}

// ── Hosts ─────────────────────────────────────────────────────────────────

#[test]
fn hosts_are_stored_by_address() {
    let k = encode_host_key("1.2.3.4");
    assert_eq!((k.kind, k.hi, k.lo), (1, 0, 0x0102_0304));
    let k = encode_host_key("2001:db8::1");
    assert_eq!((k.kind, k.hi, k.lo), (2, 0x2001_0db8_0000_0000, 1));
    let k = encode_host_key("example.com");
    assert_eq!((k.kind, k.hi, k.lo), (0, 0, 0));
}

#[test]
fn hosts_become_rows() {
    let mut geo = Geo::new(None);
    let hosts = vec![
        ("1.2.3.4".to_string(), (3u64, 300u64)),
        ("example.com".to_string(), (1, 10)),
        ("5.6.7.8".to_string(), (2, 20)),
    ];
    let rows = host_rows(&mut geo, &hosts);
    assert_eq!(rows.len(), 3);
    assert_eq!((rows[0].hits, rows[0].bandwidth), (3, 300));
    assert_eq!(rows[0].key, encode_host_key("1.2.3.4"));
    assert_eq!(rows[1].country.0.as_str(), "--");
    assert_eq!(rows[2].country.1.as_str(), "Unknown");
    assert_eq!(geo.mem_cache.len(), 2);
}

// ── Addresses ─────────────────────────────────────────────────────────────

/// Rows of bitmaps with their counts.
type Rows = Vec<(u8, u64, Vec<u8>, u64)>;

fn flush_day(table: &mut Rows, date: &str, ips: &[Ip]) {
    let mut bm = IpBitmaps::new();
    for ip in ips {
        bm.insert(*ip);
    }
    let mut daily = ahash::AHashMap::new();
    daily.insert(date.to_string(), bm);
    for day in flushed_days(&daily) {
        for (kind, hi) in day_groups(&daily, &day) {
            let at = table.iter().position(|r| r.0 == kind && r.1 == hi);
            let existing = at.map(|i| table[i].2.clone());
            let (count, blob) = merge_day(&daily, &day, kind, hi, existing).unwrap();
            match at {
                Some(i) => table[i] = (kind, hi, blob, count),
                None => table.push((kind, hi, blob, count)),
            }
        }
    }
}

fn blobs(table: &Rows) -> Vec<(u8, u64, Vec<u8>)> {
    table.iter().map(|r| (r.0, r.1, r.2.clone())).collect()
}

#[test]
fn daily_unique_ips_deduplicates_across_flushes() {
    let ip1 = Ip::V4(0x01020304);
    let ip2 = Ip::V4(0x05060708);

    let mut table = Rows::new();
    flush_day(&mut table, "2026-05-01", &[ip1, ip2]);
    flush_day(&mut table, "2026-05-01", &[ip1]); // duplicate

    let count: u64 = table.iter().map(|r| r.3).sum();
    assert_eq!(count, 2, "duplicate IP must not inflate the count");
}

#[test]
fn finalize_month_populates_all_time_ips_and_yearly_unique_ips() {
    let ip1 = Ip::V4(0x01020304);
    let ip2 = Ip::V4(0x05060708);

    let mut table = Rows::new();
    flush_day(&mut table, "2026-05-01", &[ip1, ip2]);

    let urls: Vec<UrlStats> = (0..30u64)
        .map(|i| UrlStats {
            hits: 100 - i,
            bandwidth: (100 - i) * 1024,
            rt_sum: 0,
            rt_count: 0,
            rt_max: 0,
        })
        .collect();

    let month = month_visitors(&blobs(&table)).unwrap();
    assert_eq!(month.count, 2);
    assert_eq!(month.snapshot.len(), 1);
    let (kind, hi, blob) = &month.snapshot[0];
    assert_eq!((*kind, *hi), (KIND_V4, 0));
    let bm = roaring::RoaringBitmap::deserialize_from(&blob[..]).expect("deserialize");
    assert_eq!(bm.len(), 2, "monthly_unique_ips should contain 2 IPv4 addresses");

    // yearly count for 2026 should also be 2 (only one month so far)
    assert_eq!(
        unique_count(&month.snapshot).unwrap(),
        2,
        "yearly count should equal monthly count when only one month exists"
    );

    let ever = all_time_visitors(true, &vec![], &blobs(&table)).unwrap().unwrap();
    assert_eq!(ever.count, 2, "all_time_ips should contain 2 addresses");

    let kept = prune_urls(&urls, 20).iter().filter(|k| **k).count();
    assert_eq!(kept, 20, "should be pruned to top_n=20");
}

#[test]
fn finalize_year_counts_distinct_across_months_and_cleans_up() {
    let ip1 = Ip::V4(0x01020304);
    let ip2 = Ip::V4(0x05060708);
    let ip3 = Ip::V4(0x09101112);

    // Jan: ip1 + ip2; Feb: ip2 + ip3 (ip2 shared across months)
    let mut jan = Rows::new();
    flush_day(&mut jan, "2026-01-15", &[ip1, ip2]);
    let jan = month_visitors(&blobs(&jan)).unwrap();

    let mut feb = Rows::new();
    flush_day(&mut feb, "2026-02-10", &[ip2, ip3]);
    let feb = month_visitors(&blobs(&feb)).unwrap();

    // yearly cache after Feb should reflect 3 distinct IPs, not 2
    let mut snapshots = jan.snapshot;
    snapshots.extend(feb.snapshot);
    assert_eq!(snapshots.len(), 2, "monthly snapshots should be retained");
    let cached = unique_count(&snapshots).unwrap();
    assert_eq!(cached, 3, "yearly cache should deduplicate ip2 across months");
}

#[test]
fn addresses_of_both_kinds_are_stored_apart() {
    let mut table = Rows::new();
    let six = [Ip::parse("2001:db8::1").unwrap(), Ip::parse("2001:db8::2").unwrap()];
    let far = Ip::parse("2001:db9::1").unwrap();
    flush_day(&mut table, "2026-05-01", &[Ip::V4(1), six[0], six[1], far]);
    assert_eq!(table.len(), 3);
    assert_eq!(unique_count(&blobs(&table)).unwrap(), 4);
    let hi = table.iter().find(|r| r.0 == KIND_V6 && r.3 == 2).unwrap();
    assert_eq!(hi.1, 0x2001_0db8_0000_0000);
}

#[test]
fn a_snapshot_is_read_back() {
    let mut bm = IpBitmaps::new();
    for n in 0..1_000u32 {
        bm.insert(Ip::V4(n * 7919));
        bm.insert(Ip::V6((u128::from(n % 3) << 64) | u128::from(n)));
    }
    let rows = bitmap_rows(&bm);
    assert_eq!(rows.len(), 4);
    let mut back = IpBitmaps::new();
    or_bitmap_rows(&rows, &mut back).unwrap();
    assert_eq!(bitmap_cardinality(&back), Some(2_000));
    assert_eq!(bitmap_rows(&back).len(), 4);
    assert_eq!(bitmap_cardinality(&IpBitmaps::new()), Some(0));
}

#[test]
fn broken_bitmaps_are_refused() {
    assert!(matches!(deserialize_v4(b"junk"), Err(BitmapError::V4)));
    assert!(matches!(deserialize_v6(b"junk"), Err(BitmapError::V6)));
    let rows = vec![(KIND_V4, 0u64, b"junk".to_vec())];
    assert!(matches!(unique_count(&rows), Err(BitmapError::V4)));
    let rows = vec![(KIND_V6, 0u64, b"junk".to_vec())];
    assert!(matches!(unique_count(&rows), Err(BitmapError::V6)));
    assert_eq!(BitmapError::V4.message(), "deserialize v4 bitmap");
    assert_eq!(BitmapError::V6.message(), "deserialize v6 bitmap");
}

// ── Culling ───────────────────────────────────────────────────────────────
//
// Rows go where every metric is below a tenth of the current top_n-th best value, once there are
// more than top_n * 50 rows. Most tests use top_n = 1: the top row has hits=1000, bw=100_000,
// rt_avg=10_000, so the thresholds are hits<100, bw<10_000, rt<1_000.

fn url(hits: u64, bandwidth: u64, rt_sum: u64, rt_count: u64) -> UrlStats {
    UrlStats { hits, bandwidth, rt_sum, rt_count, rt_max: 0 }
}

fn with_junk(mut rows: Vec<UrlStats>, n: usize) -> Vec<UrlStats> {
    for _ in 0..n {
        rows.push(url(1, 10, 1, 1));
    }
    rows
}

fn left(keep: &[bool]) -> usize {
    keep.iter().filter(|k| **k).count()
}

#[test]
fn cull_period_no_op_when_top_n_is_zero() {
    let rows: Vec<UrlStats> = (1..=200).map(|i| url(i, i * 100, i, 1)).collect();
    assert_eq!(left(&cull_urls(&rows, 0)), 200);
}

#[test]
fn cull_top_urls_no_op_at_threshold() {
    // threshold = top_n*50 = 50; exactly 50 rows → count > 50 is false.
    let rows = with_junk(vec![url(1000, 100_000, 10_000, 1)], 49);
    assert_eq!(left(&cull_urls(&rows, 1)), 50);
}

#[test]
fn cull_top_urls_removes_junk_below_fraction_of_nth_best() {
    // 51 rows (1 top + 50 junk). Top-1 hits=1000 → thresh=100.
    // Junk has hits=1 < 100, bw=10 < 10_000, rt=1 < 1_000 → all culled.
    let rows = with_junk(vec![url(1000, 100_000, 10_000, 1)], 50);
    let keep = cull_urls(&rows, 1);
    assert!(keep[0], "/top must survive");
    assert!(!keep[1], "junk must be culled");
    assert_eq!(left(&keep), 1);
}

#[test]
fn cull_top_urls_spares_low_hits_entry_with_high_bandwidth() {
    // /mixed has hits=1 (below thresh=100) but bw=200_000 (above thresh=10_000).
    let rows = with_junk(vec![url(1000, 100_000, 10_000, 1), url(1, 200_000, 1, 1)], 49);
    assert!(cull_urls(&rows, 1)[1], "/mixed should survive (high bw)");
}

#[test]
fn cull_top_urls_spares_low_bw_entry_with_high_hits() {
    // /mixed has bw=1 (below thresh) but hits=999 (above thresh=100).
    let rows = with_junk(vec![url(1000, 100_000, 10_000, 1), url(999, 1, 1, 1)], 49);
    assert!(cull_urls(&rows, 1)[1], "/mixed should survive (high hits)");
}

#[test]
fn cull_top_urls_zero_rt_treated_as_worst() {
    // /zero-rt has rt_count=0 → rt_avg=0.0, below thresh=1_000.
    let rows = with_junk(vec![url(1000, 100_000, 10_000, 1), url(1, 10, 0, 0)], 49);
    assert!(!cull_urls(&rows, 1)[1], "/zero-rt should be culled");
}

#[test]
fn cull_top_urls_zero_rt_spared_by_high_hits() {
    // /zero-rt has rt_count=0 but hits=999 ≥ thresh=100 → not culled.
    let rows = with_junk(vec![url(1000, 100_000, 10_000, 1), url(999, 100_000, 0, 0)], 49);
    assert!(cull_urls(&rows, 1)[1], "/zero-rt should survive (high hits)");
}

#[test]
fn cull_top_ips_removes_junk_below_fraction_of_nth_best() {
    let mut rows = vec![(1000u64, 100_000u64)]; // top
    rows.extend(vec![(1, 10); 50]); // junk
    let keep = cull_pairs(&rows, 1);
    assert!(keep[0], "top ip must survive");
    assert!(!keep[1], "junk ip must be culled");
    assert_eq!(left(&keep), 1);
}

#[test]
fn cull_top_referrers_removes_junk_below_fraction_of_nth_best() {
    let mut rows = vec![1000u64];
    rows.extend(vec![1; 50]);
    let keep = cull_counts(&rows, 1);
    assert_eq!(left(&keep), 1);
    assert!(keep[0], "top referrer must survive");
}

#[test]
fn cull_top_agents_removes_junk_below_fraction_of_nth_best() {
    let mut rows = vec![(1000u64, 100_000u64)];
    rows.extend(vec![(1, 10); 50]);
    assert_eq!(left(&cull_pairs(&rows, 1)), 1);
}

#[test]
fn cull_period_does_not_affect_other_periods() {
    let may = with_junk(vec![url(1000, 100_000, 10_000, 1)], 50);
    let june = with_junk(vec![url(1000, 100_000, 10_000, 1)], 50);
    assert_eq!(left(&cull_urls(&may, 1)), 1, "2026-05 junk must be culled");
    assert_eq!(june.len(), 51, "2026-06 must be untouched");
}

#[test]
fn the_best_rows_are_never_culled() {
    let rows: Vec<u64> = (0..500).map(|i| (i * 37) % 499).collect();
    let keep = cull_counts(&rows, 5);
    let fifth = last_shown(&rows, 5);
    for (i, v) in rows.iter().enumerate() {
        if *v >= fifth {
            assert!(keep[i]);
        }
        assert_eq!(keep[i], *v >= fifth / 10);
    }
}

#[test]
fn buckets_keep_what_is_slow() {
    let rows = with_junk(vec![url(1000, 100_000, 10_000, 1), url(1, 1, 30_000, 3)], 50);
    let keep = cull_bucket_urls(&rows, 1);
    assert!(keep[0]);
    assert!(keep[1]);
    assert_eq!(left(&keep), 2);
}

// ── Pruning ───────────────────────────────────────────────────────────────

#[test]
fn pruning_keeps_the_best_by_each_metric() {
    assert_eq!(prune_counts(&vec![5, 1, 9, 7], 2), vec![false, false, true, true]);
    assert_eq!(
        prune_pairs(&vec![(10, 1), (1, 100), (2, 2)], 1),
        vec![true, true, false]
    );
    assert_eq!(
        prune_urls(&vec![url(10, 1, 0, 0), url(1, 100, 0, 0), url(1, 1, 50, 1), url(2, 2, 1, 1)], 1),
        vec![true, true, true, false]
    );
}

#[test]
fn pruning_keeps_the_worst_of_each_error() {
    let none = ErrUrlStats {
        c400: 0,
        c401: 0,
        c403: 0,
        c404: 0,
        c422: 0,
        c429: 0,
        c4xx: 0,
        c500: 0,
        c502: 0,
        c503: 0,
        c5xx: 0,
        bandwidth: 0,
    };
    let not_found = ErrUrlStats { c404: 9, bandwidth: 3, ..none };
    let broken = ErrUrlStats { c500: 2, ..none };
    let rare = ErrUrlStats { c404: 1, ..none };
    assert_eq!(not_found.error_total(), Some(9));
    assert_eq!(ErrUrlStats { c400: u64::MAX, c401: 1, ..none }.error_total(), None);
    let keep = prune_error_urls(&vec![not_found, broken, rare], 1);
    assert_eq!(keep, vec![true, true, false]);
}

#[test]
fn urls_add_up_and_keep_the_slowest() {
    let a = UrlStats { hits: 1, bandwidth: 2, rt_sum: 30, rt_count: 1, rt_max: 30 };
    let b = UrlStats { hits: 4, bandwidth: 5, rt_sum: 6, rt_count: 1, rt_max: 6 };
    let s = add_url(Some(a), b).unwrap();
    assert_eq!((s.hits, s.bandwidth, s.rt_sum, s.rt_count, s.rt_max), (5, 7, 36, 2, 30));
}

fn no_failures() -> ErrUrlStats {
    ErrUrlStats {
        c400: 0,
        c401: 0,
        c403: 0,
        c404: 0,
        c422: 0,
        c429: 0,
        c4xx: 0,
        c500: 0,
        c502: 0,
        c503: 0,
        c5xx: 0,
        bandwidth: 0,
    }
}

#[test]
fn failures_add_up_column_by_column() {
    let none = no_failures();
    let a = ErrUrlStats { c404: 3, c500: 1, bandwidth: 70, ..none };
    let b = ErrUrlStats { c404: 2, c503: 4, bandwidth: 5, ..none };
    let s = add_failures(Some(a), b).unwrap();
    assert_eq!((s.c404, s.c500, s.c503, s.c400, s.bandwidth), (5, 1, 4, 0, 75));
    assert_eq!(add_failures(None, a).unwrap().c404, 3);
    let full = ErrUrlStats { c404: COLUMN_MAX, ..none };
    assert!(add_failures(Some(full), b).is_none());
}

#[test]
fn rare_failures_are_culled_by_all_codes_together() {
    let none = no_failures();
    let mut rows = vec![ErrUrlStats { c404: 60, c500: 40, bandwidth: 1_000, ..none }];
    rows.resize(51, ErrUrlStats { c400: 5, c503: 5, bandwidth: 10, ..none });
    // Fifty rows are not too many for one that is shown.
    assert_eq!(cull_error_urls(&rows[..50].to_vec(), 1), Some(vec![true; 50]));
    rows.push(ErrUrlStats { c404: 4, c500: 5, bandwidth: 99, ..none });
    rows.push(ErrUrlStats { c404: 4, c500: 5, bandwidth: 100, ..none });
    let keep = cull_error_urls(&rows, 1).unwrap();
    assert_eq!((keep[0], keep[1], keep[51], keep[52]), (true, true, false, true));
    rows.push(ErrUrlStats { c400: u64::MAX, c401: 1, ..none });
    assert_eq!(cull_error_urls(&rows, 1), None);
}

#[test]
fn addresses_of_all_time_are_united_with_those_of_a_month() {
    let v4 = Ip::V4(0x01020304);
    let v6 = Ip::V6(1 << 64 | 5);
    let new = Ip::V6(1 << 64 | 6);
    let mut jan = Rows::new();
    flush_day(&mut jan, "2026-01-15", &[v4, v6]);
    let stored = all_time_visitors(true, &vec![], &blobs(&jan)).unwrap().unwrap();
    assert_eq!(stored.count, 2);
    let mut feb = Rows::new();
    flush_day(&mut feb, "2026-02-10", &[v6, new]);
    let united = all_time_visitors(true, &stored.snapshot, &blobs(&feb)).unwrap().unwrap();
    assert_eq!(united.count, 3);
    assert_eq!(unique_count(&united.snapshot), Ok(3));
    assert!(all_time_visitors(false, &stored.snapshot, &blobs(&feb)).unwrap().is_none());
    let broken = vec![(KIND_V4, 0, vec![1, 2])];
    assert!(all_time_visitors(true, &broken, &blobs(&feb)).is_err());
}

#[test]
fn a_row_below_a_tenth_is_culled() {
    let mut rows = vec![15];
    rows.extend(vec![1; 50]);
    rows.push(2);
    let keep = cull_counts(&rows, 1);
    assert!(keep[0] && keep[51], "2 is not below 1.5");
    assert!(!keep[1], "1 is below 1.5");
    rows[0] = 10;
    assert!(cull_counts(&rows, 1)[1], "1 is not below 1");
}

#[test]
fn two_flushes_add_up_in_either_order() {
    assert_eq!(add_count(add_count(Some(5), 2), 3), add_count(add_count(Some(5), 3), 2));
    assert_eq!(add_pair(add_pair(None, (2, 20)), (3, 30)), Some((5, 50)));
    assert_eq!(add_pair(add_pair(None, (3, 30)), (2, 20)), Some((5, 50)));
    let hour = |hits: u64, bandwidth: u64| HourlyStats {
        hits,
        bandwidth,
        ..HourlyStats::default()
    };
    let ab = add_hour(add_hour(Some(hour(1, 1)), hour(2, 20)), hour(3, 30)).unwrap();
    let ba = add_hour(add_hour(Some(hour(1, 1)), hour(3, 30)), hour(2, 20)).unwrap();
    assert_eq!((ab.hits, ab.bandwidth), (6, 51));
    assert_eq!((ba.hits, ba.bandwidth), (6, 51));
}

#[test]
fn a_flush_adds_its_part_to_a_table() {
    let name = |s: &str| s.to_string();
    let mut counts = ahash::AHashMap::new();
    counts.insert(name("a"), 5);
    let part = vec![(name("a"), 2), (name("b"), 3)];
    assert_eq!(flush_counts(&counts, &part), Some(vec![(name("a"), 7), (name("b"), 3)]));
    counts.insert(name("a"), COLUMN_MAX);
    assert_eq!(flush_counts(&counts, &part), None);

    let mut codes = ahash::AHashMap::new();
    codes.insert(404, 1);
    assert_eq!(flush_codes(&codes, &vec![(200, 9), (404, 1)]), Some(vec![(200, 9), (404, 2)]));

    let mut pairs = ahash::AHashMap::new();
    pairs.insert(name("/"), (1, COLUMN_MAX - 5));
    assert_eq!(
        flush_pairs(&pairs, &vec![(name("/"), (2, 5))]),
        Some(vec![(name("/"), (3, COLUMN_MAX))])
    );
    assert_eq!(flush_pairs(&pairs, &vec![(name("/"), (2, 6))]), None);

    let mut hours = ahash::AHashMap::new();
    let hour = HourlyStats { hits: 4, visits: 1, ..HourlyStats::default() };
    hours.insert((name("2026-05-08"), 3), hour);
    let part = vec![((name("2026-05-08"), 3), hour), ((name("2026-05-08"), 4), hour)];
    let rows = flush_hours(&hours, &part).unwrap();
    assert_eq!((rows[0].1.hits, rows[0].1.visits), (8, 2));
    assert_eq!((rows[1].0 .1, rows[1].1.hits), (4, 4));
}

