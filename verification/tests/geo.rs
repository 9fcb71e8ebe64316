//! Countries of addresses.

use std::sync::Arc;
use webstat::geo::{resolve, CountryRecord, Geo};
use webstat::ip::Ip;

fn key(ip: &str) -> (u8, u64, u64) {
    let ip = Ip::parse(ip).unwrap();
    (ip.kind(), ip.hi(), ip.lo())
}

fn lookup(geo: &mut Geo, ip: &str) -> (Arc<String>, Arc<String>) {
    geo.lookup(Ip::parse(ip).unwrap())
}

#[test]
fn geo_geo_without_database_returns_unknowns() {
    let mut geo = Geo::new(None);

    let (code, name) = lookup(&mut geo, "192.168.1.1");
    assert_eq!(code.as_str(), "--");
    assert_eq!(name.as_str(), "Unknown");
}

#[test]
fn geo_cache_stores_results() {
    let mut geo = Geo::new(None);

    lookup(&mut geo, "192.168.1.1");
    assert_eq!(geo.mem_cache.len(), 1);

    lookup(&mut geo, "192.168.1.1");
    assert_eq!(geo.mem_cache.len(), 1);

    lookup(&mut geo, "10.0.0.1");
    assert_eq!(geo.mem_cache.len(), 2);
}

#[test]
fn geo_cache_hit_returns_same_arc() {
    let mut geo = Geo::new(None);

    let (code1, name1) = lookup(&mut geo, "172.16.0.1");
    let (code2, name2) = lookup(&mut geo, "172.16.0.1");

    assert_eq!(
        code1.as_ptr(),
        code2.as_ptr(),
        "Arc should point to same memory on cache hit"
    );
    assert_eq!(
        name1.as_ptr(),
        name2.as_ptr(),
        "Arc should point to same memory on cache hit"
    );
}

#[test]
fn geo_valid_ipv4_addresses_parsed() {
    let mut geo = Geo::new(None);

    let valid_ips = ["0.0.0.0", "8.8.8.8", "255.255.255.255", "127.0.0.1", "192.168.1.1"];

    for ip_str in valid_ips {
        let (code, name) = lookup(&mut geo, ip_str);
        assert_eq!(code.as_str(), "--", "Should return unknown for IP: {}", ip_str);
        assert_eq!(name.as_str(), "Unknown", "Should return unknown for IP: {}", ip_str);
        assert!(
            geo.mem_cache.contains_key(&key(ip_str)),
            "IP should be cached: {}",
            ip_str
        );
    }
}

#[test]
fn geo_valid_ipv6_addresses_parsed() {
    let mut geo = Geo::new(None);

    let valid_ips = ["::", "::1", "2001:db8::1", "fe80::1"];

    for ip_str in valid_ips {
        let (code, name) = lookup(&mut geo, ip_str);
        assert_eq!(code.as_str(), "--", "Should return unknown for IPv6: {}", ip_str);
        assert_eq!(name.as_str(), "Unknown", "Should return unknown for IPv6: {}", ip_str);
        assert!(
            geo.mem_cache.contains_key(&key(ip_str)),
            "IPv6 should be cached: {}",
            ip_str
        );
    }
}

#[test]
fn geo_multiple_lookups_cache_independently() {
    let mut geo = Geo::new(None);

    let ip_strs = ["1.1.1.1", "8.8.8.8", "1.0.0.1"];

    for ip_str in ip_strs {
        lookup(&mut geo, ip_str);
    }

    assert_eq!(geo.mem_cache.len(), 3);

    for ip_str in ip_strs {
        let (code, name) = lookup(&mut geo, ip_str);
        assert_eq!(code.as_str(), "--");
        assert_eq!(name.as_str(), "Unknown");
    }

    assert_eq!(geo.mem_cache.len(), 3);
}

#[test]
fn tests_geo_without_database_returns_unknowns() {
    let mut geo = Geo::new(None);

    let (code, name) = lookup(&mut geo, "192.168.1.1");
    assert_eq!(code.as_str(), "--");
    assert_eq!(name.as_str(), "Unknown");
}

#[test]
fn tests_cache_stores_results() {
    let mut geo = Geo::new(None);

    lookup(&mut geo, "192.168.1.1");
    assert_eq!(geo.mem_cache.len(), 1);

    lookup(&mut geo, "192.168.1.1");
    assert_eq!(geo.mem_cache.len(), 1);

    lookup(&mut geo, "10.0.0.1");
    assert_eq!(geo.mem_cache.len(), 2);
}

#[test]
fn tests_cache_hit_returns_same_arc() {
    let mut geo = Geo::new(None);

    let (code1, name1) = lookup(&mut geo, "172.16.0.1");
    let (code2, name2) = lookup(&mut geo, "172.16.0.1");

    assert_eq!(
        code1.as_ptr(),
        code2.as_ptr(),
        "Arc should point to same memory on cache hit"
    );
    assert_eq!(
        name1.as_ptr(),
        name2.as_ptr(),
        "Arc should point to same memory on cache hit"
    );
}

#[test]
fn tests_valid_ipv4_addresses_parsed() {
    let mut geo = Geo::new(None);

    let valid_ips = ["0.0.0.0", "8.8.8.8", "255.255.255.255", "127.0.0.1", "192.168.1.1"];

    for ip_str in valid_ips {
        let (code, name) = lookup(&mut geo, ip_str);
        assert_eq!(code.as_str(), "--", "Should return unknown for IP: {}", ip_str);
        assert_eq!(name.as_str(), "Unknown", "Should return unknown for IP: {}", ip_str);
        assert!(
            geo.mem_cache.contains_key(&key(ip_str)),
            "IP should be cached: {}",
            ip_str
        );
    }
}

#[test]
fn tests_valid_ipv6_addresses_parsed() {
    let mut geo = Geo::new(None);

    let valid_ips = ["::", "::1", "2001:db8::1", "fe80::1"];

    for ip_str in valid_ips {
        let (code, name) = lookup(&mut geo, ip_str);
        assert_eq!(code.as_str(), "--", "Should return unknown for IPv6: {}", ip_str);
        assert_eq!(name.as_str(), "Unknown", "Should return unknown for IPv6: {}", ip_str);
        assert!(
            geo.mem_cache.contains_key(&key(ip_str)),
            "IPv6 should be cached: {}",
            ip_str
        );
    }
}

#[test]
fn tests_multiple_lookups_cache_independently() {
    let mut geo = Geo::new(None);

    let ip_strs = ["1.1.1.1", "8.8.8.8", "1.0.0.1"];

    for ip_str in ip_strs {
        lookup(&mut geo, ip_str);
    }

    assert_eq!(geo.mem_cache.len(), 3);

    for ip_str in ip_strs {
        let (code, name) = lookup(&mut geo, ip_str);
        assert_eq!(code.as_str(), "--");
        assert_eq!(name.as_str(), "Unknown");
    }

    assert_eq!(geo.mem_cache.len(), 3);
}

fn record(code: Option<&str>, name: Option<&str>) -> Option<CountryRecord> {
    Some(CountryRecord {
        iso_code: code.map(|s| s.to_string()),
        name: name.map(|s| s.to_string()),
    })
}

#[test]
fn a_record_gives_code_and_name() {
    let (code, name) = resolve(record(Some("DE"), Some("Germany")));
    assert_eq!((code.as_str(), name.as_str()), ("DE", "Germany"));
    let (code, name) = resolve(record(Some("DE"), None));
    assert_eq!((code.as_str(), name.as_str()), ("DE", "Unknown"));
    let (code, name) = resolve(record(None, Some("Germany")));
    assert_eq!((code.as_str(), name.as_str()), ("--", "Germany"));
    let (code, name) = resolve(None);
    assert_eq!((code.as_str(), name.as_str()), ("--", "Unknown"));
}

/// A database in which the lower half of the IPv4 addresses belongs to one country.
fn small_database() -> Vec<u8> {
    fn text(out: &mut Vec<u8>, s: &str) {
        out.push(0x40 | s.len() as u8);
        out.extend_from_slice(s.as_bytes());
    }
    fn map(out: &mut Vec<u8>, entries: u8) {
        out.push(0xe0 | entries);
    }
    // One node: to the left the record behind the separator, to the right nothing.
    let mut db = vec![0, 0, 1 + 16, 0, 0, 1];
    db.extend_from_slice(&[0; 16]);
    map(&mut db, 1);
    text(&mut db, "country");
    map(&mut db, 2);
    text(&mut db, "iso_code");
    text(&mut db, "DE");
    text(&mut db, "names");
    map(&mut db, 2);
    text(&mut db, "de");
    text(&mut db, "Deutschland");
    text(&mut db, "en");
    text(&mut db, "Germany");
    db.extend_from_slice(b"\xab\xcd\xefMaxMind.com");
    map(&mut db, 9);
    text(&mut db, "binary_format_major_version");
    db.extend_from_slice(&[0xa1, 2]);
    text(&mut db, "binary_format_minor_version");
    db.extend_from_slice(&[0xa0]);
    text(&mut db, "build_epoch");
    db.extend_from_slice(&[0x01, 0x02, 1]);
    text(&mut db, "database_type");
    text(&mut db, "Test");
    text(&mut db, "description");
    map(&mut db, 0);
    text(&mut db, "ip_version");
    db.extend_from_slice(&[0xa1, 4]);
    text(&mut db, "languages");
    db.extend_from_slice(&[0x00, 0x04]);
    text(&mut db, "node_count");
    db.extend_from_slice(&[0xc1, 1]);
    text(&mut db, "record_size");
    db.extend_from_slice(&[0xa1, 24]);
    db
}

#[test]
fn the_database_is_asked_once_for_an_address() {
    let mut geo = Geo::new(Some(small_database()));
    assert!(!geo.db_unavailable);
    let (code, name) = lookup(&mut geo, "8.8.8.8");
    assert_eq!((code.as_str(), name.as_str()), ("DE", "Germany"));
    let (code, name) = lookup(&mut geo, "200.1.1.1");
    assert_eq!((code.as_str(), name.as_str()), ("--", "Unknown"));
    let (code, _) = lookup(&mut geo, "2001:db8::1");
    assert_eq!(code.as_str(), "--");
    assert_eq!(geo.mem_cache.len(), 3);
    let (code, name) = lookup(&mut geo, "8.8.8.8");
    assert_eq!((code.as_str(), name.as_str()), ("DE", "Germany"));
    assert_eq!(geo.mem_cache.len(), 3);
}

#[test]
fn bytes_that_are_no_database_know_no_country() {
    for bytes in [vec![], b"not a database".to_vec()] {
        let mut geo = Geo::new(Some(bytes));
        assert!(geo.db_unavailable);
        let (code, name) = lookup(&mut geo, "8.8.8.8");
        assert_eq!((code.as_str(), name.as_str()), ("--", "Unknown"));
    }
    // A record that is cut off is as good as none.
    let mut db = small_database();
    db[2] = 200;
    let mut geo = Geo::new(Some(db));
    assert_eq!(lookup(&mut geo, "8.8.8.8").0.as_str(), "--");
    assert!(!Geo::new(None).db_unavailable);
}
