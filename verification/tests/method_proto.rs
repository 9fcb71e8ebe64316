//! Methods and protocol versions as slots.

use webstat::method_proto::{
    method_index, method_name, proto_index, proto_name, METHOD_COUNT, METHOD_DELETE, METHOD_GET,
    METHOD_HEAD, METHOD_OPTIONS, METHOD_OTHER, METHOD_PATCH, METHOD_POST, METHOD_PUT, PROTO_1_0,
    PROTO_1_1, PROTO_2_0, PROTO_3_0, PROTO_COUNT, PROTO_OTHER,
};

#[test]
fn method_index_classifies_all_known_methods() {
    assert_eq!(method_index("GET"), METHOD_GET);
    assert_eq!(method_index("POST"), METHOD_POST);
    assert_eq!(method_index("HEAD"), METHOD_HEAD);
    assert_eq!(method_index("PUT"), METHOD_PUT);
    assert_eq!(method_index("DELETE"), METHOD_DELETE);
    assert_eq!(method_index("OPTIONS"), METHOD_OPTIONS);
    assert_eq!(method_index("PATCH"), METHOD_PATCH);
}

#[test]
fn method_index_unknown_maps_to_other() {
    assert_eq!(method_index("CONNECT"), METHOD_OTHER);
    assert_eq!(method_index("TRACE"), METHOD_OTHER);
    assert_eq!(method_index("get"), METHOD_OTHER); // case-sensitive
    assert_eq!(method_index(""), METHOD_OTHER);
}

#[test]
fn proto_index_classifies_standard_versions() {
    assert_eq!(proto_index("HTTP/1.0"), PROTO_1_0);
    assert_eq!(proto_index("HTTP/1.1"), PROTO_1_1);
    assert_eq!(proto_index("HTTP/2.0"), PROTO_2_0);
    assert_eq!(proto_index("HTTP/2"), PROTO_2_0);
    assert_eq!(proto_index("HTTP/3.0"), PROTO_3_0);
    assert_eq!(proto_index("HTTP/3"), PROTO_3_0);
}

#[test]
fn proto_index_unknown_maps_to_other() {
    assert_eq!(proto_index(""), PROTO_OTHER);
    assert_eq!(proto_index("HTTP/1.2"), PROTO_OTHER);
    assert_eq!(proto_index("SPDY/3"), PROTO_OTHER);
    assert_eq!(proto_index("http/1.1"), PROTO_OTHER); // case-sensitive
    assert_eq!(proto_index("1.1"), PROTO_OTHER); // no prefix — treated as unknown
}

#[test]
fn method_names_match_constants() {
    assert_eq!(method_name(METHOD_GET), "GET");
    assert_eq!(method_name(METHOD_POST), "POST");
    assert_eq!(method_name(METHOD_HEAD), "HEAD");
    assert_eq!(method_name(METHOD_PUT), "PUT");
    assert_eq!(method_name(METHOD_DELETE), "DELETE");
    assert_eq!(method_name(METHOD_OPTIONS), "OPTIONS");
    assert_eq!(method_name(METHOD_PATCH), "PATCH");
    assert_eq!(method_name(METHOD_OTHER), "other");
    assert_eq!((0..METHOD_COUNT).map(method_name).count(), METHOD_COUNT);
}

#[test]
fn proto_names_drop_http_prefix() {
    assert_eq!(proto_name(PROTO_1_0), "1.0");
    assert_eq!(proto_name(PROTO_1_1), "1.1");
    assert_eq!(proto_name(PROTO_2_0), "2.0");
    assert_eq!(proto_name(PROTO_3_0), "3.0");
    assert_eq!(proto_name(PROTO_OTHER), "other");
    assert_eq!((0..PROTO_COUNT).map(proto_name).count(), PROTO_COUNT);
    for name in (0..PROTO_COUNT).map(proto_name) {
        assert!(!name.starts_with("HTTP/"), "proto storage name must not include HTTP/ prefix");
    }
}

#[test]
fn constants_are_within_array_bounds() {
    assert!(METHOD_GET < METHOD_COUNT);
    assert!(METHOD_POST < METHOD_COUNT);
    assert!(METHOD_HEAD < METHOD_COUNT);
    assert!(METHOD_PUT < METHOD_COUNT);
    assert!(METHOD_DELETE < METHOD_COUNT);
    assert!(METHOD_OPTIONS < METHOD_COUNT);
    assert!(METHOD_PATCH < METHOD_COUNT);
    assert!(METHOD_OTHER < METHOD_COUNT);

    assert!(PROTO_1_0 < PROTO_COUNT);
    assert!(PROTO_1_1 < PROTO_COUNT);
    assert!(PROTO_2_0 < PROTO_COUNT);
    assert!(PROTO_3_0 < PROTO_COUNT);
    assert!(PROTO_OTHER < PROTO_COUNT);
}

#[test]
fn method_constants_are_all_distinct() {
    let indices = [
        METHOD_GET, METHOD_POST, METHOD_HEAD, METHOD_PUT,
        METHOD_DELETE, METHOD_OPTIONS, METHOD_PATCH, METHOD_OTHER,
    ];
    let unique: std::collections::HashSet<usize> = indices.iter().copied().collect();
    assert_eq!(unique.len(), METHOD_COUNT);
}

#[test]
fn proto_constants_are_all_distinct() {
    let indices = [PROTO_1_0, PROTO_1_1, PROTO_2_0, PROTO_3_0, PROTO_OTHER];
    let unique: std::collections::HashSet<usize> = indices.iter().copied().collect();
    assert_eq!(unique.len(), PROTO_COUNT);
}
