//! From entries to totals.

use webstat::aggregator::aggregation::{
    extract_host_from_url, file_ext, is_file_extension, strip_query,
};

// ── strip_query ───────────────────────────────────────────────────────────

#[test]
fn strip_query_removes_query_string() {
    assert_eq!(strip_query("/foo?bar=1"), "/foo");
}

#[test]
fn strip_query_no_query_returns_whole_path() {
    assert_eq!(strip_query("/foo/bar"), "/foo/bar");
}

#[test]
fn strip_query_empty_path() {
    assert_eq!(strip_query(""), "");
}

#[test]
fn strip_query_multiple_question_marks_splits_at_first() {
    assert_eq!(strip_query("/foo?a=1?b=2"), "/foo");
}

#[test]
fn strip_query_leading_question_mark() {
    assert_eq!(strip_query("?foo=bar"), "");
}

// ── file_ext ──────────────────────────────────────────────────────────────

#[test]
fn file_ext_returns_extension() {
    assert_eq!(file_ext("/foo/bar.html"), ".html");
}

#[test]
fn file_ext_no_extension_returns_empty() {
    assert_eq!(file_ext("/foo/bar"), "");
}

#[test]
fn file_ext_dot_in_dir_not_matched() {
    assert_eq!(file_ext("/foo.d/bar"), "");
}

#[test]
fn file_ext_trailing_slash() {
    assert_eq!(file_ext("/foo/"), "");
}

#[test]
fn file_ext_multiple_dots_returns_last() {
    assert_eq!(file_ext("/foo/archive.tar.gz"), ".gz");
}

#[test]
fn file_ext_leading_dot_filename() {
    // Hidden files: the leading dot is treated as extension start.
    assert_eq!(file_ext("/foo/.gitignore"), ".gitignore");
}

#[test]
fn file_ext_root_path_empty() {
    assert_eq!(file_ext("/"), "");
}

#[test]
fn file_ext_just_dot_in_filename() {
    assert_eq!(file_ext("/foo/."), ".");
}

// ── extract_host_from_url ─────────────────────────────────────────────────

#[test]
fn extract_host_basic() {
    let h = extract_host_from_url("https://example.com/path").unwrap();
    assert_eq!(h.as_str(), "example.com");
}

#[test]
fn extract_host_strips_port() {
    let h = extract_host_from_url("http://example.com:8080/").unwrap();
    assert_eq!(h.as_str(), "example.com");
}

#[test]
fn extract_host_no_scheme_returns_none() {
    assert!(extract_host_from_url("example.com/path").is_none());
}

#[test]
fn extract_host_empty_host_returns_none() {
    assert!(extract_host_from_url("http:///path").is_none());
}

#[test]
fn extract_host_no_trailing_slash() {
    let h = extract_host_from_url("https://example.com").unwrap();
    assert_eq!(h.as_str(), "example.com");
}

#[test]
fn extract_host_query_immediately_after_host() {
    let h = extract_host_from_url("https://example.com?foo=bar").unwrap();
    assert_eq!(h.as_str(), "example.com");
}

#[test]
fn extract_host_scheme_separator_only_returns_none() {
    assert!(extract_host_from_url("://").is_none());
}

// ── is_file_extension ─────────────────────────────────────────────────────

#[test]
fn extensions_of_files_are_known() {
    for ext in [".css", ".js", ".woff2", ".gz", ".txt"] {
        assert!(is_file_extension(ext), "{ext}");
    }
    for ext in ["", ".html", ".CSS", "css", ".css.map"] {
        assert!(!is_file_extension(ext), "{ext}");
    }
}
