//! Fingerprints of files.

use flate2::{write::GzEncoder, Compression};
use std::io::Write;
use webstat::compression::CompressionType;
use webstat::fingerprint::{
    compute_compressed_head_fingerprint, compute_decompressed_head_fingerprint,
    compute_fingerprints, decode, fingerprint_of_contents, hash_head, hash_sample, DecodeError,
    FileFingerprint, FINGERPRINT_SAMPLE,
};

fn compress(content: &[u8]) -> Vec<u8> {
    let mut enc = GzEncoder::new(Vec::new(), Compression::default());
    enc.write_all(content).unwrap();
    enc.finish().unwrap()
}

fn plain(name: &str, content: &[u8]) -> Option<FileFingerprint> {
    compute_fingerprints(name, content.len() as u64, content).unwrap()
}

fn gzip(name: &str, content: &[u8]) -> Option<FileFingerprint> {
    let raw = compress(content);
    compute_fingerprints(name, raw.len() as u64, &raw).unwrap()
}

#[test]
fn fingerprint_plain_empty_file_returns_none() {
    assert!(plain("empty.log", b"").is_none());
}

#[test]
fn fingerprint_plain_small_file_produces_fingerprint() {
    let fp = plain("small.log", b"hello world").unwrap();
    assert_eq!(fp.logical_size, 11);
    assert_ne!(fp.head, 0);
}

#[test]
fn fingerprint_plain_different_content_gives_different_fingerprints() {
    let fp1 = plain("a.log", b"aaa").unwrap();
    let fp2 = plain("b.log", b"bbb").unwrap();
    assert_ne!(fp1.head, fp2.head);
}

#[test]
fn fingerprint_plain_same_content_gives_same_fingerprint() {
    let fp1 = plain("c.log", b"same content").unwrap();
    let fp2 = plain("d.log", b"same content").unwrap();
    assert_eq!(fp1.head, fp2.head);
    assert_eq!(fp1.logical_size, fp2.logical_size);
}

#[test]
fn fingerprint_gzip_empty_decompressed_returns_none() {
    assert!(gzip("empty.gz", b"").is_none());
}

#[test]
fn fingerprint_gzip_small_file_fingerprint_differs_from_plain() {
    let content = b"log line content";
    let fp_gz = gzip("f.log.gz", content).unwrap();
    let fp_plain = plain("f.log", content).unwrap();
    // Both fingerprint the *decompressed* content length for gz.
    assert_eq!(fp_gz.logical_size, content.len() as u64);
    assert_eq!(fp_plain.logical_size, content.len() as u64);
}

#[test]
fn fingerprint_hash_sample_is_deterministic() {
    assert_eq!(hash_sample(b"hello"), hash_sample(b"hello"));
    assert_ne!(hash_sample(b"hello"), hash_sample(b"world"));
}

#[test]
fn tests_plain_empty_file_returns_none() {
    assert!(plain("empty.log", b"").is_none());
}

#[test]
fn tests_plain_small_file_produces_fingerprint() {
    let fp = plain("small.log", b"hello world").unwrap();
    assert_eq!(fp.logical_size, 11);
    assert_ne!(fp.head, 0);
}

#[test]
fn tests_plain_different_content_gives_different_fingerprints() {
    let fp1 = plain("a.log", b"aaa").unwrap();
    let fp2 = plain("b.log", b"bbb").unwrap();
    assert_ne!(fp1.head, fp2.head);
}

#[test]
fn tests_plain_same_content_gives_same_fingerprint() {
    let fp1 = plain("c.log", b"same content").unwrap();
    let fp2 = plain("d.log", b"same content").unwrap();
    assert_eq!(fp1.head, fp2.head);
    assert_eq!(fp1.logical_size, fp2.logical_size);
}

#[test]
fn tests_gzip_empty_decompressed_returns_none() {
    assert!(gzip("empty.gz", b"").is_none());
}

#[test]
fn tests_gzip_small_file_fingerprint_differs_from_plain() {
    let content = b"log line content";
    let fp_gz = gzip("f.log.gz", content).unwrap();
    let fp_plain = plain("f.log", content).unwrap();
    // Both fingerprint the *decompressed* content length for gz.
    assert_eq!(fp_gz.logical_size, content.len() as u64);
    assert_eq!(fp_plain.logical_size, content.len() as u64);
}

#[test]
fn tests_hash_sample_is_deterministic() {
    assert_eq!(hash_sample(b"hello"), hash_sample(b"hello"));
    assert_ne!(hash_sample(b"hello"), hash_sample(b"world"));
}

#[test]
fn the_hash_is_xxh3() {
    // The published value of the 64-bit hash of nothing.
    assert_eq!(hash_sample(b""), 0x2d06_8005_38d3_94c2);
    assert_eq!(hash_sample(b"hello"), twox_hash::XxHash3_64::oneshot(b"hello"));
}

#[test]
fn a_gzip_file_is_known_by_its_contents() {
    let content = b"log line content";
    let fp_gz = gzip("f.log.gz", content).unwrap();
    let fp_plain = plain("f.log", content).unwrap();
    assert_eq!(fp_gz.head, fp_plain.head);
    assert_eq!(fp_gz.head, hash_sample(content));
}

#[test]
fn only_the_head_is_hashed() {
    let mut a = vec![b'x'; FINGERPRINT_SAMPLE];
    let mut b = a.clone();
    a.extend_from_slice(b"one tail");
    b.extend_from_slice(b"another, longer tail");
    assert_eq!(hash_head(&a), hash_head(&b));
    assert_eq!(hash_head(&a), Some(hash_sample(&a[..FINGERPRINT_SAMPLE])));
    assert_eq!(hash_head(b""), None);
    let fa = fingerprint_of_contents(&a).unwrap();
    let fb = fingerprint_of_contents(&b).unwrap();
    assert_eq!(fa.head, fb.head);
    assert_ne!(fa.logical_size, fb.logical_size);
}

#[test]
fn compressed_head_is_of_the_raw_bytes() {
    let raw = compress(b"some lines");
    assert_eq!(
        compute_compressed_head_fingerprint(raw.len() as u64, &raw),
        Some(hash_sample(&raw))
    );
    assert_eq!(compute_compressed_head_fingerprint(0, b""), None);
    assert_eq!(
        compute_decompressed_head_fingerprint(&raw, CompressionType::Gz).unwrap(),
        Some(hash_sample(b"some lines"))
    );
}

#[test]
fn broken_gzip_contents_are_an_error() {
    let raw = b"not gzip at all";
    assert!(matches!(
        compute_fingerprints("a.gz", raw.len() as u64, raw),
        Err(DecodeError)
    ));
    assert!(matches!(
        compute_decompressed_head_fingerprint(raw, CompressionType::Gz),
        Err(DecodeError)
    ));
}

#[test]
fn members_of_a_gzip_file_are_read_on() {
    let mut raw = compress(b"one\n");
    raw.extend_from_slice(&compress(b"two\n"));
    let (text, whole) = decode(&raw, CompressionType::Gz, u64::MAX);
    assert_eq!(text, b"one\ntwo\n");
    assert!(whole);
    let (text, whole) = decode(&raw, CompressionType::Gz, 3);
    assert_eq!(text, b"one");
    assert!(whole);
}

#[test]
fn bzip2_contents_are_decoded() {
    let mut enc = bzip2::write::BzEncoder::new(Vec::new(), bzip2::Compression::default());
    enc.write_all(b"a line\n").unwrap();
    let mut raw = enc.finish().unwrap();
    let mut enc = bzip2::write::BzEncoder::new(Vec::new(), bzip2::Compression::default());
    enc.write_all(b"and one more\n").unwrap();
    raw.extend_from_slice(&enc.finish().unwrap());
    let (text, whole) = decode(&raw, CompressionType::Bz2, u64::MAX);
    assert_eq!(text, b"a line\nand one more\n");
    assert!(whole);
    let (_, whole) = decode(b"no bzip2", CompressionType::Bz2, u64::MAX);
    assert!(!whole);
}

#[test]
fn brotli_contents_are_decoded() {
    let mut raw = Vec::new();
    {
        let mut enc = brotli::CompressorWriter::new(&mut raw, 4096, 5, 22);
        enc.write_all(b"a line\n").unwrap();
    }
    let (text, whole) = decode(&raw, CompressionType::Br, u64::MAX);
    assert_eq!(text, b"a line\n");
    assert!(whole);
}

#[test]
fn plain_contents_are_cut_at_the_limit() {
    assert_eq!(decode(b"abcdef", CompressionType::Plain, 4), (b"abcd".to_vec(), true));
}
