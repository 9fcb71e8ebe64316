//! Where a log file is read on.

use flate2::{write::GzEncoder, Compression};
use std::io::Write;
use webstat::aggregator::pipeline::{make_file_parse_state, RunPlan};
use webstat::aggregator::resolve::{file_context, resolve_contents};
use webstat::aggregator::resume::{
    choose_primary_state, classify_relation, derive_resume_point, read_first_line_ts,
    resolve_cheap, resolve_resume_plan, FileRelation, FileStat, Fingerprints, Known, ResolutionOutcome,
    ResumePoint, Step,
};
use webstat::compression::CompressionType;
use webstat::database::parse_state::ParseStates;
use webstat::database::ParseState;
use webstat::fingerprint::compute_decompressed_head_fingerprint;

// ── helpers ───────────────────────────────────────────────────────────────

fn log_line(ts: &str) -> String {
    format!(r#"1.2.3.4 - - [{ts}] "GET /index.html HTTP/1.1" 200 100 "-" "Mozilla/5.0""#)
}

fn plain(lines: &[&str]) -> Vec<u8> {
    let mut out = Vec::new();
    for line in lines {
        out.extend_from_slice(line.as_bytes());
        out.push(b'\n');
    }
    out
}

fn gz(lines: &[&str]) -> Vec<u8> {
    let mut enc = GzEncoder::new(Vec::new(), Compression::default());
    enc.write_all(&plain(lines)).unwrap();
    enc.finish().unwrap()
}

const GZ_PATH: &str = "/tmp/access.log.gz";
const GZ_INODE: u64 = 0x1234_5678;

/// What is decided of the compressed file at `GZ_PATH`, where `state` is all that is stored.
fn resolve_gz(raw: &[u8], state: ParseState) -> ResolutionOutcome {
    let states = ParseStates { active: vec![state], archive: vec![] };
    let facts = FileStat {
        inode: GZ_INODE,
        stat_size: raw.len() as u64,
        mtime_ns: 1_700_000_000_000_000_000,
    };
    let ctx = file_context(GZ_PATH.to_string(), facts, &states);
    resolve_contents(&ctx, &states, raw).unwrap()
}

fn blank_state(filepath: &str, inode: u64) -> ParseState {
    ParseState {
        filepath: filepath.into(),
        inode,
        compressed_size: 0,
        uncompressed_size: 0,
        compressed_head_fingerprint: None,
        uncompressed_head_fingerprint: None,
        compressed_offset: 0,
        uncompressed_offset: 0,
        mtime_ns: 0,
        completed: false,
        earliest_ts: None,
        latest_ts: None,
        skip_before_ts: None,
    }
}

// ── read_first_line_ts ────────────────────────────────────────────────────

#[test]
fn plain_file_returns_correct_timestamp() {
    let line = log_line("01/Jan/1970:00:00:00 +0000");
    let f = plain(&[&line]);
    let ts = read_first_line_ts("access.log", &f);
    assert_eq!(ts, Some(0));
}

#[test]
fn gz_file_returns_correct_timestamp() {
    let line = log_line("01/Jan/1970:01:00:00 +0100");
    let f = gz(&[&line]);
    let ts = read_first_line_ts("access.log.gz", &f);
    assert_eq!(ts, Some(0));
}

#[test]
fn all_garbage_lines_returns_none() {
    let f = plain(&["not a log line", "also not a log line", "garbage"]);
    assert_eq!(read_first_line_ts("access.log", &f), None);
}

#[test]
fn skips_garbage_prefix_to_find_parseable_line() {
    let good = log_line("01/Jan/1970:00:00:42 +0000");
    let f = plain(&["junk", "more junk", &good]);
    let ts = read_first_line_ts("access.log", &f);
    assert_eq!(ts, Some(42));
}

#[test]
fn stops_at_twenty_line_limit() {
    let garbage: Vec<String> = (0..21).map(|i| format!("garbage line {i}")).collect();
    let refs: Vec<&str> = garbage.iter().map(String::as_str).collect();
    let f = plain(&refs);
    assert_eq!(read_first_line_ts("access.log", &f), None);
}

// ── choose_primary_state ──────────────────────────────────────────────────

#[test]
fn primary_prefers_path_with_matching_inode() {
    let by_path = blank_state("/log/a", 42);
    let by_inode = blank_state("/log/b", 42);
    let chosen = choose_primary_state(Some(&by_path), Some(&by_inode), 42).unwrap();
    assert_eq!(chosen.filepath, "/log/a");
}

#[test]
fn primary_falls_back_to_inode_when_path_inode_stale() {
    let by_path = blank_state("/log/a", 99); // stale inode
    let by_inode = blank_state("/log/b", 42);
    let chosen = choose_primary_state(Some(&by_path), Some(&by_inode), 42).unwrap();
    assert_eq!(chosen.filepath, "/log/b");
}

#[test]
fn primary_returns_none_when_no_state() {
    assert!(choose_primary_state(None, None, 1).is_none());
}

// ── classify_relation ─────────────────────────────────────────────────────

fn fps(uncompressed_head: Option<u64>) -> Fingerprints {
    Fingerprints {
        compressed_head: None,
        uncompressed_head,
        uncompressed_size: 100,
    }
}

#[test]
fn classifies_plain_extension_correctly() {
    let mut state = blank_state("/log/a", 1);
    state.uncompressed_size = 50;
    state.uncompressed_offset = 50;
    state.uncompressed_head_fingerprint = Some(0xaaaa);

    let relation = classify_relation(
        Some(&state),
        None,
        "/log/a",
        1,   // same inode
        200, // grew
        0,
        false, // plain
        false,
        &fps(Some(0xaaaa)),
    );
    assert_eq!(relation, FileRelation::PlainExtended);
}

#[test]
fn classifies_rotation_plain_to_gz() {
    let mut state = blank_state("/log/access.log", 5);
    state.compressed_size = 0; // was plain
    state.uncompressed_size = 50;
    state.uncompressed_offset = 50;
    state.uncompressed_head_fingerprint = Some(0xbbbb);
    state.completed = true;

    let relation = classify_relation(
        Some(&state),
        None,
        "/log/access.log-20240101.gz",
        5,
        999, // gz is larger
        0,
        true, // now compressed
        false,
        &Fingerprints {
            compressed_head: Some(0x1234),
            uncompressed_head: Some(0xbbbb), // same content prefix
            uncompressed_size: 0,
        },
    );
    assert_eq!(relation, FileRelation::RotatedPlainToGz);
}

#[test]
fn classifies_shrunk_file_as_unrelated() {
    let mut state = blank_state("/log/a", 1);
    state.uncompressed_size = 500;
    state.uncompressed_offset = 500;

    let relation = classify_relation(
        Some(&state),
        None,
        "/log/a",
        1,
        100, // shrank
        0,
        false,
        false,
        &fps(Some(0xcccc)),
    );
    assert_eq!(relation, FileRelation::Unrelated);
}

// ── derive_resume_point ───────────────────────────────────────────────────

#[test]
fn plain_extended_returns_correct_offset() {
    let mut state = blank_state("/log/a", 1);
    state.uncompressed_offset = 77;

    let point =
        derive_resume_point(&FileRelation::PlainExtended, Some(&state), None, 200, false);
    assert_eq!(point, ResumePoint::PlainOffset(77));
}

#[test]
fn compressed_extended_returns_decoded_offset() {
    let mut state = blank_state("/log/a", 1);
    state.uncompressed_offset = 42;

    let point = derive_resume_point(
        &FileRelation::CompressedExtended,
        Some(&state),
        None,
        999,
        true,
    );
    assert_eq!(point, ResumePoint::DecodedOffset(42));
}

#[test]
fn rotated_plain_to_gz_returns_decoded_offset() {
    let mut state = blank_state("/log/a", 1);
    state.uncompressed_offset = 55;

    let point = derive_resume_point(
        &FileRelation::RotatedPlainToGz,
        Some(&state),
        None,
        999,
        true,
    );
    assert_eq!(point, ResumePoint::DecodedOffset(55));
}

#[test]
fn unrelated_returns_from_zero() {
    let point = derive_resume_point(&FileRelation::Unrelated, None, None, 100, false);
    assert_eq!(point, ResumePoint::FromZero);
}

// ── rotation regression tests (integration) ───────────────────────────────
//
// access.log (plain) was read to its end.  The server kept writing, then the file
// was renamed and compressed: same inode, more contents.  The compressed file must
// be read on from the stored offset, neither skipped nor read from the start.

#[test]
fn fresh_gz_with_in_progress_plain_head_match_resumes_from_plain_offset() {
    let raw = gz(&["line one", "line two", "line three"]);

    let gz_head_fp = compute_decompressed_head_fingerprint(&raw, CompressionType::Gz)
        .unwrap()
        .unwrap();

    let partial_offset = 20u64;
    let state = ParseState {
        filepath: "/old/access.log".into(),
        inode: 0xdead_beef_0000_0002,
        compressed_size: 0,
        uncompressed_size: partial_offset,
        compressed_head_fingerprint: None,
        uncompressed_head_fingerprint: Some(gz_head_fp),
        compressed_offset: 0,
        uncompressed_offset: partial_offset,
        mtime_ns: 0,
        completed: false,
        earliest_ts: None,
        latest_ts: None,
        skip_before_ts: None,
    };
    let outcome = resolve_gz(&raw, state);
    let plan = outcome.plan.expect("gz should produce a resume plan");
    assert_eq!(
        plan.skip_decoded_prefix_bytes, partial_offset,
        "must resume from the in-progress plain file's offset, not reprocess from 0",
    );
}

#[test]
fn fresh_gz_with_completed_plain_head_match_resumes_not_skips() {
    let raw = gz(&["line one", "line two", "line three"]);

    let gz_head_fp = compute_decompressed_head_fingerprint(&raw, CompressionType::Gz)
        .unwrap()
        .unwrap();

    let plain_completed_offset = 20u64;
    let state = ParseState {
        filepath: "/old/access.log".into(),
        inode: 0xdead_beef_0000_0001,
        compressed_size: 0,
        uncompressed_size: plain_completed_offset,
        compressed_head_fingerprint: None,
        uncompressed_head_fingerprint: Some(gz_head_fp),
        compressed_offset: 0,
        uncompressed_offset: plain_completed_offset,
        mtime_ns: 0,
        completed: true,
        earliest_ts: None,
        latest_ts: None,
        skip_before_ts: None,
    };
    let outcome = resolve_gz(&raw, state);
    let plan = outcome.plan.expect(
        "gz with same head as completed plain file must produce a resume plan, not be skipped",
    );
    assert_eq!(
        plan.skip_decoded_prefix_bytes, plain_completed_offset,
        "must resume from the plain file's completed offset to avoid losing appended lines",
    );
}

#[test]
fn rotation_plain_to_gz_same_inode_not_falsely_skipped() {
    let raw = gz(&["line one", "line two", "line three"]);

    let partial_offset = 50u64;
    let state = ParseState {
        filepath: "/var/log/nginx/access.log".into(),
        inode: GZ_INODE,
        compressed_size: 0,
        uncompressed_size: partial_offset,
        compressed_head_fingerprint: None,
        uncompressed_head_fingerprint: Some(0xaabb_ccdd_eeff_0011),
        compressed_offset: 0,
        uncompressed_offset: partial_offset,
        mtime_ns: 1_748_000_000_000_000_000,
        completed: true,
        earliest_ts: None,
        latest_ts: None,
        skip_before_ts: None,
    };
    let outcome = resolve_gz(&raw, state);
    assert!(
        outcome.plan.is_some(),
        "rotated gz file must not be falsely skipped via uncompressed-head global dedup"
    );
}

#[test]
fn rotation_plain_to_gz_same_inode_sets_skip_decoded_prefix() {
    let raw = gz(&["line one", "line two", "line three"]);

    let partial_offset = 50u64;
    let state = ParseState {
        filepath: "/var/log/nginx/access.log".into(),
        inode: GZ_INODE,
        compressed_size: 0,
        uncompressed_size: partial_offset,
        compressed_head_fingerprint: None,
        uncompressed_head_fingerprint: Some(0xaabb_ccdd_eeff_0011),
        compressed_offset: 0,
        uncompressed_offset: partial_offset,
        mtime_ns: 1_748_000_000_000_000_000,
        completed: true,
        earliest_ts: None,
        latest_ts: None,
        skip_before_ts: None,
    };
    let outcome = resolve_gz(&raw, state);
    let plan = outcome
        .plan
        .expect("rotated gz file must produce a resume plan");
    assert_eq!(
        plan.skip_decoded_prefix_bytes, partial_offset,
        "must skip already-processed uncompressed bytes to avoid double-counting"
    );
}

// ── invariant: Identical / AliasPath always → Skip ────────────────────────

fn completed_plain_state(filepath: &str, inode: u64, size: u64, head: u64) -> ParseState {
    let mut s = blank_state(filepath, inode);
    s.completed = true;
    s.uncompressed_size = size;
    s.uncompressed_offset = size;
    s.uncompressed_head_fingerprint = Some(head);
    s
}

#[test]
fn same_filepath_completed_plain_classifies_as_identical() {
    // When the stored state path equals the current filepath, classify_relation
    // must return Identical (not AliasPath).
    let state = completed_plain_state("/log/a", 1, 100, 0xabcd);
    let relation = classify_relation(
        Some(&state),
        None,
        "/log/a", // same path
        1,
        100,
        0,
        false,
        false,
        &fps(Some(0xabcd)),
    );
    assert_eq!(relation, FileRelation::Identical);
    assert_eq!(
        derive_resume_point(&relation, Some(&state), None, 100, false),
        ResumePoint::Skip
    );
}

#[test]
fn different_filepath_completed_plain_classifies_as_alias_path() {
    // When the stored state path differs from the current filepath (e.g. symlink
    // or hardlink), classify_relation must return AliasPath, not Identical.
    let state = completed_plain_state("/log/old-name", 1, 100, 0xabcd);
    let relation = classify_relation(
        Some(&state),
        None,
        "/log/new-name", // different path, same content
        1,
        100,
        0,
        false,
        false,
        &fps(Some(0xabcd)),
    );
    assert_eq!(relation, FileRelation::AliasPath);
    assert_eq!(
        derive_resume_point(&relation, Some(&state), None, 100, false),
        ResumePoint::Skip
    );
}

// ── invariant: extended relations never return FromZero ───────────────────

#[test]
fn plain_extended_never_from_zero() {
    let mut state = blank_state("/log/a", 1);
    state.uncompressed_offset = 50;
    let point =
        derive_resume_point(&FileRelation::PlainExtended, Some(&state), None, 200, false);
    assert!(
        !matches!(point, ResumePoint::FromZero),
        "PlainExtended must not restart from zero"
    );
}

#[test]
fn compressed_extended_never_from_zero() {
    let mut state = blank_state("/log/a", 1);
    state.uncompressed_offset = 50;
    let point = derive_resume_point(
        &FileRelation::CompressedExtended,
        Some(&state),
        None,
        999,
        true,
    );
    assert!(
        !matches!(point, ResumePoint::FromZero),
        "CompressedExtended must not restart from zero"
    );
}

#[test]
fn rotated_plain_to_gz_never_from_zero() {
    let mut state = blank_state("/log/a", 1);
    state.uncompressed_offset = 100;
    let point = derive_resume_point(
        &FileRelation::RotatedPlainToGz,
        Some(&state),
        None,
        999,
        true,
    );
    assert!(
        !matches!(point, ResumePoint::FromZero),
        "RotatedPlainToGz must not restart from zero"
    );
}

// ── invariant: compressed relations never yield PlainOffset ───────────────

#[test]
fn compressed_extended_never_plain_offset() {
    let mut state = blank_state("/log/a", 1);
    state.uncompressed_offset = 42;
    let point = derive_resume_point(
        &FileRelation::CompressedExtended,
        Some(&state),
        None,
        999,
        true,
    );
    assert!(
        !matches!(point, ResumePoint::PlainOffset(_)),
        "CompressedExtended must never yield PlainOffset"
    );
}

#[test]
fn rotated_plain_to_gz_never_plain_offset() {
    let mut state = blank_state("/log/a", 1);
    state.uncompressed_offset = 42;
    let point = derive_resume_point(
        &FileRelation::RotatedPlainToGz,
        Some(&state),
        None,
        999,
        true,
    );
    assert!(
        !matches!(point, ResumePoint::PlainOffset(_)),
        "RotatedPlainToGz must never yield PlainOffset"
    );
}

#[test]
fn head_match_compressed_never_plain_offset() {
    let point =
        derive_resume_point(&FileRelation::HeadMatch(100), None, None, 999, true);
    assert!(
        !matches!(point, ResumePoint::PlainOffset(_)),
        "HeadMatch on a compressed file must never yield PlainOffset"
    );
}

// ── invariant: shrinking files never reuse offsets ────────────────────────

#[test]
fn plain_shrunk_file_classified_unrelated() {
    let mut state = blank_state("/log/a", 1);
    state.uncompressed_size = 500;
    state.uncompressed_offset = 500;
    state.uncompressed_head_fingerprint = Some(0xaaaa);

    let relation = classify_relation(
        Some(&state),
        None,
        "/log/a",
        1,
        100, // shrank to 100
        0,
        false,
        false,
        &fps(Some(0xaaaa)),
    );
    assert_eq!(relation, FileRelation::Unrelated);
    let point = derive_resume_point(&relation, Some(&state), None, 100, false);
    assert_eq!(point, ResumePoint::FromZero);
}

#[test]
fn compressed_shrunk_file_classified_unrelated() {
    let mut state = blank_state("/log/a", 1);
    state.compressed_size = 1000;
    state.uncompressed_offset = 5000;
    state.compressed_head_fingerprint = Some(0xbbbb);

    let relation = classify_relation(
        Some(&state),
        None,
        "/log/a",
        1,
        200, // compressed size shrank
        0,
        true,
        false,
        &Fingerprints {
            compressed_head: Some(0xbbbb),
            uncompressed_head: None,
            uncompressed_size: 0,
        },
    );
    assert_eq!(relation, FileRelation::Unrelated);
    let point = derive_resume_point(&relation, Some(&state), None, 200, true);
    assert_eq!(point, ResumePoint::FromZero);
}

// ── invariant: plain in-progress (same size, not complete) resumes ────────

#[test]
fn plain_in_progress_same_size_resumes_from_offset() {
    let mut state = blank_state("/log/a", 1);
    state.uncompressed_size = 200;
    state.uncompressed_offset = 150;
    state.uncompressed_head_fingerprint = Some(0xcccc);

    let relation = classify_relation(
        Some(&state),
        None,
        "/log/a",
        1,   // same inode
        200, // same size as stored — file didn't grow
        0,
        false,
        false,
        &fps(Some(0xcccc)),
    );
    assert_eq!(relation, FileRelation::PlainExtended);
    let point = derive_resume_point(&relation, Some(&state), None, 200, false);
    assert_eq!(point, ResumePoint::PlainOffset(150));
}

// ── invariant: HeadMatch routes offset correctly by compression ───────────

#[test]
fn head_match_plain_yields_plain_offset() {
    let point = derive_resume_point(&FileRelation::HeadMatch(80), None, None, 200, false);
    assert_eq!(point, ResumePoint::PlainOffset(80));
}

#[test]
fn head_match_compressed_yields_decoded_offset() {
    let point = derive_resume_point(&FileRelation::HeadMatch(80), None, None, 999, true);
    assert_eq!(point, ResumePoint::DecodedOffset(80));
}

// ── invariant: plain offset is clamped to stat_size ──────────────────────

#[test]
fn plain_extended_clamps_offset_to_stat_size() {
    let mut state = blank_state("/log/a", 1);
    state.uncompressed_offset = 999; // stored offset larger than current file size
    let point =
        derive_resume_point(&FileRelation::PlainExtended, Some(&state), None, 100, false);
    assert_eq!(point, ResumePoint::PlainOffset(100));
}

#[test]
fn head_match_plain_clamps_offset_to_stat_size() {
    let point = derive_resume_point(&FileRelation::HeadMatch(500), None, None, 100, false);
    assert_eq!(point, ResumePoint::PlainOffset(100));
}

// ── from one run to the next ──────────────────────────────────────────────

#[test]
fn a_read_file_is_left_alone_until_it_grows() {
    for compression in [CompressionType::Plain, CompressionType::Gz] {
        let path = if compression == CompressionType::Plain { "a.log" } else { "a.log.gz" };
        let write = |lines: &[&str]| match compression {
            CompressionType::Plain => plain(lines),
            _ => gz(lines),
        };
        let raw = write(&["one", "two"]);
        let facts = FileStat {
            inode: 7,
            stat_size: raw.len() as u64,
            mtime_ns: 5,
        };
        let mut states = ParseStates { active: vec![], archive: vec![] };
        let ctx = file_context(path.to_string(), facts, &states);
        let plan = resolve_contents(&ctx, &states, &raw).unwrap().plan.unwrap();
        assert_eq!((plan.offset, plan.skip_decoded_prefix_bytes), (0, 0));

        states.flush(&vec![], &vec![make_file_parse_state(path, &plan, 8, true)]);
        let again = file_context(path.to_string(), facts, &states);
        assert!(matches!(
            resolve_resume_plan(&again, Known::Facts),
            Step::Done(o) if o.plan.is_none() && o.skipped_parse_state.is_none()
        ));

        let raw = write(&["one", "two", "three, with more to be read"]);
        let grown = FileStat { stat_size: raw.len() as u64, mtime_ns: 6, ..facts };
        let ctx = file_context(path.to_string(), grown, &states);
        let plan = resolve_contents(&ctx, &states, &raw).unwrap().plan.unwrap();
        let expected = if compression == CompressionType::Plain { (8, 0) } else { (0, 8) };
        assert_eq!((plan.offset, plan.skip_decoded_prefix_bytes), expected);
    }
}

#[test]
fn an_unfinished_file_is_read_on() {
    let raw = plain(&["one", "two"]);
    let facts = FileStat {
        inode: 7,
        stat_size: 8,
        mtime_ns: 5,
    };
    let mut states = ParseStates { active: vec![], archive: vec![] };
    let ctx = file_context("a.log".to_string(), facts, &states);
    let plan = resolve_contents(&ctx, &states, &raw).unwrap().plan.unwrap();
    states.flush(&vec![], &vec![make_file_parse_state("a.log", &plan, 4, false)]);
    let ctx = file_context("a.log".to_string(), facts, &states);
    let plan = resolve_contents(&ctx, &states, &raw).unwrap().plan.unwrap();
    assert_eq!((plan.offset, plan.skip_decoded_prefix_bytes), (4, 0));
}

#[test]
fn a_second_run_over_unchanged_files_has_no_work() {
    let files: Vec<(String, Vec<u8>)> =
        (0..3).map(|i| (format!("{i}.log"), plain(&["one", "two"][..(i % 2) + 1]))).collect();
    let stat = |i: usize| FileStat {
        inode: 7 + i as u64,
        stat_size: files[i].1.len() as u64,
        mtime_ns: 5,
    };
    let mut states = ParseStates::new();
    let mut pending = Vec::new();
    for (i, (path, raw)) in files.iter().enumerate() {
        let ctx = file_context(path.clone(), stat(i), &states);
        if let Some(plan) = resolve_contents(&ctx, &states, raw).unwrap().plan {
            pending.push(make_file_parse_state(path, &plan, raw.len() as u64, true));
        }
    }
    assert_eq!(pending.len(), 3);
    states.flush(&vec![], &pending);
    assert_eq!(states.active.len(), 3);
    let mut plan = RunPlan::new();
    for (i, (path, _)) in files.iter().enumerate() {
        let ctx = file_context(path.clone(), stat(i), &states);
        plan.add_outcome(i, resolve_cheap(&ctx).unwrap());
    }
    assert!(plan.work.is_empty() && plan.pending.is_empty());
    assert_eq!(plan.files_done, 3);
}

#[test]
fn another_inode_is_not_the_identical_file() {
    let state = ParseState {
        uncompressed_size: 500,
        uncompressed_offset: 500,
        uncompressed_head_fingerprint: Some(9),
        mtime_ns: 3,
        completed: true,
        ..blank_state("access.log", 7)
    };
    let fps = Fingerprints {
        compressed_head: None,
        uncompressed_head: Some(9),
        uncompressed_size: 500,
    };
    let relation = |path: &str, inode: u64| {
        classify_relation(Some(&state), None, path, inode, 500, 3, false, inode != 7, &fps)
    };
    assert_eq!(relation("access.log", 7), FileRelation::Identical);
    assert_eq!(relation("access.log", 8), FileRelation::Unrelated);
    assert_eq!(relation("other.log", 8), FileRelation::AliasPath);
    let seeded = classify_relation(
        Some(&state), Some(&state), "access.log", 8, 500, 3, false, true, &fps,
    );
    assert_eq!(seeded, FileRelation::HeadMatch(500));
}

#[test]
fn a_damaged_bzip2_file_has_no_first_time() {
    let line = log_line("01/Jan/1970:00:00:00 +0000");
    let mut enc = bzip2::write::BzEncoder::new(Vec::new(), bzip2::Compression::default());
    enc.write_all(&plain(&[&line])).unwrap();
    let mut raw = enc.finish().unwrap();
    assert_eq!(read_first_line_ts("access.log.bz2", &raw), Some(0));
    // The checksum of the first block.
    raw[10] ^= 1;
    assert_eq!(read_first_line_ts("access.log.bz2", &raw), None);
}

#[test]
fn a_cut_sample_of_a_compressed_file_has_a_first_time() {
    // Lines that do not compress well, so that the sample is cut in the middle of the data.
    let mut lines = vec![log_line("01/Jan/1970:00:00:07 +0000")];
    let mut x: u64 = 1;
    for i in 0..4000u64 {
        x = x.wrapping_mul(6_364_136_223_846_793_005).wrapping_add(i);
        lines.push(format!("{x:x}{:x}", x.rotate_left(13)));
    }
    let refs: Vec<&str> = lines.iter().map(String::as_str).collect();
    let raw = gz(&refs);
    assert!(raw.len() > 20_000);
    assert_eq!(read_first_line_ts("access.log.gz", &raw[..8192]), Some(7));
    let mut enc = brotli::CompressorWriter::new(Vec::new(), 4096, 5, 20);
    enc.write_all(&plain(&refs)).unwrap();
    let raw = enc.into_inner();
    assert!(raw.len() > 20_000);
    assert_eq!(read_first_line_ts("access.log.br", &raw[..8192]), Some(7));
}
