//! What is stored of files, and how it is found.

use webstat::database::parse_state::{merge_state, ParseStates};
use webstat::database::{ParseState, ParseStateUpdate};

#[test]
fn set_parse_state_roundtrips_fields() {
    let mut db = ParseStates { active: vec![], archive: vec![] };

    db.set_parse_state(&ParseState {
        filepath: "access.log".into(),
        inode: 42,
        compressed_size: 789,
        uncompressed_size: 456,
        compressed_head_fingerprint: Some(11),
        uncompressed_head_fingerprint: Some(22),
        compressed_offset: 123,
        uncompressed_offset: 456,
        mtime_ns: 1_700_000_000,
        completed: true,
        earliest_ts: Some(1_700_000_000),
        latest_ts: Some(1_700_086_400),
        skip_before_ts: None,
    });

    let state = db
        .get_parse_state("access.log")
        .expect("parse state exists");
    assert_eq!(state.inode, 42);
    assert_eq!(state.compressed_size, 789);
    assert_eq!(state.uncompressed_size, 456);
    assert_eq!(state.compressed_head_fingerprint, Some(11));
    assert_eq!(state.uncompressed_head_fingerprint, Some(22));
    assert_eq!(state.compressed_offset, 123);
    assert_eq!(state.uncompressed_offset, 456);
    assert_eq!(state.mtime_ns, 1_700_000_000);
    assert!(state.completed);
}

// ── parse state lookup helpers ────────────────────────────────────────────

fn bare_parse_state(filepath: &str, inode: u64) -> ParseState {
    ParseState {
        filepath: filepath.into(),
        inode,
        compressed_size: 0,
        uncompressed_size: 0,
        compressed_head_fingerprint: None,
        uncompressed_head_fingerprint: None,
        compressed_offset: 0,
        uncompressed_offset: 0,
        mtime_ns: 0,
        completed: false,
        earliest_ts: None,
        latest_ts: None,
        skip_before_ts: None,
    }
}

// ── get_parse_state_by_inode ──────────────────────────────────────────────

#[test]
fn get_parse_state_by_inode_finds_active_entry() {
    let mut db = ParseStates { active: vec![], archive: vec![] };
    db.set_parse_state(&bare_parse_state("a.log", 99));
    let s = db.get_parse_state_by_inode(99).expect("should find");
    assert_eq!(s.filepath, "a.log");
    assert_eq!(s.inode, 99);
}

#[test]
fn get_parse_state_by_inode_falls_back_to_archive() {
    let mut db = ParseStates { active: vec![], archive: vec![] };
    db.archive.push(bare_parse_state("arch.log", 77));
    let s = db.get_parse_state_by_inode(77).expect("should find in archive");
    assert_eq!(s.filepath, "arch.log");
}

#[test]
fn get_parse_state_by_inode_returns_none_when_absent() {
    let db = ParseStates { active: vec![], archive: vec![] };
    assert!(db.get_parse_state_by_inode(999).is_none());
}

#[test]
fn get_parse_state_by_inode_prefers_active_over_archive() {
    let mut db = ParseStates { active: vec![], archive: vec![] };
    db.set_parse_state(&bare_parse_state("active.log", 55));
    db.archive.push(bare_parse_state("archive.log", 55));
    let s = db.get_parse_state_by_inode(55).expect("should find");
    assert_eq!(s.filepath, "active.log", "active entry should take priority");
}

// ── find_completed_by_uncompressed_identity ───────────────────────────────

#[test]
fn find_completed_by_uncompressed_identity_true_on_match() {
    let mut db = ParseStates { active: vec![], archive: vec![] };
    db.set_parse_state(&ParseState {
        uncompressed_head_fingerprint: Some(0xABCD),
        uncompressed_size: 1024,
        completed: true,
        ..bare_parse_state("plain.log", 1)
    });
    assert!(db.find_completed_by_uncompressed_identity(0xABCD, 1024));
}

#[test]
fn find_completed_by_uncompressed_identity_false_when_incomplete() {
    let mut db = ParseStates { active: vec![], archive: vec![] };
    db.set_parse_state(&ParseState {
        uncompressed_head_fingerprint: Some(0xABCD),
        uncompressed_size: 1024,
        completed: false,
        ..bare_parse_state("plain.log", 1)
    });
    assert!(!db.find_completed_by_uncompressed_identity(0xABCD, 1024));
}

#[test]
fn find_completed_by_uncompressed_identity_false_wrong_size() {
    let mut db = ParseStates { active: vec![], archive: vec![] };
    db.set_parse_state(&ParseState {
        uncompressed_head_fingerprint: Some(0xABCD),
        uncompressed_size: 1024,
        completed: true,
        ..bare_parse_state("plain.log", 1)
    });
    assert!(!db.find_completed_by_uncompressed_identity(0xABCD, 2048));
}

#[test]
fn find_completed_by_uncompressed_identity_searches_archive() {
    let mut db = ParseStates { active: vec![], archive: vec![] };
    db.archive.push(ParseState {
        uncompressed_head_fingerprint: Some(0xDEAD),
        uncompressed_size: 512,
        completed: true,
        ..bare_parse_state("old.log", 2)
    });
    assert!(db.find_completed_by_uncompressed_identity(0xDEAD, 512));
}

// ── find_completed_by_compressed_identity ────────────────────────────────

#[test]
fn find_completed_by_compressed_identity_returns_uncompressed_size_on_match() {
    let mut db = ParseStates { active: vec![], archive: vec![] };
    db.set_parse_state(&ParseState {
        compressed_head_fingerprint: Some(0x1234),
        compressed_size: 300,
        uncompressed_size: 900,
        completed: true,
        ..bare_parse_state("file.log.gz", 3)
    });
    assert_eq!(
        db.find_completed_by_compressed_identity(0x1234, 300),
        Some(900)
    );
}

#[test]
fn find_completed_by_compressed_identity_none_when_incomplete() {
    let mut db = ParseStates { active: vec![], archive: vec![] };
    db.set_parse_state(&ParseState {
        compressed_head_fingerprint: Some(0x1234),
        compressed_size: 300,
        uncompressed_size: 900,
        completed: false,
        ..bare_parse_state("file.log.gz", 3)
    });
    assert!(db.find_completed_by_compressed_identity(0x1234, 300).is_none());
}

#[test]
fn find_completed_by_compressed_identity_none_wrong_size() {
    let mut db = ParseStates { active: vec![], archive: vec![] };
    db.set_parse_state(&ParseState {
        compressed_head_fingerprint: Some(0x1234),
        compressed_size: 300,
        uncompressed_size: 900,
        completed: true,
        ..bare_parse_state("file.log.gz", 3)
    });
    assert!(db.find_completed_by_compressed_identity(0x1234, 999).is_none());
}

#[test]
fn find_completed_by_compressed_identity_searches_archive() {
    let mut db = ParseStates { active: vec![], archive: vec![] };
    db.archive.push(ParseState {
        compressed_head_fingerprint: Some(0xBEEF),
        compressed_size: 200,
        uncompressed_size: 600,
        completed: true,
        ..bare_parse_state("old.log.gz", 4)
    });
    assert_eq!(
        db.find_completed_by_compressed_identity(0xBEEF, 200),
        Some(600)
    );
}

// ── find_parse_state_by_uncompressed_head_fingerprint ────────────────────

#[test]
fn find_by_uncompressed_head_prefers_completed_over_incomplete() {
    let mut db = ParseStates { active: vec![], archive: vec![] };
    db.set_parse_state(&ParseState {
        uncompressed_head_fingerprint: Some(0xCAFE),
        uncompressed_offset: 100,
        completed: false,
        ..bare_parse_state("in-progress.log", 10)
    });
    db.archive.push(ParseState {
        uncompressed_head_fingerprint: Some(0xCAFE),
        uncompressed_offset: 50,
        completed: true,
        ..bare_parse_state("done.log", 11)
    });
    let s = db.find_parse_state_by_uncompressed_head_fingerprint(0xCAFE).expect("found");
    assert_eq!(s.filepath, "done.log", "completed entry should be preferred");
}

#[test]
fn find_by_uncompressed_head_prefers_higher_offset_among_incomplete() {
    let mut db = ParseStates { active: vec![], archive: vec![] };
    db.set_parse_state(&ParseState {
        uncompressed_head_fingerprint: Some(0xCAFE),
        uncompressed_offset: 200,
        completed: false,
        ..bare_parse_state("bigger.log", 12)
    });
    db.archive.push(ParseState {
        uncompressed_head_fingerprint: Some(0xCAFE),
        uncompressed_offset: 50,
        completed: false,
        ..bare_parse_state("smaller.log", 13)
    });
    let s = db.find_parse_state_by_uncompressed_head_fingerprint(0xCAFE).expect("found");
    assert_eq!(s.filepath, "bigger.log", "higher offset should win");
}

// ── find_parse_state_by_compressed_head_fingerprint ──────────────────────

#[test]
fn find_by_compressed_head_prefers_completed_over_incomplete() {
    let mut db = ParseStates { active: vec![], archive: vec![] };
    db.set_parse_state(&ParseState {
        compressed_head_fingerprint: Some(0xF00D),
        compressed_offset: 100,
        completed: false,
        ..bare_parse_state("in-progress.log.gz", 20)
    });
    db.archive.push(ParseState {
        compressed_head_fingerprint: Some(0xF00D),
        compressed_offset: 50,
        completed: true,
        ..bare_parse_state("done.log.gz", 21)
    });
    let s = db.find_parse_state_by_compressed_head_fingerprint(0xF00D).expect("found");
    assert_eq!(s.filepath, "done.log.gz", "completed entry should be preferred");
}

#[test]
fn find_by_compressed_head_prefers_higher_offset_among_incomplete() {
    let mut db = ParseStates { active: vec![], archive: vec![] };
    db.set_parse_state(&ParseState {
        compressed_head_fingerprint: Some(0xF00D),
        compressed_offset: 300,
        completed: false,
        ..bare_parse_state("big.log.gz", 22)
    });
    db.archive.push(ParseState {
        compressed_head_fingerprint: Some(0xF00D),
        compressed_offset: 100,
        completed: false,
        ..bare_parse_state("small.log.gz", 23)
    });
    let s = db.find_parse_state_by_compressed_head_fingerprint(0xF00D).expect("found");
    assert_eq!(s.filepath, "big.log.gz", "higher offset should win");
}

fn update(filepath: &str, inode: u64) -> ParseStateUpdate {
    ParseStateUpdate::from_state(&bare_parse_state(filepath, inode))
}

#[test]
fn a_stored_state_is_found() {
    let mut db = ParseStates { active: vec![], archive: vec![] };
    let mut u = update("a.log", 7);
    u.uncompressed_offset = 42;
    u.uncompressed_head_fingerprint = Some(9);
    db.store(&u);
    assert_eq!(db.get_parse_state("a.log").unwrap().uncompressed_offset, 42);
    assert_eq!(db.get_parse_state_by_inode(7).unwrap().filepath, "a.log");
    assert!(db.get_parse_state("b.log").is_none());
    // One state per path: the later one counts.
    let mut v = update("a.log", 8);
    v.uncompressed_offset = 50;
    db.store(&v);
    assert_eq!(db.active.len(), 1);
    assert_eq!(db.get_parse_state("a.log").unwrap().inode, 8);
    assert!(db.get_parse_state_by_inode(7).is_none());
}

#[test]
fn times_of_entries_are_kept_where_none_are_new() {
    let mut earlier = bare_parse_state("a.log", 1);
    earlier.earliest_ts = Some(10);
    earlier.latest_ts = Some(20);
    earlier.skip_before_ts = Some(5);
    let mut u = update("a.log", 1);
    u.latest_ts = Some(30);
    let merged = merge_state(Some(&earlier), &u);
    assert_eq!(merged.earliest_ts, Some(10));
    assert_eq!(merged.latest_ts, Some(30));
}

#[test]
fn a_retired_state_is_found_by_its_inode() {
    let mut db = ParseStates { active: vec![], archive: vec![] };
    db.store(&update("a.log", 7));
    db.retire(&update("a.log", 7));
    assert_eq!(db.archive.len(), 1);
    assert_eq!(db.get_parse_state_by_inode(7).unwrap().filepath, "a.log");
    // Retired once more, it stays one.
    db.retire(&update("a.log", 7));
    assert_eq!(db.archive.len(), 1);
}

#[test]
fn a_flush_retires_first_and_stores_then() {
    let mut db = ParseStates { active: vec![], archive: vec![] };
    db.store(&update("a.log", 7));
    let mut now = update("a.log", 7);
    now.uncompressed_offset = 5;
    db.flush(&vec![update("a.log", 7)], &vec![now]);
    assert_eq!(db.get_parse_state("a.log").unwrap().uncompressed_offset, 5);
    assert_eq!(db.archive.len(), 1);
    assert_eq!(db.archive[0].uncompressed_offset, 0);
}
