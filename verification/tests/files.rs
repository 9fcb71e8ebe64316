//! Files: which there are, how they are read, and who reads them.

use std::io::Write;
use std::sync::Arc;
use webstat::aggregator::discovery::{
    compute_seeded_progress, order_by_time, plan_action, plan_message, size_totals, split_patterns,
    trim, unique_paths, SeedFile,
};
use webstat::aggregator::flush::SharedVisitState;
use webstat::aggregator::messages::{HideMask, LoaderMsg, ParserMsg};
use webstat::aggregator::pipeline::{make_file_parse_state, order_skip, PipelineRun, RunPlan};
use webstat::aggregator::ranges::{range_lines, split_ranges};
use webstat::aggregator::resume::{FileResumePlan, ResolutionOutcome};
use webstat::aggregator::workers::{CheckpointGate, Coordinator, Dispatch, Turn, WorkerEvent};
use webstat::aggregator::{Processor, ProcessorConfig};
use webstat::compression::CompressionType;
use webstat::database::{ParseState, ParseStateUpdate};
use webstat::geo::Geo;
use webstat::loader::{file_messages, LineReader, LOADER_BATCH_SIZE};
use webstat::parser::stage::{
    parse_lines, JudgedEntry, ParserStage, RuleOutcome, PARSER_BATCH_SIZE,
};
use webstat::parser::LogFormat;

fn plan(compression: CompressionType, offset: u64, skip: u64, stat_size: u64) -> FileResumePlan {
    FileResumePlan {
        current_inode: 7,
        stat_size,
        mtime_ns: 1,
        compression,
        offset,
        skip_decoded_prefix_bytes: skip,
        uncompressed_size: None,
        compressed_head_fingerprint: Some(11),
        uncompressed_head_fingerprint: Some(22),
        skip_before_ts: None,
    }
}

fn update(filepath: &str, inode: u64) -> ParseStateUpdate {
    ParseStateUpdate {
        filepath: filepath.to_string(),
        inode,
        compressed_size: 0,
        uncompressed_size: 10,
        compressed_head_fingerprint: None,
        uncompressed_head_fingerprint: None,
        compressed_offset: 0,
        uncompressed_offset: 10,
        mtime_ns: 0,
        completed: true,
        earliest_ts: None,
        latest_ts: None,
    }
}

// ── Patterns and paths ────────────────────────────────────────────────────

#[test]
fn patterns_are_split_and_trimmed() {
    assert_eq!(split_patterns(" /a/*.log , ,/b ,"), ["/a/*.log", "/b"]);
    assert!(split_patterns(" , ").is_empty());
    assert_eq!(trim("\t a b\u{a0}\n"), "a b");
    assert_eq!(trim("   "), "");
}

#[test]
fn paths_come_once_and_in_order() {
    let found = vec!["b", "a/2", "a", "b", "a/10", "é"];
    let found: Vec<String> = found.into_iter().map(String::from).collect();
    let mut expected: Vec<String> = found.clone();
    expected.sort();
    expected.dedup();
    assert_eq!(unique_paths(found), expected);
}

#[test]
fn files_are_read_in_the_order_of_time() {
    assert_eq!(order_by_time(&vec![30, -5, 30, 7]), [1, 3, 0, 2]);
    assert!(order_by_time(&vec![]).is_empty());
}

#[test]
fn sizes_add_up_by_compression() {
    let sizes = vec![1, 20, 300];
    assert_eq!(size_totals(&sizes, &vec![false, true, false]), Some((301, 20)));
    assert_eq!(size_totals(&vec![u64::MAX, 1], &vec![true, true]), None);
}

#[test]
fn progress_starts_with_what_was_read() {
    let mut done = ParseState {
        filepath: "a".to_string(),
        inode: 1,
        compressed_size: 0,
        uncompressed_size: 100,
        compressed_head_fingerprint: None,
        uncompressed_head_fingerprint: None,
        compressed_offset: 0,
        uncompressed_offset: 80,
        mtime_ns: 0,
        completed: false,
        earliest_ts: None,
        latest_ts: None,
        skip_before_ts: None,
    };
    let plain = SeedFile { state: Some(done.clone()), inode: 1, size: 70, compressed: false };
    let moved = SeedFile { state: Some(done.clone()), inode: 2, size: 70, compressed: false };
    let new = SeedFile { state: None, inode: 3, size: 70, compressed: false };
    done.completed = true;
    done.compressed_offset = 30;
    let packed = SeedFile { state: Some(done), inode: 1, size: 30, compressed: true };
    let p = compute_seeded_progress(&vec![plain, moved, new, packed]);
    assert_eq!((p.bytes_done, p.gz_comp_done, p.gz_decoded_done), (150, 30, 80));
}

#[test]
fn plans_are_told_in_a_word() {
    let outcome = |p| ResolutionOutcome::resume(p, vec![]);
    let action = |p| plan_action(&outcome(p));
    assert_eq!(action(plan(CompressionType::Gz, 0, 5, 9)), ("resume_compressed_tail", 1));
    assert_eq!(action(plan(CompressionType::Bz2, 3, 0, 9)), ("resume_compressed_from_offset", 1));
    assert_eq!(action(plan(CompressionType::Br, 0, 0, 9)), ("start_compressed_from_zero", 2));
    assert_eq!(action(plan(CompressionType::Plain, 4, 0, 9)), ("resume_plain_from_offset", 1));
    assert_eq!(action(plan(CompressionType::Plain, 0, 0, 9)), ("start_plain_from_zero", 2));
    let skip = ResolutionOutcome::skip(None, vec![]);
    assert_eq!(plan_action(&skip), ("skip_no_work", 3));
}

#[test]
fn plans_are_told_with_their_numbers() {
    let outcome = ResolutionOutcome::resume(
        plan(CompressionType::Gz, 0, 5, 9),
        vec![update("x", 1), update("y", 2)],
    );
    let (text, level) = plan_message("initial", "/log/a.gz", &outcome);
    assert_eq!(level, 1);
    assert_eq!(
        text,
        format!(
            "[plan:initial] file=/log/a.gz action=resume_compressed_tail inode={} compression={:?} start_offset={} skip_decoded_prefix={} stat_size={} uncompressed_size={} retired_states={}",
            7, CompressionType::Gz, 0, 5, 9, 0, 2
        )
    );
    let outcome = ResolutionOutcome::skip(Some(update("/log/a", 4)), vec![]);
    assert_eq!(
        plan_message("initial", "/log/a", &outcome),
        (
            "[plan:initial] file=/log/a action=skip_mark_completed inode=4 is_gz=false planned_offset=10 stat_size=10 uncompressed_size=10 retired_states=0".to_string(),
            1
        )
    );
    let outcome = ResolutionOutcome::skip(None, vec![]);
    assert_eq!(
        plan_message("initial", "/log/a", &outcome).0,
        "[plan:initial] file=/log/a action=skip_no_work retired_states=0"
    );
}

#[test]
fn files_before_the_last_old_one_are_skipped() {
    assert_eq!(order_skip(&vec![Some(1), Some(5), Some(9), Some(20)], 10), 2);
    assert_eq!(order_skip(&vec![Some(1), None, Some(9), None], 10), 2);
    assert_eq!(order_skip(&vec![Some(30), None], 10), 0);
    assert_eq!(order_skip(&vec![], 10), 0);
}

// ── Lines ─────────────────────────────────────────────────────────────────

#[test]
fn lines_are_handed_on_in_batches_with_offsets() {
    let mut reader = LineReader::new(&plan(CompressionType::Plain, 100, 0, 100 + 300 * 3));
    let mut progress = 0;
    let mut seen = Vec::new();
    for _ in 0..300 {
        let step = reader.feed("ab\n".to_string());
        progress += step.progress;
        if let Some(LoaderMsg::Lines { batch, current_offset }) = step.message {
            assert_eq!(batch.len(), LOADER_BATCH_SIZE);
            assert_eq!(current_offset, 100 + 256 * 3);
            seen.extend(batch);
        }
    }
    let end = reader.finish();
    progress += end.progress;
    if let Some(LoaderMsg::Lines { batch, current_offset }) = end.message {
        assert_eq!(current_offset, 1_000);
        seen.extend(batch);
    }
    assert_eq!(seen.len(), 300);
    assert_eq!(seen[0].1, 100);
    assert_eq!(seen[299].1, 100 + 299 * 3);
    assert_eq!(progress, 900);
    assert_eq!(end.final_offset, 1_000);
    assert!(end.completed);
    assert_eq!(end.decoded, None);
}

#[test]
fn decoded_lines_are_skipped_up_to_the_prefix() {
    let mut reader = LineReader::new(&plan(CompressionType::Gz, 0, 6, 50));
    for line in ["one\n", "tw\n", "three\n"] {
        assert!(reader.feed(line.to_string()).message.is_none());
    }
    let end = reader.finish();
    let Some(LoaderMsg::Lines { batch, current_offset }) = end.message else {
        panic!("lines were expected")
    };
    // The line in which the prefix ends is handed on.
    assert_eq!(batch, [("tw\n".to_string(), 4), ("three\n".to_string(), 7)]);
    assert_eq!(current_offset, 13);
    assert_eq!(end.progress, 7);
    assert_eq!(end.decoded, Some((50, 13)));
    assert!(end.completed);
}

#[test]
fn a_plain_file_that_grew_meanwhile_is_not_completed() {
    let mut reader = LineReader::new(&plan(CompressionType::Plain, 0, 0, 10));
    reader.feed("abc\n".to_string());
    let end = reader.finish();
    assert_eq!(end.final_offset, 4);
    assert!(!end.completed);
}

// ── Entries ───────────────────────────────────────────────────────────────

fn log_line(n: usize) -> String {
    format!(
        "1.2.3.4 - - [08/May/2026:14:23:01 +0000] \"GET /{n} HTTP/1.1\" 200 100 \"-\" \"Mozilla/5.0\""
    )
}

fn feed(stage: &mut ParserStage, n: usize, is_bot: bool, rule: RuleOutcome) -> (u64, usize) {
    let entry = LogFormat::Combined.parse(log_line(n)).unwrap();
    let step = stage.take(entry, n as u64, Arc::new("UA".to_string()), is_bot, rule);
    let sent = match step.message {
        Some(ParserMsg::Entries { batch, .. }) => batch.len(),
        _ => 0,
    };
    (step.lines_done, sent)
}

#[test]
fn entries_are_handed_on_in_batches() {
    let mut stage = ParserStage::new(true);
    stage.begin_lines(5_000);
    for n in 1..PARSER_BATCH_SIZE {
        assert_eq!(feed(&mut stage, n, false, RuleOutcome::NoRule), (0, 0));
    }
    assert_eq!(feed(&mut stage, 0, false, RuleOutcome::NoRule), (256, 256));
    assert_eq!(feed(&mut stage, 1, false, RuleOutcome::NoRule), (0, 0));
    let end = stage.end();
    assert_eq!(end.lines_done, 1);
    let Some(ParserMsg::Entries { batch, current_offset }) = end.message else {
        panic!("entries were expected")
    };
    assert_eq!(batch[0].0.entry.path(), "/1");
    assert_eq!(batch[0].1, 1);
    assert_eq!(current_offset, 5_000);
    assert!(stage.end().message.is_none());
}

#[test]
fn bots_and_rules_take_entries_out() {
    let rule = |name: &str| RuleOutcome::Ignore { name: name.to_string() };
    let sample = |keep| RuleOutcome::Sample { name: "s".to_string(), keep };
    let mask = HideMask { urls: true, ..HideMask::none() };
    let mut stage = ParserStage::new(true);
    // A bot goes first, whatever the rules say.
    assert_eq!(feed(&mut stage, 1, true, rule("r")), (1, 0));
    assert_eq!(stage.bot_filtered, 1);
    assert!(stage.rule_stats.is_empty());
    assert_eq!(feed(&mut stage, 2, false, rule("r")), (1, 0));
    assert_eq!(feed(&mut stage, 3, false, rule("r")), (1, 0));
    assert_eq!(feed(&mut stage, 4, false, sample(false)), (1, 0));
    assert_eq!(feed(&mut stage, 5, false, sample(true)), (0, 0));
    let hide = RuleOutcome::Hide { name: "h".to_string(), mask };
    assert_eq!(feed(&mut stage, 6, false, hide), (0, 0));
    let stats: Vec<(String, u64, u64)> =
        stage.rule_stats.iter().map(|(n, s)| (n.clone(), s.ignored, s.hidden)).collect();
    assert_eq!(
        stats,
        [("h".to_string(), 0, 1), ("r".to_string(), 2, 0), ("s".to_string(), 1, 0)]
    );
    let Some(ParserMsg::Entries { batch, .. }) = stage.end().message else {
        panic!("entries were expected")
    };
    let kept: Vec<(&str, bool)> =
        batch.iter().map(|(p, _)| (p.entry.path(), p.hidden.urls)).collect();
    assert_eq!(kept, [("/5", false), ("/6", true)]);
    // Without the filter a bot is like anyone.
    let mut stage = ParserStage::new(false);
    assert_eq!(feed(&mut stage, 1, true, RuleOutcome::NoRule), (0, 0));
    assert!(stage.end().message.is_some());
}

#[test]
fn lines_go_through_the_parser_in_order() {
    let mut lines: Vec<(String, u64)> = (0..300).map(|n| (log_line(n), n as u64 * 10)).collect();
    lines.insert(7, ("not a log line".to_string(), 65));
    let entries: Vec<JudgedEntry> = parse_lines(&lines)
        .into_iter()
        .map(|(entry, offset)| JudgedEntry {
            is_bot: entry.path() == "/3",
            rule: match entry.path() {
                "/5" => RuleOutcome::Ignore { name: "five".to_string() },
                _ => RuleOutcome::NoRule,
            },
            ua_family: Arc::new("UA".to_string()),
            entry,
            offset,
        })
        .collect();
    assert_eq!(entries.len(), 300);
    let mut stage = ParserStage::new(true);
    let (n, start) = stage.pass_on(LoaderMsg::FileStart { file_idx: 4 });
    assert!(n == 0 && matches!(start[..], [ParserMsg::FileStart { file_idx: 4 }]));
    let (n, sent) = stage.take_lines(entries, 3_000);
    assert_eq!(n, 2 + 256);
    let [ParserMsg::Entries { batch, current_offset: 3_000 }] = &sent[..] else {
        panic!("one batch was expected")
    };
    assert_eq!(batch.len(), PARSER_BATCH_SIZE);
    assert_eq!((batch[3].0.entry.path(), batch[3].1), ("/4", 40));
    assert_eq!((stage.bot_filtered, stage.rule_stats[0].1.ignored), (1, 1));
    let done = LoaderMsg::FileDone { file_idx: 4, final_offset: 3_000, completed: true };
    let (n, end) = stage.pass_on(done);
    assert_eq!(n, 42);
    let [ParserMsg::Entries { batch, .. }, ParserMsg::FileDone { completed: true, .. }] = &end[..]
    else {
        panic!("the rest and the end of the file were expected")
    };
    assert_eq!(batch[41].0.entry.path(), "/299");
    let (n, last) = stage.pass_on(LoaderMsg::Done);
    assert!(n == 0 && matches!(last[..], [ParserMsg::Done]));
}

// ── States ────────────────────────────────────────────────────────────────

#[test]
fn the_state_of_a_file_says_how_far_it_was_read() {
    let s = make_file_parse_state("a.gz", &plan(CompressionType::Gz, 0, 0, 40), 90, true);
    assert_eq!((s.compressed_size, s.uncompressed_size), (40, 90));
    assert_eq!((s.compressed_offset, s.uncompressed_offset), (40, 90));
    assert_eq!(s.compressed_head_fingerprint, Some(11));
    let s = make_file_parse_state("a.gz", &plan(CompressionType::Gz, 0, 0, 40), 90, false);
    assert_eq!(s.compressed_offset, 0);
    let s = make_file_parse_state("a", &plan(CompressionType::Plain, 0, 0, 40), 30, true);
    assert_eq!((s.compressed_size, s.uncompressed_size), (0, 40));
    assert_eq!(s.compressed_head_fingerprint, None);
    assert_eq!(s.uncompressed_head_fingerprint, Some(22));
}

#[test]
fn a_checkpoint_stores_the_file_in_between() {
    let mut decided = RunPlan::new();
    decided.add_outcome(0, ResolutionOutcome::skip(Some(update("done", 1)), vec![update("x", 3)]));
    decided.add_outcome(1, ResolutionOutcome::skip(None, vec![update("x", 3), update("x", 4)]));
    decided.skip_file();
    assert_eq!(decided.files_done, 3);
    assert_eq!(decided.retired.len(), 2);
    let mut run = PipelineRun::new("2026-05".to_string(), decided);
    run.file_start("a.log".to_string(), plan(CompressionType::Plain, 40, 0, 90));
    assert_eq!(run.active.as_ref().unwrap().last_offset, 40);
    run.begin_batch(2, 70);
    run.checkpoint();
    let states: Vec<(&str, u64)> =
        run.pending.iter().map(|s| (s.filepath.as_str(), s.uncompressed_offset)).collect();
    assert_eq!(states, [("done", 10), ("a.log", 70)]);
    assert!(!run.pending[1].completed);
    run.totals_stored();
    run.states_stored();
    assert!(run.pending.is_empty() && run.retired.is_empty());
    assert_eq!(run.acc.current_month, "2026-05");
    assert_eq!(run.total, 2);
}

// ── Workers ───────────────────────────────────────────────────────────────

#[test]
fn a_checkpoint_waits_for_every_worker() {
    let mut gate = CheckpointGate::new(2);
    let (mut a, mut b) = (0u64, 0u64);
    assert!(!gate.pause_if_requested(&mut a));
    gate.request_checkpoint();
    assert!(!gate.all_paused());
    assert!(gate.pause_if_requested(&mut a));
    assert!(gate.pause_if_requested(&mut a));
    assert!(!gate.all_paused());
    assert!(gate.pause_if_requested(&mut b));
    assert!(gate.all_paused());
    gate.resume();
    assert!(!gate.pause_if_requested(&mut a));
    gate.request_checkpoint();
    assert!(gate.pause_if_requested(&mut a));
    gate.worker_exiting();
    assert!(gate.all_paused());
}

#[test]
fn every_file_goes_through_the_workers() {
    let mut d = Dispatch::new();
    d.add_file(ResolutionOutcome::resume(plan(CompressionType::Plain, 0, 0, 9), vec![]));
    d.add_file(ResolutionOutcome::skip(Some(update("b", 2)), vec![update("x", 3)]));
    d.add_file(ResolutionOutcome::resume(
        plan(CompressionType::Plain, 5, 0, 9),
        vec![update("x", 3), update("y", 4)],
    ));
    assert_eq!(d.worker_count(8), 2);
    assert_eq!(d.worker_count(0), 1);
    assert_eq!(d.retired.len(), 2);
    let (first, _) = d.take_file().unwrap();
    let (third, p) = d.take_file().unwrap();
    assert_eq!((first, third, p.offset), (0, 2, 5));
    assert!(d.take_file().is_none());
    d.file_back(first, true, 10, vec![update("a", 1)]);
    d.file_back(third, false, 5, vec![]);
    assert!(!d.is_finished());
    assert_eq!(d.next_paused(), Some(2));
    d.requeue(ResolutionOutcome::resume(plan(CompressionType::Plain, 7, 0, 9), vec![]));
    let (again, p) = d.take_file().unwrap();
    assert_eq!((again, p.offset), (2, 7));
    d.file_back(again, true, 1, vec![]);
    assert!(d.is_finished());
    assert_eq!(d.total, 16);
    assert_eq!(d.pending.len(), 2);
    d.states_stored();
    assert!(d.pending.is_empty());
}

#[test]
fn workers_share_what_they_saw_of_visitors() {
    let config = ProcessorConfig {
        top_n: 10,
        bot_filter: false,
        enable_top_urls: true,
        enable_top_sites: true,
        enable_top_refs: true,
        enable_top_agents: true,
    };
    let mut p = Processor::new(Geo::new(None), config);
    let key = |n: u64| (1u8, 0u64, n, String::new());
    p.note_visit(&key(1), 100);
    p.note_visit(&key(2), 900);
    let mut shared = SharedVisitState {
        last_seen: ahash::AHashMap::new(),
        max_seen_ts: 500,
        dirty: ahash::AHashMap::new(),
    };
    shared.dirty.insert(key(1), 500);
    shared.dirty.insert(key(2), 300);
    shared.dirty.insert(key(3), 400);
    p.absorb_shared_visit(&mut shared);
    assert!(shared.dirty.is_empty());
    assert_eq!(p.visit_max_seen_ts, 900);
    assert_eq!(p.visit_last_seen.get(&key(1)), Some(&500));
    assert_eq!(p.visit_last_seen.get(&key(2)), Some(&900));
    assert_eq!(p.visit_state_dirty.get(&key(3)), Some(&400));
}

fn worker() -> Processor {
    let config = ProcessorConfig {
        top_n: 10,
        bot_filter: false,
        enable_top_urls: true,
        enable_top_sites: true,
        enable_top_refs: true,
        enable_top_agents: true,
    };
    Processor::new(Geo::new(None), config)
}

#[test]
fn cached_referrer_hosts_are_found_again() {
    let mut p = worker();
    let url = "https://example.com/path?q=1";
    assert_eq!(p.extract_host(url).unwrap().as_str(), "example.com");
    assert_eq!(p.extract_host(url).unwrap().as_str(), "example.com");
    assert_eq!(p.referer_cache.len(), 1);
    p.clear_referer_cache();
    assert!(p.referer_cache.is_empty());
    assert_eq!(p.extract_host(url).unwrap().as_str(), "example.com");
}

#[test]
fn visits_go_from_worker_to_worker() {
    let key = |n: u64| (1u8, 0u64, n, String::new());
    let mut main = worker();
    main.note_visit(&key(1), 10_000);
    let mut shared = SharedVisitState::of(&main);
    assert!(shared.dirty.is_empty());
    assert_eq!(shared.max_seen_ts, 10_000);

    let (mut a, mut b) = (worker(), worker());
    a.start_from_shared(&shared);
    assert!(!a.note_visit(&key(1), 10_100));
    assert!(a.note_visit(&key(2), 12_000));
    shared.collect(&mut a);
    assert!(a.visit_state_dirty.is_empty());
    assert_eq!(shared.max_seen_ts, 12_000);
    b.start_from_shared(&shared);
    assert!(!b.note_visit(&key(2), 11_000));
    shared.collect(&mut b);
    assert_eq!(shared.last_seen.get(&key(2)), Some(&12_000));

    main.absorb_shared_visit(&mut shared);
    assert_eq!(main.visit_max_seen_ts, 12_000);
    assert_eq!(main.visit_last_seen.get(&key(1)), Some(&10_100));
    assert_eq!(main.visit_state_dirty.get(&key(2)), Some(&12_000));
    shared.prune(&main);
    assert_eq!(shared.last_seen.get(&key(1)), None);
    assert_eq!(shared.last_seen.get(&key(2)), Some(&12_000));
}

#[test]
fn a_checkpoint_interrupts_the_workers_and_lets_them_go_on() {
    let mut d = Dispatch::new();
    for offset in [1, 2, 3] {
        d.add_file(ResolutionOutcome::resume(
            plan(CompressionType::Plain, offset, 0, 9),
            vec![],
        ));
    }
    let mut c = Coordinator::new(d, 2, Some(60));
    assert_eq!(c.gate.active_workers, 2);
    let (a, _) = c.dispatch.take_file().unwrap();
    let (b, _) = c.dispatch.take_file().unwrap();
    assert_eq!(c.take_event(WorkerEvent::Nothing), Turn::Wait);
    assert!(!c.begin_checkpoint(59));
    assert!(c.begin_checkpoint(60));
    assert!(!c.begin_checkpoint(60));
    assert!(c.gate.requested);
    let back = |file_idx: usize, file_completed: bool| WorkerEvent::Back {
        file_idx,
        file_completed,
        lines: 4,
        states: vec![],
    };
    assert_eq!(c.take_event(back(b, true)), Turn::Drain);
    assert_eq!(c.drain_event(back(a, false)), Turn::Drain);
    assert_eq!(c.drain_event(WorkerEvent::Nothing), Turn::Store);
    c.dispatch.states_stored();
    assert_eq!(c.dispatch.next_paused(), Some(a));
    c.dispatch.requeue(ResolutionOutcome::skip(Some(update("a", 1)), vec![]));
    assert!(c.dispatch.plans[a].is_none());
    assert_eq!(c.end_checkpoint(), Turn::Wait);
    assert!(!c.gate.requested && !c.checkpointing);
    let (last, p) = c.dispatch.take_file().unwrap();
    assert_eq!((last, p.offset), (2, 3));
    assert_eq!(c.take_event(back(last, true)), Turn::Finish);
    assert_eq!((c.dispatch.completed_files, c.dispatch.total), (3, 12));
    c.release();
    assert!(!c.gate.requested);
    assert_eq!(c.gate.generation, 2);
}

#[test]
fn a_worker_that_fails_ends_the_run() {
    let mut d = Dispatch::new();
    d.add_file(ResolutionOutcome::resume(plan(CompressionType::Plain, 0, 0, 9), vec![]));
    let mut c = Coordinator::new(d, 1, None);
    assert!(!c.begin_checkpoint(u64::MAX));
    assert_eq!(c.take_event(WorkerEvent::Failed), Turn::Abort);
    assert!(!c.gate.requested);
    assert_eq!(c.drain_event(WorkerEvent::Failed), Turn::Abort);
    assert_eq!(c.take_event(WorkerEvent::Gone), Turn::Finish);
}

#[test]
fn a_file_is_cut_into_parts_that_cover_it() {
    let parts = split_ranges(10, 110, 3);
    assert_eq!(parts, [(10, 44), (44, 78), (78, 110)]);
    assert!(split_ranges(50, 50, 4).is_empty());
    assert_eq!(split_ranges(0, 2, 0), [(0, 2)]);
}

#[test]
fn each_line_belongs_to_one_part() {
    let text = b"first\nsecond line\n\nlast";
    let mut lines = Vec::new();
    for (from, to) in split_ranges(0, text.len() as u64, 4) {
        for (a, b) in range_lines(text, from as usize, to as usize) {
            lines.push(&text[a..b]);
        }
    }
    let expected: Vec<&[u8]> = text.split_inclusive(|b| *b == b'\n').collect();
    assert_eq!(lines, expected);
}

#[test]
fn checkpoints_are_due_after_the_interval() {
    let config = ProcessorConfig {
        top_n: 10,
        bot_filter: false,
        enable_top_urls: true,
        enable_top_sites: true,
        enable_top_refs: true,
        enable_top_agents: true,
    };
    let mut p = Processor::new(Geo::new(None), config);
    assert!(!p.checkpoint_due(u64::MAX));
    p.set_checkpoint_interval_minutes(2);
    assert!(!p.checkpoint_due(119));
    assert!(p.checkpoint_due(120));
    p.set_checkpoint_interval_minutes(u64::MAX);
    assert_eq!(p.checkpoint_every_secs, Some(u64::MAX));
    p.set_checkpoint_interval_minutes(0);
    assert!(!p.checkpoint_due(u64::MAX));
}

#[test]
fn lines_are_the_same_wherever_a_file_is_cut() {
    let text = b"one\ntwo\n\nthree, longer\nlast";
    let whole = range_lines(text, 0, text.len());
    assert_eq!(whole, vec![(0, 4), (4, 8), (8, 9), (9, 23), (23, 27)]);
    for a in 1..text.len() - 1 {
        for b in a + 1..text.len() {
            let mut parts = range_lines(text, 0, a);
            parts.extend(range_lines(text, a, b));
            parts.extend(range_lines(text, b, text.len()));
            assert_eq!(parts, whole, "cut at {a} and {b}");
        }
    }
}

/// The lines of a message, and the offset after them.
fn lines_of(m: &LoaderMsg) -> (Vec<(&str, u64)>, u64) {
    match m {
        LoaderMsg::Lines { batch, current_offset } => {
            (batch.iter().map(|(l, o)| (l.as_str(), *o)).collect(), *current_offset)
        }
        other => panic!("{other:?}"),
    }
}

#[test]
fn a_file_is_read_from_its_bytes() {
    let raw = b"one\ntwo\nlast";
    let r = file_messages(raw, &plan(CompressionType::Plain, 4, 0, 12));
    assert!(r.messages.is_empty());
    let end = r.end.unwrap();
    assert_eq!((end.final_offset, end.completed, end.decoded), (12, true, None));
    assert_eq!(end.progress, 8);
    assert_eq!(lines_of(&end.message.unwrap()), (vec![("two\n", 4), ("last", 8)], 12));

    // Past the end there is nothing; a line that is not text ends the reading.
    let end = file_messages(raw, &plan(CompressionType::Plain, 20, 0, 20)).end.unwrap();
    assert!(end.message.is_none() && end.final_offset == 20);
    assert!(file_messages(b"ok\n\xff\n", &plan(CompressionType::Plain, 0, 0, 5)).end.is_none());
}

#[test]
fn a_compressed_file_is_read_behind_its_prefix() {
    let text: String = (0..300).map(|i| format!("line {i:03}\n")).collect();
    let mut enc = flate2::write::GzEncoder::new(Vec::new(), flate2::Compression::default());
    enc.write_all(text.as_bytes()).unwrap();
    let raw = enc.finish().unwrap();
    let size = raw.len() as u64;
    let r = file_messages(&raw, &plan(CompressionType::Gz, 0, 18, size));
    assert_eq!(r.messages.len(), 1);
    let (lines, offset) = lines_of(&r.messages[0]);
    assert_eq!((lines.len(), lines[0]), (LOADER_BATCH_SIZE, ("line 002\n", 18)));
    assert_eq!((offset, r.progress), (18 + 256 * 9, 256 * 9));
    let end = r.end.unwrap();
    assert_eq!((end.final_offset, end.completed, end.decoded), (2700, true, Some((size, 2700))));
    assert_eq!(lines_of(&end.message.unwrap()).0[0], ("line 258\n", 258 * 9));

    // What is cut off cannot be read to its end.
    assert!(file_messages(&raw[..raw.len() - 10], &plan(CompressionType::Gz, 0, 0, 9)).end.is_none());
}

