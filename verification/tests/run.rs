//! Whole runs over log files, from their bytes to the tables.

use flate2::{write::GzEncoder, Compression};
use std::collections::BTreeMap;
use std::io::Write;
use std::sync::Arc;
use webstat::accumulators::HourlyStats;
use webstat::aggregator::discovery::order_by_time;
use webstat::aggregator::messages::{HideMask, LoaderMsg, ParsedEntry, ParserMsg};
use webstat::aggregator::pipeline::{EntryStep, PipelineRun, RunPlan};
use webstat::aggregator::resolve::{file_context, resolve_contents};
use webstat::aggregator::resume::{read_first_line_ts, FileStat};
use webstat::aggregator::{Processor, ProcessorConfig};
use webstat::compression::CompressionType;
use webstat::database::ips::unique_count;
use webstat::database::parse_state::ParseStates;
use webstat::database::writer::{
    add_count, add_hour, add_pair, day_groups, flushed_days, merge_day, merge_last_seen,
};
use webstat::database::{ParseState, ParseStateUpdate, VisitStateKey, VisitStateUpdate};
use webstat::fingerprint::decode;
use webstat::geo::Geo;
use webstat::loader::LineReader;
use webstat::parser::stage::{ParserStage, RuleOutcome};
use webstat::parser::LogFormat;

// ── Log files ─────────────────────────────────────────────────────────────

/// A log file as the file system has it.
#[derive(Clone)]
struct Disk {
    path: String,
    inode: u64,
    mtime_ns: i64,
    bytes: Vec<u8>,
}

fn sample_line(ip: &str, path: &str, status: u16, bytes: u64) -> String {
    format!(
        r#"{ip} - frank [08/May/2026:14:23:01 +0000] "GET {path} HTTP/1.1" {status} {bytes} "https://example.com/" "Mozilla/5.0""#,
    )
}

fn sample_lines(prefix: &str, count: usize) -> Vec<String> {
    (0..count)
        .map(|idx| {
            sample_line("1.2.3.4", &format!("/{prefix}-{idx}.html"), 200, 1_000 + idx as u64)
        })
        .collect()
}

fn sample_line_at(
    ip: &str,
    timestamp: &str,
    path: &str,
    status: u16,
    bytes: u64,
    referer: &str,
    user_agent: &str,
) -> String {
    format!(
        r#"{ip} - frank [{timestamp}] "GET {path} HTTP/1.1" {status} {bytes} "{referer}" "{user_agent}""#,
    )
}

fn text_of(lines: &[String]) -> Vec<u8> {
    let mut out = Vec::new();
    for line in lines {
        out.extend_from_slice(line.as_bytes());
        out.push(b'\n');
    }
    out
}

fn plain_file(path: &str, inode: u64, lines: &[String]) -> Disk {
    Disk { path: path.to_string(), inode, mtime_ns: 1_778_250_000_000_000_000, bytes: text_of(lines) }
}

fn append_plain(file: &mut Disk, lines: &[String]) {
    file.bytes.extend_from_slice(&text_of(lines));
    file.mtime_ns += 1;
}

fn gzip_member(lines: &[String]) -> Vec<u8> {
    let mut encoder = GzEncoder::new(Vec::new(), Compression::default());
    encoder.write_all(&text_of(lines)).unwrap();
    encoder.finish().unwrap()
}

fn gzip_file(path: &str, inode: u64, lines: &[String]) -> Disk {
    Disk {
        path: path.to_string(),
        inode,
        mtime_ns: 1_778_250_000_000_000_000,
        bytes: gzip_member(lines),
    }
}

// ── A site: what is stored between runs, and the run itself ───────────────

struct Site {
    config: ProcessorConfig,
    hide: Option<&'static str>,
    states: ParseStates,
    visits: BTreeMap<(u8, u64, u64, String), i64>,
    month: String,
    finalized: Vec<String>,
    hourly: BTreeMap<(String, u8), HourlyStats>,
    urls: BTreeMap<(String, String), (u64, u64)>,
    hosts: usize,
    refs: BTreeMap<(String, String), u64>,
    agents: BTreeMap<(String, String), (u64, u64)>,
    status: BTreeMap<(String, u16), u64>,
    days: BTreeMap<String, Vec<(u8, u64, Vec<u8>)>>,
}

fn config(enable_top_agents: bool) -> ProcessorConfig {
    ProcessorConfig {
        top_n: 20,
        bot_filter: false,
        enable_top_urls: true,
        enable_top_sites: true,
        enable_top_refs: true,
        enable_top_agents,
    }
}

impl Site {
    fn new(config: ProcessorConfig) -> Site {
        Site {
            config,
            hide: None,
            states: ParseStates { active: vec![], archive: vec![] },
            visits: BTreeMap::new(),
            month: String::new(),
            finalized: vec![],
            hourly: BTreeMap::new(),
            urls: BTreeMap::new(),
            hosts: 0,
            refs: BTreeMap::new(),
            agents: BTreeMap::new(),
            status: BTreeMap::new(),
            days: BTreeMap::new(),
        }
    }

    fn hits(&self) -> u64 {
        self.hourly.values().map(|h| h.hits).sum()
    }

    fn store(
        &mut self,
        processor: &mut Processor,
        run: &PipelineRun,
        states: &Vec<ParseStateUpdate>,
    ) {
        let plan = processor.flush_run(&run.acc, states.len(), run.retired.len());
        self.states.flush(&run.retired, states);
        let Some(plan) = plan else { return };
        let month = run.acc.current_month.clone();
        for (k, h) in plan.rows.hourly {
            let sum = add_hour(self.hourly.get(&k).copied(), h).unwrap();
            self.hourly.insert(k, sum);
        }
        for (url, p) in plan.rows.urls {
            let k = (month.clone(), url);
            let sum = add_pair(self.urls.get(&k).copied(), p).unwrap();
            self.urls.insert(k, sum);
        }
        self.hosts += plan.rows.hosts.len();
        for (r, n) in plan.rows.refs {
            let k = (month.clone(), r);
            let sum = add_count(self.refs.get(&k).copied(), n).unwrap();
            self.refs.insert(k, sum);
        }
        for (a, p) in plan.rows.agents {
            let k = (month.clone(), a);
            let sum = add_pair(self.agents.get(&k).copied(), p).unwrap();
            self.agents.insert(k, sum);
        }
        for (s, n) in plan.rows.status_codes {
            let k = (month.clone(), s);
            let sum = add_count(self.status.get(&k).copied(), n).unwrap();
            self.status.insert(k, sum);
        }
        for day in flushed_days(&run.acc.daily_ips) {
            for (kind, hi) in day_groups(&run.acc.daily_ips, &day) {
                let rows = self.days.entry(day.clone()).or_default();
                let at = rows.iter().position(|r| r.0 == kind && r.1 == hi);
                let existing = at.map(|i| rows[i].2.clone());
                let (_, blob) = merge_day(&run.acc.daily_ips, &day, kind, hi, existing).unwrap();
                match at {
                    Some(i) => rows[i].2 = blob,
                    None => rows.push((kind, hi, blob)),
                }
            }
        }
        for v in plan.visit_states {
            let k = (v.key.ip_kind, v.key.ip_hi, v.key.ip_lo, v.key.ip_text);
            let ts = merge_last_seen(self.visits.get(&k).copied(), v.last_seen_ts);
            self.visits.insert(k, ts);
        }
        if let Some(cutoff) = plan.visit_state_prune_before_ts {
            self.visits.retain(|_, ts| *ts >= cutoff);
        }
        self.month = month;
    }

    fn entries(&mut self, processor: &mut Processor, run: &mut PipelineRun, msg: ParserMsg) {
        let ParserMsg::Entries { batch, current_offset } = msg else {
            panic!("entries were expected")
        };
        run.begin_batch(batch.len() as u64, current_offset);
        for (parsed, offset) in &batch {
            match run.entry_step(parsed.entry.time_str(), parsed.entry.month_num, *offset) {
                EntryStep::Count => {}
                EntryStep::FirstMonth { month } => run.set_month(month),
                EntryStep::NewMonth { states, month } => {
                    run.trim(processor.config.top_n);
                    self.store(processor, run, &states);
                    run.states_stored();
                    let end = run.next_month(month).unwrap();
                    self.finalized.extend(end.finalize);
                }
            }
            assert!(run.count_entry(processor, parsed));
        }
    }

    fn lines(
        &mut self,
        processor: &mut Processor,
        run: &mut PipelineRun,
        stage: &mut ParserStage,
        msg: LoaderMsg,
    ) {
        let LoaderMsg::Lines { batch, current_offset } = msg else {
            panic!("lines were expected")
        };
        stage.begin_lines(current_offset);
        for (line, offset) in batch {
            let Some(entry) = LogFormat::Combined.parse(line) else { continue };
            let rule = match self.hide {
                Some(prefix) if entry.path().starts_with(prefix) => RuleOutcome::Hide {
                    name: "hide".to_string(),
                    mask: HideMask {
                        urls: true,
                        hosts: true,
                        refs: true,
                        agents: true,
                        countries: true,
                    },
                },
                _ => RuleOutcome::NoRule,
            };
            let family = Arc::new("Mozilla".to_string());
            let step = stage.take(entry, offset, family, false, rule);
            if let Some(msg) = step.message {
                self.entries(processor, run, msg);
            }
        }
    }

    /// One run over the files, in a process of its own.
    fn process(&mut self, files: &[Disk]) -> u64 {
        let mut processor = Processor::new(Geo::new(None), self.config);
        processor.load_visit_state(
            self.visits
                .iter()
                .map(|(k, ts)| VisitStateUpdate {
                    key: VisitStateKey {
                        ip_kind: k.0,
                        ip_hi: k.1,
                        ip_lo: k.2,
                        ip_text: k.3.clone(),
                    },
                    last_seen_ts: *ts,
                })
                .collect(),
        );
        let times: Vec<i64> = files
            .iter()
            .map(|f| {
                read_first_line_ts(&f.path, &f.bytes).unwrap_or(f.mtime_ns / 1_000_000_000)
            })
            .collect();
        let mut plan = RunPlan::new();
        for i in order_by_time(&times) {
            let f = &files[i];
            let stat = FileStat {
                inode: f.inode,
                stat_size: f.bytes.len() as u64,
                mtime_ns: f.mtime_ns,
            };
            let ctx = file_context(f.path.clone(), stat, &self.states);
            plan.add_outcome(i, resolve_contents(&ctx, &self.states, &f.bytes).unwrap());
        }
        let work = plan.work.clone();
        let mut run = PipelineRun::new(self.month.clone(), plan);
        let mut stage = ParserStage::new(self.config.bot_filter);
        for (i, plan) in work {
            let f = &files[i];
            run.file_start(f.path.clone(), plan);
            let text = match plan.compression {
                CompressionType::Plain => f.bytes[plan.offset as usize..].to_vec(),
                c => decode(&f.bytes, c, u64::MAX).0,
            };
            let mut reader = LineReader::new(&plan);
            for line in text.split_inclusive(|b| *b == b'\n') {
                let line = String::from_utf8(line.to_vec()).unwrap();
                if let Some(msg) = reader.feed(line).message {
                    self.lines(&mut processor, &mut run, &mut stage, msg);
                }
            }
            let end = reader.finish();
            if let Some(msg) = end.message {
                self.lines(&mut processor, &mut run, &mut stage, msg);
            }
            if let Some(msg) = stage.end().message {
                self.entries(&mut processor, &mut run, msg);
            }
            run.file_done(&f.path, &plan, end.final_offset, end.completed);
        }
        let states: Vec<ParseStateUpdate> = run.pending.drain(..).collect();
        self.store(&mut processor, &run, &states);
        run.total
    }

    fn visitors(&self, date: &str) -> u64 {
        unique_count(&self.days[date]).unwrap()
    }
}

// ── Plain files: resume and deduplication ─────────────────────────────────

#[test]
fn tests_plain_file_appends_resume_from_offset() {
    let mut log = plain_file("access.log", 1, &sample_lines("plain", 120));
    let mut site = Site::new(config(true));
    assert_eq!(site.process(&[log.clone()]), 120);
    assert_eq!(site.hits(), 120);

    append_plain(&mut log, &sample_lines("plain-more", 1));

    let processed_2 = site.process(&[log]);
    assert_eq!(processed_2, 1, "should only process the new appended line");
    assert_eq!(site.hits(), 121, "should have 120 + 1 total hits");
}

#[test]
fn tests_plain_file_unchanged_skips_via_inode_metadata() {
    let log = plain_file("access.log", 1, &sample_lines("plain-stable", 120));
    let mut site = Site::new(config(true));
    assert_eq!(site.process(&[log.clone()]), 120);
    assert_eq!(site.process(&[log]), 0, "unchanged file should be skipped");
}

#[test]
fn tests_plain_file_shrink_restarts_from_zero() {
    let log = plain_file("access.log", 1, &sample_lines("plain-before-shrink", 120));
    let mut site = Site::new(config(true));
    site.process(&[log]);
    assert_eq!(site.hits(), 120);

    let mut log = plain_file("access.log", 1, &sample_lines("plain-after-shrink", 40));
    log.mtime_ns += 1;
    site.process(&[log]);
    // After shrink, file is reprocessed from start: 40 new hits, old 120 archived
    assert!(site.hits() > 40, "should have new hits plus archived");
    assert_eq!(site.hits(), 160);
}

#[test]
fn tests_truly_new_plain_file_starts_from_zero() {
    let log = plain_file("fresh-access.log", 1, &sample_lines("fresh", 75));
    assert_eq!(Site::new(config(true)).process(&[log]), 75);
}

#[test]
fn tests_rename_keeps_inode_and_skips_reprocessing() {
    let mut log = plain_file("access.log", 1, &sample_lines("rename", 120));
    let mut site = Site::new(config(true));
    site.process(&[log.clone()]);

    log.path = "access.log.1".to_string();
    let processed = site.process(&[log]);
    assert_eq!(processed, 0, "renamed file with same inode should be skipped");
}

#[test]
fn tests_copy_truncate_rotated_copy_inherits_previous_offset() {
    let mut log = plain_file("access.log", 1, &sample_lines("copy-truncate", 120));
    let mut site = Site::new(config(true));
    site.process(&[log.clone()]);

    append_plain(&mut log, &sample_lines("copy-truncate-tail", 1));
    let mut rotated = log.clone();
    rotated.path = "access.log.1".to_string();
    rotated.inode = 2;
    rotated.mtime_ns += 1;
    let mut log = plain_file("access.log", 1, &sample_lines("copy-truncate-new", 1));
    log.mtime_ns += 2;

    let processed = site.process(&[log, rotated]);
    // Should process: the new line in copy-truncate-new (1) + the tail in rotated (1) = 2
    assert_eq!(processed, 2, "should process new content from both files");
}

// ── Gzip: resume and fingerprints ─────────────────────────────────────────

#[test]
fn tests_gzip_files_skip_when_stable_and_resume_when_appended() {
    let mut log = gzip_file("access.log.gz", 1, &sample_lines("gzip", 5000));
    let mut site = Site::new(config(true));
    assert_eq!(site.process(&[log.clone()]), 5000);
    assert_eq!(site.process(&[log.clone()]), 0, "unchanged gzip should be skipped");

    log.bytes.extend_from_slice(&gzip_member(&sample_lines("gzip-more", 1)));
    log.mtime_ns += 1;
    assert_eq!(site.process(&[log]), 1, "should resume and process new member");
}

#[test]
fn tests_gzip_inode_change_restarts_from_zero() {
    let log = gzip_file("access.log.gz", 1, &sample_lines("gzip-old", 800));
    let mut site = Site::new(config(true));
    site.process(&[log]);

    let mut log = gzip_file("access.log.gz", 2, &sample_lines("gzip-new", 1200));
    log.mtime_ns += 1;
    let processed = site.process(&[log]);
    assert_eq!(processed, 1200, "new inode should reprocess entire file");
}

#[test]
fn tests_gzip_inode_change_with_same_prefix_counts_only_new_tail() {
    let base_lines = sample_lines("gzip-prefix", 2_000);
    let log = gzip_file("access.log.gz", 1, &base_lines);
    let mut site = Site::new(config(true));
    site.process(&[log]);

    let mut grown_lines = base_lines.clone();
    grown_lines.extend(sample_lines("gzip-tail", 10));
    let mut log = gzip_file("access.log.gz", 2, &grown_lines);
    log.mtime_ns += 1;

    let processed = site.process(&[log]);
    // Fingerprint matching detects the same prefix and counts only the tail
    assert_eq!(
        processed, 10,
        "same prefix should be detected via fingerprint and only count new tail"
    );
}

// ── Several files ─────────────────────────────────────────────────────────

#[test]
fn tests_process_globs_persists_visit_state_across_restart() {
    let log_a = plain_file(
        "visit-a.log",
        1,
        &[sample_line_at(
            "10.20.30.40",
            "08/May/2026:14:00:00 +0000",
            "/index.html",
            200,
            100,
            "-",
            "Mozilla/5.0",
        )],
    );
    let log_b = plain_file(
        "visit-b.log",
        2,
        &[sample_line_at(
            "10.20.30.40",
            "08/May/2026:14:10:00 +0000",
            "/pricing.html",
            200,
            100,
            "-",
            "Mozilla/5.0",
        )],
    );

    let mut site = Site::new(config(true));
    assert_eq!(site.process(&[log_a]), 1);
    assert_eq!(site.process(&[log_b]), 1);

    let visits: u64 = site.hourly.values().map(|h| h.visits).sum();
    assert_eq!(visits, 1, "same IP within 30 min should count as one visit across files");
    assert_eq!(site.visits.len(), 1);
}

#[test]
fn a_pause_of_half_an_hour_starts_a_visit() {
    let at = |ts: &str| {
        sample_line_at("10.20.30.40", ts, "/index.html", 200, 100, "-", "Mozilla/5.0")
    };
    let log = plain_file(
        "visit.log",
        1,
        &[
            at("08/May/2026:14:00:00 +0000"),
            at("08/May/2026:14:30:00 +0000"),
            at("08/May/2026:15:00:01 +0000"),
        ],
    );
    let mut site = Site::new(config(true));
    site.process(&[log]);
    let visits: u64 = site.hourly.values().map(|h| h.visits).sum();
    assert_eq!(visits, 2);
}

// ── Month boundary hit counting ───────────────────────────────────────────

fn jan_line(i: usize) -> String {
    format!(
        r#"1.2.3.{i} - - [15/Jan/2026:10:00:00 +0000] "GET /jan/{i} HTTP/1.1" 200 100 "-" "Mozilla/5.0""#
    )
}

fn feb_line(i: usize) -> String {
    format!(
        r#"1.2.3.{i} - - [15/Feb/2026:10:00:00 +0000] "GET /feb/{i} HTTP/1.1" 200 100 "-" "Mozilla/5.0""#
    )
}

#[test]
fn month_boundary_clean_run_counts_all_entries() {
    // Sanity check: a single file spanning two months is fully processed.
    let lines: Vec<String> = (0..10).map(jan_line).chain((0..10).map(feb_line)).collect();
    let log = plain_file("access.log", 1, &lines);
    let mut site = Site::new(config(true));
    assert_eq!(site.process(&[log]), 20);
    assert_eq!(site.hits(), 20);
    assert_eq!(site.finalized, vec!["2026-01".to_string()]);
    assert_eq!(site.month, "2026-02");
}

#[test]
fn month_boundary_resume_from_mid_batch_offset_counts_all_entries() {
    // A run that was interrupted after the first month was stored left the offset at which the
    // entries of the second month start. The next run reads exactly those.
    let jan_lines: Vec<String> = (0..10).map(jan_line).collect();
    let feb_lines: Vec<String> = (0..10).map(feb_line).collect();
    let mut all_lines = jan_lines.clone();
    all_lines.extend(feb_lines.clone());
    let log = plain_file("access.log", 1, &all_lines);

    let jan_bytes: u64 = jan_lines.iter().map(|l| l.len() as u64 + 1).sum();
    let file_size: u64 = jan_bytes + feb_lines.iter().map(|l| l.len() as u64 + 1).sum::<u64>();

    let mut site = Site::new(config(true));
    site.states.active.push(ParseState {
        filepath: "access.log".to_string(),
        inode: 1,
        compressed_size: 0,
        uncompressed_size: file_size,
        compressed_head_fingerprint: None,
        uncompressed_head_fingerprint: None,
        compressed_offset: 0,
        uncompressed_offset: jan_bytes, // correct resume offset = start of Feb entries
        mtime_ns: log.mtime_ns,
        completed: false,
        earliest_ts: None,
        latest_ts: None,
        skip_before_ts: None,
    });
    let processed = site.process(&[log]);
    assert_eq!(
        processed, 10,
        "resume from start-of-Feb offset should process exactly the 10 Feb entries"
    );
    assert_eq!(site.hits(), 10, "only Feb entries should be in DB after resume");
}

#[test]
fn a_new_year_ends_the_old_one() {
    let mut run = PipelineRun::new("2025-12".to_string(), RunPlan::new());
    let end = run.next_month("2026-01".to_string()).unwrap();
    assert_eq!(end.finalize.as_deref(), Some("2025-12"));
    assert_eq!(end.finalize_year.as_deref(), Some("2025"));
    let end = run.next_month("2026-02".to_string()).unwrap();
    assert_eq!(end.finalize.as_deref(), Some("2026-01"));
    assert_eq!(end.finalize_year, None);
    let mut run = PipelineRun::new(String::new(), RunPlan::new());
    let end = run.next_month("2026-01".to_string()).unwrap();
    assert_eq!((end.finalize, end.finalize_year), (None, None));
    let mut run = PipelineRun::new("202é".to_string(), RunPlan::new());
    assert!(run.next_month("2026-01".to_string()).is_none());
}

#[test]
fn entries_that_cannot_be_counted_are_refused() {
    let mut processor = Processor::new(Geo::new(None), config(true));
    let mut run = PipelineRun::new("2026-05".to_string(), RunPlan::new());
    let parsed = |bytes: u64| ParsedEntry {
        entry: LogFormat::Combined.parse(sample_line("1.2.3.4", "/", 200, bytes)).unwrap(),
        ua_family: Arc::new("UA".to_string()),
        hidden: HideMask::none(),
    };
    assert!(run.count_entry(&mut processor, &parsed(u64::MAX - 5)));
    assert!(!run.count_entry(&mut processor, &parsed(6)));
    assert!(run.count_entry(&mut processor, &parsed(5)));
    assert_eq!((run.counted, run.bytes), (2, u64::MAX));
    assert_eq!(run.acc.urls.get("/"), Some(&(2, u64::MAX)));
}

#[test]
fn tests_file_rotation_append_then_rotate_does_not_reprocess() {
    let first_line = sample_line("1.2.3.4", "/first.html", 200, 1000);
    let mut log = plain_file("access.log", 1, &[first_line]);
    let mut site = Site::new(config(true));
    assert_eq!(site.process(&[log.clone()]), 1, "First run should process 1 line");

    let second_line = sample_line("5.6.7.8", "/second.html", 200, 2000);
    append_plain(&mut log, &[second_line]);
    log.path = "access.log.1".to_string();
    let empty = plain_file("access.log", 2, &[]);

    let processed_2 = site.process(&[empty, log]);
    assert_eq!(processed_2, 1, "Rotated file should only process the newly appended line");
    assert_eq!(
        site.hits(),
        2,
        "Should have exactly 2 hits (1 original + 1 new, not reprocessed)"
    );
}

// ── Distinct visitors ─────────────────────────────────────────────────────

#[test]
fn tests_unique_sites_same_ip_same_hour_counts_once() {
    let lines = vec![sample_line("1.2.3.4", "/index.html", 200, 100); 5];
    let log = plain_file("same-ip.log", 1, &lines);
    let mut site = Site::new(config(true));
    assert_eq!(site.process(&[log]), 5);
    assert_eq!(
        site.visitors("2026-05-08"),
        1,
        "same IP in same hour should count as 1 site"
    );
}

#[test]
fn tests_unique_sites_different_ips_same_hour_count_separately() {
    let mut lines = Vec::new();
    for i in 0..5 {
        lines.push(sample_line(&format!("1.2.3.{}", i + 1), "/index.html", 200, 100));
    }
    let log = plain_file("many-ip.log", 1, &lines);
    let mut site = Site::new(config(true));
    assert_eq!(site.process(&[log]), 5);
    assert_eq!(site.visitors("2026-05-08"), 5, "different IPs should each count as a site");
}

// ── Tables ────────────────────────────────────────────────────────────────

const UA: &str = "Mozilla/5.0 (Windows NT 10.0; Win64; x64) AppleWebKit/537.36";

fn may() -> String {
    "2026-05".to_string()
}

#[test]
fn tests_process_persists_top_tables_for_month_and_year() {
    let lines = vec![
        format!(
            r#"1.2.3.4 - frank [08/May/2026:14:23:01 +0000] "GET /popular.html HTTP/1.1" 200 100 "https://google.com/search" "{UA}""#
        ),
        format!(
            r#"1.2.3.5 - frank [08/May/2026:14:24:01 +0000] "GET /popular.html HTTP/1.1" 200 300 "https://google.com/news" "{UA}""#
        ),
        format!(
            r#"1.2.3.6 - frank [08/May/2026:14:25:01 +0000] "GET /asset.js HTTP/1.1" 404 50 "https://twitter.com/user" "{UA}""#
        ),
    ];
    let log = plain_file("tops.log", 1, &lines);
    let mut site = Site::new(config(true));
    assert_eq!(site.process(&[log]), 3);

    let (month_hits, month_bw) = site.urls[&(may(), "/popular.html".to_string())];
    assert_eq!(month_hits, 2);
    assert_eq!(month_bw, 400);
    assert_eq!(site.status[&(may(), 200)], 2);
    assert_eq!(site.status[&(may(), 404)], 1);
    assert_eq!(site.refs[&(may(), "google.com".to_string())], 2);
}

#[test]
fn hide_action_counts_hits_but_not_top_urls() {
    // Two hidden entries (/static/) and one visible entry (/page.html).
    let lines = vec![
        format!(
            r#"1.2.3.4 - - [08/May/2026:14:00:00 +0000] "GET /static/app.js HTTP/1.1" 200 500 "https://ref.example.com/" "{UA}""#
        ),
        format!(
            r#"1.2.3.5 - - [08/May/2026:14:01:00 +0000] "GET /static/style.css HTTP/1.1" 200 300 "https://ref.example.com/" "{UA}""#
        ),
        format!(
            r#"1.2.3.6 - - [08/May/2026:14:02:00 +0000] "GET /page.html HTTP/1.1" 200 100 "https://ref.example.com/" "{UA}""#
        ),
    ];
    let log = plain_file("hide.log", 1, &lines);
    let mut site = Site::new(config(true));
    site.hide = Some("/static/");
    assert_eq!(site.process(&[log]), 3);

    assert_eq!(site.hits(), 3, "hidden entries must still count as hits");
    assert_eq!(
        site.visitors("2026-05-08"),
        3,
        "hidden entries must still count as unique sites"
    );
    let hidden = site.urls.keys().filter(|(_, u)| u.starts_with("/static/")).count();
    assert_eq!(hidden, 0, "hidden URLs must not appear in top URLs");
    assert_eq!(
        site.urls[&(may(), "/page.html".to_string())].0,
        1,
        "non-hidden URL must appear in top URLs"
    );
}

#[test]
fn hide_action_excludes_from_refs_agents_hosts_countries() {
    // One hidden entry, one visible entry from a different IP/referrer.
    let lines = vec![
        format!(
            r#"10.0.0.1 - - [08/May/2026:14:00:00 +0000] "GET /static/x.js HTTP/1.1" 200 999 "https://hidden-ref.example.com/" "{UA}""#
        ),
        format!(
            r#"10.0.0.2 - - [08/May/2026:14:01:00 +0000] "GET /page.html HTTP/1.1" 200 100 "https://visible-ref.example.com/" "{UA}""#
        ),
    ];
    let log = plain_file("hide-tops.log", 1, &lines);
    let mut site = Site::new(config(true));
    site.hide = Some("/static/");
    site.process(&[log]);

    let count = |what: &str| site.refs.keys().filter(|(_, r)| r.contains(what)).count();
    assert_eq!(count("hidden-ref"), 0, "hidden entry referrer must not appear in top refs");
    assert_eq!(count("visible-ref"), 1, "non-hidden entry referrer must appear in top refs");
    assert_eq!(site.hosts, 1, "only the non-hidden host must appear in top hosts");
}

fn agent_log_lines() -> Vec<String> {
    // Three entries with a recognisable UA; bot_filter is off so they go through.
    (0..3)
        .map(|i| {
            format!(
                r#"1.2.3.{i} - - [08/May/2026:14:00:0{i} +0000] "GET /page.html HTTP/1.1" 200 100 "-" "{UA}""#
            )
        })
        .collect()
}

#[test]
fn enable_top_agents_true_persists_agents_table() {
    let log = plain_file("agents.log", 1, &agent_log_lines());
    let mut site = Site::new(config(true));
    assert_eq!(site.process(&[log]), 3);

    let rows = site.agents.keys().filter(|(p, _)| *p == may()).count();
    assert!(rows > 0, "enable_top_agents=true must populate monthly_agents");
    let total: u64 = site.agents.values().map(|p| p.0).sum();
    assert_eq!(total, 3, "all 3 entries should be counted in monthly_agents");
}

#[test]
fn enable_top_agents_false_skips_agents_table() {
    let log = plain_file("agents-off.log", 1, &agent_log_lines());
    let mut site = Site::new(config(false));
    assert_eq!(site.process(&[log]), 3);

    assert_eq!(site.hits(), 3, "hits must be recorded regardless of enable_top_agents");
    assert_eq!(
        site.agents.len(),
        0,
        "enable_top_agents=false must not populate monthly_agents"
    );
}
